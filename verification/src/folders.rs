//! The mailbox denylist for cross-mailbox operations, and mailbox-name
//! lookups: conventional trash, spam, and archive-all names are excluded,
//! case-insensitively.

use vstd::prelude::*;
use crate::text::{has_substring, lower_of, lowercase, str_contains, str_eq};

verus! {

/// Whether a lowercased mailbox name falls on the denylist: trash, spam and
/// junk mailboxes, and any name carrying an archive-all marker.
pub open spec fn skip_folder_spec(l: Seq<char>) -> bool {
    ||| l == "trash"@
    ||| l == "spam"@
    ||| l == "junk"@
    ||| has_substring(l, "all mail"@)
    ||| l == "[gmail]/all mail"@
    ||| l == "[gmail]/spam"@
    ||| l == "[gmail]/trash"@
}

/// Whether a mailbox is excluded from cross-mailbox operations, matching its
/// name case-insensitively against the denylist.
pub fn folders_to_skip(name: &str) -> (r: bool)
    ensures
        r == skip_folder_spec(lower_of(name@)),
{
    let lower = lowercase(name);
    str_eq(lower.as_str(), "trash") || str_eq(lower.as_str(), "spam") || str_eq(
        lower.as_str(),
        "junk",
    ) || str_contains(lower.as_str(), "all mail") || str_eq(lower.as_str(), "[gmail]/all mail")
        || str_eq(lower.as_str(), "[gmail]/spam") || str_eq(lower.as_str(), "[gmail]/trash")
}

/// The mailboxes that survive the denylist, in their given order.
pub fn filter_folders(names: &Vec<String>) -> (r: Vec<String>)
    ensures
        r@ == names@.filter(|n: String| !skip_folder_spec(lower_of(n@))),
{
    let mut out: Vec<String> = Vec::new();
    let mut i: usize = 0;
    proof {
        reveal(Seq::filter);
        assert(names@.subrange(0, 0) =~= Seq::<String>::empty());
        assert(out@ =~= names@.subrange(0, 0).filter(|n: String| !skip_folder_spec(lower_of(n@))));
    }
    while i < names.len()
        invariant
            i <= names@.len(),
            out@ == names@.subrange(0, i as int).filter(
                |n: String| !skip_folder_spec(lower_of(n@)),
            ),
        decreases names@.len() - i,
    {
        let keep = !folders_to_skip(names[i].as_str());
        let ghost pre = names@.subrange(0, i as int);
        let ghost cur = names@.subrange(0, i + 1);
        proof {
            reveal(Seq::filter);
            assert(cur.drop_last() =~= pre);
            assert(cur.last() == names@[i as int]);
        }
        if keep {
            out.push(names[i].clone());
            proof {
                assert(out@ =~= cur.filter(|n: String| !skip_folder_spec(lower_of(n@))));
            }
        } else {
            proof {
                assert(out@ =~= cur.filter(|n: String| !skip_folder_spec(lower_of(n@))));
            }
        }
        i = i + 1;
    }
    proof {
        assert(names@.subrange(0, names@.len() as int) =~= names@);
    }
    out
}

/// Whether one of the listed mailboxes carries exactly this name.
pub fn folder_exists(names: &Vec<String>, folder: &str) -> (r: bool)
    ensures
        r == exists|i: int| 0 <= i < names@.len() && (#[trigger] names@[i])@ == folder@,
{
    let mut i: usize = 0;
    while i < names.len()
        invariant
            i <= names@.len(),
            forall|k: int| 0 <= k < i ==> (#[trigger] names@[k])@ != folder@,
        decreases names@.len() - i,
    {
        if str_eq(names[i].as_str(), folder) {
            return true;
        }
        i = i + 1;
    }
    false
}

} // verus!
