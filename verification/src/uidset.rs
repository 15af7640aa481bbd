//! The identifier-set encoder: an arbitrary collection of message
//! identifiers becomes a short sequence of wire-legal range expressions.
//! Identifiers are sorted and deduplicated, maximal runs of consecutive
//! identifiers are compressed into closed ranges, and the serialized ranges
//! are packed greedily into comma-separated chunks, each within the command
//! length bound.

use vstd::prelude::*;
use crate::num::{dec_seq, is_digit_char, lemma_dec_seq_injective, lemma_dec_seq_val, u32_to_string};
use crate::text::push_char;

verus! {

broadcast use vstd::set::group_set_axioms;

/// The longest chunk the encoder will emit: comfortably below the
/// protocol's minimum guaranteed command-line length of 8000 octets.
pub const MAX_UID_SET_LENGTH: usize = 4000;

/// A strictly increasing sequence: sorted with no duplicates.
pub open spec fn sorted_strict(s: Seq<u32>) -> bool {
    forall|i: int, j: int| 0 <= i < j < s.len() ==> s[i] < s[j]
}

/// `v` lies inside one of the closed ranges.
pub open spec fn covers(rs: Seq<(u32, u32)>, v: u32) -> bool {
    exists|i: int| 0 <= i < rs.len() && (#[trigger] rs[i]).0 <= v <= rs[i].1
}

/// `rs` is the canonical range decomposition of the set `s`: every range is
/// nonempty, consecutive ranges are separated by a gap of at least one
/// missing identifier (so runs are maximal), and the ranges cover exactly
/// the members of `s`.
pub open spec fn is_range_decomp(rs: Seq<(u32, u32)>, s: Set<u32>) -> bool {
    &&& forall|i: int| 0 <= i < rs.len() ==> (#[trigger] rs[i]).0 <= rs[i].1
    &&& forall|i: int| 0 <= i < rs.len() - 1 ==> (#[trigger] rs[i]).1 + 1 < rs[i + 1].0
    &&& forall|v: u32| s.contains(v) <==> covers(rs, v)
}

/// The wire text of one range: a single identifier, or `start:end`.
pub open spec fn range_text(r: (u32, u32)) -> Seq<char> {
    if r.0 == r.1 {
        dec_seq(r.0 as nat)
    } else {
        dec_seq(r.0 as nat) + seq![':'] + dec_seq(r.1 as nat)
    }
}

/// Greedy packing of serialized ranges into chunks: append each next range
/// to the current chunk unless the comma and the range would push it past
/// the length bound, in which case the current chunk is emitted and a new
/// one starts.
pub open spec fn pack_ranges(rs: Seq<(u32, u32)>, cur: Seq<char>) -> Seq<Seq<char>>
    decreases rs.len(),
{
    if rs.len() == 0 {
        seq![cur]
    } else {
        let part = range_text(rs[0]);
        if cur.len() + 1 + part.len() > MAX_UID_SET_LENGTH {
            seq![cur] + pack_ranges(rs.skip(1), part)
        } else {
            pack_ranges(rs.skip(1), cur + seq![','] + part)
        }
    }
}

/// The chunk texts of a whole range decomposition.
pub open spec fn uid_chunks(rs: Seq<(u32, u32)>) -> Seq<Seq<char>> {
    if rs.len() == 0 {
        seq![]
    } else {
        pack_ranges(rs.skip(1), range_text(rs[0]))
    }
}

/// Insert `x` into a strictly sorted vector, keeping it strictly sorted;
/// an identifier already present is left alone.
fn insert_sorted(out: &mut Vec<u32>, x: u32)
    requires
        sorted_strict(old(out)@),
    ensures
        sorted_strict(final(out)@),
        final(out)@.to_set() == old(out)@.to_set().insert(x),
{
    let n = out.len();
    let mut pos: usize = 0;
    while pos < n && out[pos] < x
        invariant
            pos <= n,
            n == out@.len(),
            forall|k: int| 0 <= k < pos ==> out@[k] < x,
        decreases n - pos,
    {
        pos = pos + 1;
    }
    if pos < n && out[pos] == x {
        proof {
            assert(old(out)@.contains(x));
            assert(final(out)@.to_set() =~= old(out)@.to_set().insert(x));
        }
        return;
    }
    let ghost pre = out@;
    out.insert(pos, x);
    proof {
        let post = out@;
        assert(post == pre.insert(pos as int, x));
        assert forall|i: int, j: int| 0 <= i < j < post.len() implies post[i] < post[j] by {
            if j < pos {
                assert(post[i] == pre[i] && post[j] == pre[j]);
            } else if i > pos {
                assert(post[i] == pre[i - 1] && post[j] == pre[j - 1]);
            } else if i < pos && j == pos {
                assert(post[i] == pre[i] && post[j] == x);
                assert(pre[i] < x);
            } else if i < pos && j > pos {
                assert(post[i] == pre[i] && post[j] == pre[j - 1]);
                assert(pre[i] < x);
                assert(pre[j - 1] >= x) by {
                    assert(j - 1 >= pos);
                    assert(pre[pos as int] > x);
                    if j - 1 > pos {
                        assert(pre[pos as int] < pre[j - 1]);
                    }
                }
            } else {
                assert(i == pos && j > pos);
                assert(post[i] == x && post[j] == pre[j - 1]);
                assert(pre[pos as int] > x);
                if j - 1 > pos {
                    assert(pre[pos as int] < pre[j - 1]);
                }
            }
        }
        assert forall|v: u32| post.to_set().contains(v) implies pre.to_set().insert(x).contains(
            v,
        ) by {
            let k = choose|k: int| 0 <= k < post.len() && post[k] == v;
            if k < pos {
                assert(pre[k] == v);
            } else if k == pos {
            } else {
                assert(pre[k - 1] == v);
            }
        }
        assert forall|v: u32| pre.to_set().insert(x).contains(v) implies post.to_set().contains(
            v,
        ) by {
            if v == x {
                assert(post[pos as int] == x);
            } else {
                let k = choose|k: int| 0 <= k < pre.len() && pre[k] == v;
                if k < pos {
                    assert(post[k] == v);
                } else {
                    assert(post[k + 1] == v);
                }
            }
        }
        assert(post.to_set() =~= pre.to_set().insert(x));
    }
}

/// Sort and deduplicate a collection of identifiers.
pub fn sorted_unique(uids: &[u32]) -> (r: Vec<u32>)
    ensures
        sorted_strict(r@),
        r@.to_set() == uids@.to_set(),
{
    let n = uids.len();
    let mut out: Vec<u32> = Vec::new();
    let mut i: usize = 0;
    proof {
        assert(out@.to_set() =~= uids@.subrange(0, 0).to_set());
    }
    while i < n
        invariant
            i <= n,
            n == uids@.len(),
            sorted_strict(out@),
            out@.to_set() == uids@.subrange(0, i as int).to_set(),
        decreases n - i,
    {
        let ghost pre = uids@.subrange(0, i as int);
        let ghost cur = uids@.subrange(0, i + 1);
        insert_sorted(&mut out, uids[i]);
        proof {
            assert(cur.drop_last() =~= pre);
            assert(cur.last() == uids@[i as int]);
            assert forall|v: u32| cur.to_set().contains(v) implies pre.to_set().insert(
                uids@[i as int],
            ).contains(v) by {
                let k = choose|k: int| 0 <= k < cur.len() && cur[k] == v;
                if k < i {
                    assert(pre[k] == v);
                }
            }
            assert forall|v: u32| pre.to_set().insert(uids@[i as int]).contains(v) implies cur
                .to_set().contains(v) by {
                if v == uids@[i as int] {
                    assert(cur[i as int] == v);
                } else {
                    let k = choose|k: int| 0 <= k < pre.len() && pre[k] == v;
                    assert(cur[k] == v);
                }
            }
            assert(cur.to_set() =~= pre.to_set().insert(uids@[i as int]));
        }
        i = i + 1;
    }
    proof {
        assert(uids@.subrange(0, n as int) =~= uids@);
    }
    out
}

/// Compress a strictly sorted identifier sequence into its canonical range
/// decomposition.
fn to_ranges(sorted: &Vec<u32>) -> (rs: Vec<(u32, u32)>)
    requires
        sorted_strict(sorted@),
        sorted@.len() > 0,
    ensures
        is_range_decomp(rs@, sorted@.to_set()),
        rs@.len() > 0,
{
    let mut rs: Vec<(u32, u32)> = Vec::new();
    let mut start = sorted[0];
    let mut end = sorted[0];
    let n = sorted.len();
    let mut i: usize = 1;
    proof {
        assert(rs@.len() == 0);
        assert forall|v: u32|
            (covers(rs@, v) || start <= v <= end) <==> sorted@.subrange(0, 1).contains(v) by {
            assert(!covers(rs@, v));
            if start <= v <= end {
                assert(v == sorted@[0]);
                assert(sorted@.subrange(0, 1)[0] == v);
            }
            if sorted@.subrange(0, 1).contains(v) {
                let k = choose|k: int|
                    0 <= k < sorted@.subrange(0, 1).len() && sorted@.subrange(0, 1)[k] == v;
                assert(k == 0);
                assert(v == sorted@[0]);
            }
        }
    }
    while i < n
        invariant
            1 <= i <= n,
            n == sorted@.len(),
            sorted_strict(sorted@),
            start <= end,
            end == sorted@[i - 1],
            forall|k: int| 0 <= k < rs@.len() ==> (#[trigger] rs@[k]).0 <= rs@[k].1,
            forall|k: int| 0 <= k < rs@.len() - 1 ==> (#[trigger] rs@[k]).1 + 1 < rs@[k + 1].0,
            rs@.len() > 0 ==> rs@[rs@.len() - 1].1 + 1 < start,
            forall|v: u32|
                (covers(rs@, v) || start <= v <= end) <==> sorted@.subrange(0, i as int).contains(
                    v,
                ),
        decreases n - i,
    {
        let uid = sorted[i];
        proof {
            assert(sorted@[i - 1] < sorted@[i as int]);
        }
        let ghost prefix = sorted@.subrange(0, i as int);
        let ghost nextfix = sorted@.subrange(0, i + 1);
        proof {
            assert(nextfix.drop_last() =~= prefix);
            assert(nextfix.last() == sorted@[i as int]);
            assert forall|v: u32| nextfix.contains(v) implies (prefix.contains(v) || v
                == sorted@[i as int]) by {
                let k = choose|k: int| 0 <= k < nextfix.len() && nextfix[k] == v;
                if k < i {
                    assert(prefix[k] == v);
                }
            }
            assert forall|v: u32| prefix.contains(v) implies nextfix.contains(v) by {
                let k = choose|k: int| 0 <= k < prefix.len() && prefix[k] == v;
                assert(nextfix[k] == v);
            }
            assert(nextfix.contains(sorted@[i as int]));
        }
        let ghost ostart = start;
        let ghost oend = end;
        let ghost ors = rs@;
        if uid == end + 1 {
            end = uid;
            proof {
                assert forall|v: u32|
                    (covers(rs@, v) || start <= v <= end) <==> nextfix.contains(v) by {
                    assert((covers(ors, v) || ostart <= v <= oend) <==> prefix.contains(v));
                }
            }
        } else {
            rs.push((start, end));
            proof {
                assert forall|v: u32| covers(rs@, v) implies (covers(ors, v) || ostart <= v
                    <= oend) by {
                    let k = choose|k: int|
                        0 <= k < rs@.len() && (#[trigger] rs@[k]).0 <= v <= rs@[k].1;
                    if k < ors.len() {
                        assert(ors[k] == rs@[k]);
                    }
                }
                assert forall|v: u32| (covers(ors, v) || ostart <= v <= oend) implies covers(
                    rs@,
                    v,
                ) by {
                    if covers(ors, v) {
                        let k = choose|k: int|
                            0 <= k < ors.len() && (#[trigger] ors[k]).0 <= v <= ors[k].1;
                        assert(rs@[k] == ors[k]);
                    } else {
                        assert(rs@[rs@.len() - 1] == (ostart, oend));
                    }
                }
            }
            start = uid;
            end = uid;
            proof {
                assert forall|v: u32|
                    (covers(rs@, v) || start <= v <= end) <==> nextfix.contains(v) by {
                    assert((covers(ors, v) || ostart <= v <= oend) <==> prefix.contains(v));
                }
            }
        }
        i = i + 1;
    }
    let ghost rspre = rs@;
    rs.push((start, end));
    proof {
        assert(sorted@.subrange(0, n as int) =~= sorted@);
        assert forall|v: u32| covers(rs@, v) implies (covers(rspre, v) || start <= v <= end) by {
            let k = choose|k: int| 0 <= k < rs@.len() && (#[trigger] rs@[k]).0 <= v <= rs@[k].1;
            if k < rspre.len() {
                assert(rspre[k] == rs@[k]);
            }
        }
        assert forall|v: u32| (covers(rspre, v) || start <= v <= end) implies covers(rs@, v) by {
            if covers(rspre, v) {
                let k = choose|k: int|
                    0 <= k < rspre.len() && (#[trigger] rspre[k]).0 <= v <= rspre[k].1;
                assert(rs@[k] == rspre[k]);
            } else {
                assert(rs@[rs@.len() - 1] == (start, end));
            }
        }
        assert forall|v: u32| sorted@.to_set().contains(v) implies covers(rs@, v) by {
            assert(sorted@.contains(v));
            assert(sorted@.subrange(0, n as int).contains(v));
            assert((covers(rspre, v) || start <= v <= end) <==> sorted@.subrange(
                0,
                n as int,
            ).contains(v));
        }
        assert forall|v: u32| covers(rs@, v) implies sorted@.to_set().contains(v) by {
            assert((covers(rspre, v) || start <= v <= end) <==> sorted@.subrange(
                0,
                n as int,
            ).contains(v));
            assert(sorted@.contains(v));
        }
    }
    rs
}

/// Serialize one range as wire text.
fn range_to_text(r: (u32, u32)) -> (s: String)
    ensures
        s@ == range_text(r),
{
    if r.0 == r.1 {
        u32_to_string(r.0)
    } else {
        let mut s = u32_to_string(r.0);
        push_char(&mut s, ':');
        let tail = u32_to_string(r.1);
        s.append(tail.as_str());
        proof {
            assert(s@ =~= range_text(r));
        }
        s
    }
}

/// Encode a collection of identifiers as chunked wire-legal range
/// expressions: the chunks serialize the canonical range decomposition of
/// the deduplicated input, packed greedily under the length bound. An empty
/// input yields no chunks at all.
pub fn build_uid_set(uids: &[u32]) -> (r: Vec<String>)
    ensures
        exists|rs: Seq<(u32, u32)>|
            {
                &&& #[trigger] is_range_decomp(rs, uids@.to_set())
                &&& r@.map_values(|s: String| s@) == uid_chunks(rs)
            },
        uids@.len() == 0 ==> r@.len() == 0,
{
    if uids.len() == 0 {
        let r: Vec<String> = Vec::new();
        proof {
            let rs = Seq::<(u32, u32)>::empty();
            assert(forall|v: u32| !uids@.to_set().contains(v));
            assert(is_range_decomp(rs, uids@.to_set()));
            assert(r@.map_values(|s: String| s@) =~= uid_chunks(rs));
        }
        return r;
    }
    let sorted = sorted_unique(uids);
    proof {
        assert(uids@.to_set().contains(uids@[0]));
        assert(sorted@.to_set().contains(uids@[0]));
        assert(sorted@.len() > 0);
    }
    let ranges = to_ranges(&sorted);
    let ghost grs = ranges@;
    let mut chunks: Vec<String> = Vec::new();
    let mut cur = range_to_text(ranges[0]);
    proof {
        lemma_range_text_bounded(grs[0]);
    }
    let n = ranges.len();
    let mut i: usize = 1;
    while i < n
        invariant
            1 <= i <= n,
            n == grs.len(),
            ranges@ == grs,
            cur@.len() <= MAX_UID_SET_LENGTH,
            uid_chunks(grs) == chunks@.map_values(|s: String| s@) + pack_ranges(
                grs.skip(i as int),
                cur@,
            ),
        decreases n - i,
    {
        let part = range_to_text(ranges[i]);
        proof {
            lemma_range_text_bounded(grs[i as int]);
            assert(grs.skip(i as int)[0] == grs[i as int]);
            assert(grs.skip(i as int).skip(1) =~= grs.skip(i + 1));
        }
        if cur.as_str().unicode_len() + 1 + part.as_str().unicode_len() > MAX_UID_SET_LENGTH {
            let ghost oldcur = cur@;
            let ghost oldchunks = chunks@;
            let done = cur;
            chunks.push(done);
            cur = part;
            proof {
                assert(chunks@.map_values(|s: String| s@) =~= oldchunks.map_values(
                    |s: String| s@,
                ).push(oldcur));
                assert(oldchunks.map_values(|s: String| s@).push(oldcur) + pack_ranges(
                    grs.skip(i + 1),
                    cur@,
                ) =~= oldchunks.map_values(|s: String| s@) + (seq![oldcur] + pack_ranges(
                    grs.skip(i + 1),
                    cur@,
                )));
            }
        } else {
            let mut grown = cur;
            push_char(&mut grown, ',');
            grown.append(part.as_str());
            proof {
                assert(grown@ =~= cur@ + seq![','] + part@);
            }
            cur = grown;
        }
        i = i + 1;
    }
    proof {
        assert(grs.skip(n as int) =~= Seq::<(u32, u32)>::empty());
        assert(pack_ranges(Seq::<(u32, u32)>::empty(), cur@) == seq![cur@]);
    }
    let ghost oldcur = cur@;
    let ghost oldchunks = chunks@;
    chunks.push(cur);
    proof {
        assert(chunks@.map_values(|s: String| s@) =~= oldchunks.map_values(|s: String| s@).push(
            oldcur,
        ));
        assert(oldchunks.map_values(|s: String| s@).push(oldcur) =~= oldchunks.map_values(
            |s: String| s@,
        ) + seq![oldcur]);
        assert(is_range_decomp(grs, uids@.to_set()));
        assert(chunks@.map_values(|s: String| s@) == uid_chunks(grs));
    }
    chunks
}

/// A range's wire text is at most 21 characters: two ten-digit numerals and
/// a colon.
pub proof fn lemma_range_text_bounded(r: (u32, u32))
    ensures
        1 <= range_text(r).len() <= 21,
{
    reveal_with_fuel(crate::date::pow10, 11);
    assert(crate::date::pow10(10) == 10000000000);
    lemma_dec_seq_len_le(r.0 as nat, 10);
    lemma_dec_seq_len_le(r.1 as nat, 10);
}

/// A numeral of a value below the `k`-th power of ten has at most `k`
/// digits.
proof fn lemma_dec_seq_len_le(n: nat, k: nat)
    requires
        n < crate::date::pow10(k),
        k >= 1,
    ensures
        1 <= dec_seq(n).len() <= k,
    decreases k,
{
    if n < 10 {
    } else {
        assert(crate::date::pow10(k) == 10 * crate::date::pow10((k - 1) as nat));
        if k == 1 {
            assert(crate::date::pow10(0) == 1);
            assert(false);
        } else {
            lemma_dec_seq_len_le(n / 10, (k - 1) as nat);
        }
    }
}

/// Distinct ranges have distinct wire texts: decoding a chunk, range by
/// range, is unambiguous. The colon can only stand between the two
/// numerals, and equal numerals name equal numbers.
pub proof fn lemma_range_text_injective(a: (u32, u32), b: (u32, u32))
    requires
        range_text(a) == range_text(b),
    ensures
        a == b,
{
    lemma_dec_seq_val(a.0 as nat);
    lemma_dec_seq_val(a.1 as nat);
    lemma_dec_seq_val(b.0 as nat);
    lemma_dec_seq_val(b.1 as nat);
    assert(!is_digit_char(':'));
    if a.0 == a.1 && b.0 == b.1 {
        lemma_dec_seq_injective(a.0 as nat, b.0 as nat);
    } else if a.0 == a.1 && b.0 != b.1 {
        let i = dec_seq(b.0 as nat).len() as int;
        assert(range_text(b)[i] == ':');
        assert(i < range_text(a).len());
        assert(range_text(a)[i] == dec_seq(a.0 as nat)[i]);
        assert(is_digit_char(dec_seq(a.0 as nat)[i]));
        assert(false);
    } else if a.0 != a.1 && b.0 == b.1 {
        let i = dec_seq(a.0 as nat).len() as int;
        assert(range_text(a)[i] == ':');
        assert(i < range_text(b).len());
        assert(range_text(b)[i] == dec_seq(b.0 as nat)[i]);
        assert(is_digit_char(dec_seq(b.0 as nat)[i]));
        assert(false);
    } else {
        let i = dec_seq(a.0 as nat).len() as int;
        let j = dec_seq(b.0 as nat).len() as int;
        if i < j {
            assert(range_text(a)[i] == ':');
            assert(range_text(b)[i] == dec_seq(b.0 as nat)[i]);
            assert(is_digit_char(dec_seq(b.0 as nat)[i]));
            assert(false);
        }
        if j < i {
            assert(range_text(b)[j] == ':');
            assert(range_text(a)[j] == dec_seq(a.0 as nat)[j]);
            assert(is_digit_char(dec_seq(a.0 as nat)[j]));
            assert(false);
        }
        assert(i == j);
        assert(dec_seq(a.0 as nat) =~= range_text(a).take(i));
        assert(dec_seq(b.0 as nat) =~= range_text(b).take(i));
        lemma_dec_seq_injective(a.0 as nat, b.0 as nat);
        assert(dec_seq(a.1 as nat) =~= range_text(a).skip(i + 1));
        assert(dec_seq(b.1 as nat) =~= range_text(b).skip(i + 1));
        lemma_dec_seq_injective(a.1 as nat, b.1 as nat);
    }
}

/// Later ranges of a decomposition start beyond the end of earlier ones,
/// with the separating gap.
proof fn lemma_gap_order(rs: Seq<(u32, u32)>, i: int, j: int)
    requires
        forall|k: int| 0 <= k < rs.len() ==> (#[trigger] rs[k]).0 <= rs[k].1,
        forall|k: int| 0 <= k < rs.len() - 1 ==> (#[trigger] rs[k]).1 + 1 < rs[k + 1].0,
        0 <= i < j < rs.len(),
    ensures
        rs[i].1 + 1 < rs[j].0,
    decreases j - i,
{
    if j > i + 1 {
        lemma_gap_order(rs, i, j - 1);
    }
}

/// Two decompositions of one set begin with the same start.
proof fn lemma_first_start_equal(rs1: Seq<(u32, u32)>, rs2: Seq<(u32, u32)>, s: Set<u32>)
    requires
        is_range_decomp(rs1, s),
        is_range_decomp(rs2, s),
        rs1.len() > 0,
        rs2.len() > 0,
    ensures
        rs1[0].0 == rs2[0].0,
{
    let a = rs1[0].0;
    let b = rs2[0].0;
    assert(covers(rs1, a));
    assert(s.contains(a));
    assert(covers(rs2, a));
    assert(b <= a) by {
        let i = choose|i: int| 0 <= i < rs2.len() && (#[trigger] rs2[i]).0 <= a <= rs2[i].1;
        if i > 0 {
            lemma_gap_order(rs2, 0, i);
        }
    }
    assert(covers(rs2, b));
    assert(s.contains(b));
    assert(covers(rs1, b));
    assert(a <= b) by {
        let i = choose|i: int| 0 <= i < rs1.len() && (#[trigger] rs1[i]).0 <= b <= rs1[i].1;
        if i > 0 {
            lemma_gap_order(rs1, 0, i);
        }
    }
}

/// Two decompositions of one set begin with the same range.
proof fn lemma_first_range_equal(rs1: Seq<(u32, u32)>, rs2: Seq<(u32, u32)>, s: Set<u32>)
    requires
        is_range_decomp(rs1, s),
        is_range_decomp(rs2, s),
        rs1.len() > 0,
        rs2.len() > 0,
    ensures
        rs1[0] == rs2[0],
{
    lemma_first_start_equal(rs1, rs2, s);
    let e1 = rs1[0].1;
    let e2 = rs2[0].1;
    assert(!(e1 < e2)) by {
        if e1 < e2 {
            let w = (e1 + 1) as u32;
            assert(rs2[0].0 <= w <= rs2[0].1);
            assert(covers(rs2, w));
            assert(s.contains(w));
            assert(covers(rs1, w));
            let i = choose|i: int| 0 <= i < rs1.len() && (#[trigger] rs1[i]).0 <= w <= rs1[i].1;
            if i > 0 {
                lemma_gap_order(rs1, 0, i);
            }
            assert(false);
        }
    }
    assert(!(e2 < e1)) by {
        if e2 < e1 {
            let w = (e2 + 1) as u32;
            assert(rs1[0].0 <= w <= rs1[0].1);
            assert(covers(rs1, w));
            assert(s.contains(w));
            assert(covers(rs2, w));
            let i = choose|i: int| 0 <= i < rs2.len() && (#[trigger] rs2[i]).0 <= w <= rs2[i].1;
            if i > 0 {
                lemma_gap_order(rs2, 0, i);
            }
            assert(false);
        }
    }
}

/// A set has at most one canonical range decomposition.
#[verifier::rlimit(100)]
proof fn lemma_range_decomp_unique(rs1: Seq<(u32, u32)>, rs2: Seq<(u32, u32)>, s: Set<u32>)
    requires
        is_range_decomp(rs1, s),
        is_range_decomp(rs2, s),
    ensures
        rs1 == rs2,
    decreases rs1.len(),
{
    if rs1.len() == 0 {
        if rs2.len() > 0 {
            assert(covers(rs2, rs2[0].0));
            assert(s.contains(rs2[0].0));
            assert(covers(rs1, rs2[0].0));
            assert(false);
        }
        assert(rs1 =~= rs2);
    } else if rs2.len() == 0 {
        assert(covers(rs1, rs1[0].0));
        assert(s.contains(rs1[0].0));
        assert(covers(rs2, rs1[0].0));
        assert(false);
    } else {
        lemma_first_range_equal(rs1, rs2, s);
        let tail = Set::new(|v: u32| s.contains(v) && !(rs1[0].0 <= v <= rs1[0].1));
        lemma_decomp_tail(rs1, s, tail);
        lemma_decomp_tail(rs2, s, tail);
        lemma_range_decomp_unique(rs1.skip(1), rs2.skip(1), tail);
        assert(rs1.skip(1).len() == rs2.skip(1).len());
        assert forall|i: int| 0 <= i < rs1.len() implies rs1[i] == rs2[i] by {
            if i > 0 {
                assert(rs1.skip(1)[i - 1] == rs1[i]);
                assert(rs2.skip(1)[i - 1] == rs2[i]);
            }
        }
        assert(rs1 =~= rs2);
    }
}

/// Removing a decomposition's first range decomposes the set without that
/// range's identifiers.
proof fn lemma_decomp_tail(rs: Seq<(u32, u32)>, s: Set<u32>, tail: Set<u32>)
    requires
        is_range_decomp(rs, s),
        rs.len() > 0,
        forall|v: u32| #[trigger] tail.contains(v) <==> (s.contains(v) && !(rs[0].0 <= v <= rs[0].1)),
    ensures
        is_range_decomp(rs.skip(1), tail),
{
    let rest = rs.skip(1);
    assert(forall|k: int| 0 <= k < rest.len() ==> rest[k] == rs[k + 1]);
    assert forall|v: u32| tail.contains(v) implies covers(rest, v) by {
        assert(s.contains(v));
        assert(covers(rs, v));
        let i = choose|i: int| 0 <= i < rs.len() && (#[trigger] rs[i]).0 <= v <= rs[i].1;
        assert(i > 0);
        assert((rest[i - 1]).0 <= v <= rest[i - 1].1);
    }
    assert forall|v: u32| covers(rest, v) implies tail.contains(v) by {
        let i = choose|i: int| 0 <= i < rest.len() && (#[trigger] rest[i]).0 <= v <= rest[i].1;
        assert(rs[i + 1].0 <= v <= rs[i + 1].1);
        assert(covers(rs, v));
        assert(s.contains(v));
        lemma_gap_order(rs, 0, i + 1);
        assert(v > rs[0].1);
    }
}

/// The encoder's output is a function of the identifier set alone: two
/// decompositions of one set are the same decomposition, so their chunk
/// texts agree whatever order or duplication the inputs had.
pub proof fn lemma_encoding_order_independent(
    rs1: Seq<(u32, u32)>,
    rs2: Seq<(u32, u32)>,
    s: Set<u32>,
)
    requires
        is_range_decomp(rs1, s),
        is_range_decomp(rs2, s),
    ensures
        rs1 == rs2,
        uid_chunks(rs1) == uid_chunks(rs2),
{
    lemma_range_decomp_unique(rs1, rs2, s);
}

/// The encoding law of the identifier-set encoder: a canonical range
/// decomposition covers exactly the deduplicated input set, its runs are
/// maximal (no two adjacent ranges could be merged), and every chunk of its
/// greedy packing stays within the length bound.
pub proof fn lemma_uid_set_encoding(rs: Seq<(u32, u32)>, s: Set<u32>)
    requires
        is_range_decomp(rs, s),
    ensures
        forall|v: u32| s.contains(v) <==> covers(rs, v),
        forall|i: int| 0 <= i < rs.len() - 1 ==> (#[trigger] rs[i]).1 + 1 < rs[i + 1].0,
        forall|c: int|
            0 <= c < uid_chunks(rs).len() ==> #[trigger] uid_chunks(rs)[c].len()
                <= MAX_UID_SET_LENGTH,
{
    if rs.len() > 0 {
        lemma_range_text_bounded(rs[0]);
        lemma_pack_bounded(rs.skip(1), range_text(rs[0]));
    }
}

/// Every chunk the greedy packing emits stays within the length bound,
/// provided the chunk under construction does.
proof fn lemma_pack_bounded(rs: Seq<(u32, u32)>, cur: Seq<char>)
    requires
        cur.len() <= MAX_UID_SET_LENGTH,
    ensures
        forall|c: int|
            0 <= c < pack_ranges(rs, cur).len() ==> #[trigger] pack_ranges(rs, cur)[c].len()
                <= MAX_UID_SET_LENGTH,
    decreases rs.len(),
{
    if rs.len() == 0 {
    } else {
        let part = range_text(rs[0]);
        lemma_range_text_bounded(rs[0]);
        if cur.len() + 1 + part.len() > MAX_UID_SET_LENGTH {
            lemma_pack_bounded(rs.skip(1), part);
            assert forall|c: int| 0 <= c < pack_ranges(rs, cur).len() implies #[trigger] pack_ranges(
                rs,
                cur,
            )[c].len() <= MAX_UID_SET_LENGTH by {
                if c == 0 {
                    assert(pack_ranges(rs, cur)[0] == cur);
                } else {
                    assert(pack_ranges(rs, cur)[c] == pack_ranges(rs.skip(1), part)[c - 1]);
                }
            }
        } else {
            lemma_pack_bounded(rs.skip(1), cur + seq![','] + part);
            assert forall|c: int| 0 <= c < pack_ranges(rs, cur).len() implies #[trigger] pack_ranges(
                rs,
                cur,
            )[c].len() <= MAX_UID_SET_LENGTH by {
                assert(pack_ranges(rs, cur)[c] == pack_ranges(rs.skip(1), cur + seq![','] + part)[c]);
            }
        }
    }
}

} // verus!
