//! Flag-update requests: validation of the chosen flag operations, the
//! store commands they translate to, and the words that describe them.

use vstd::prelude::*;
use crate::error::Error;
use crate::text::push_char;

verus! {

/// The store commands a mark request issues, one per chosen operation, in a
/// fixed order.
pub open spec fn store_ops_spec(read: bool, unread: bool, flagged: bool, unflagged: bool) -> Seq<
    Seq<char>,
> {
    (if read {
        seq!["+FLAGS (\\Seen)"@]
    } else {
        seq![]
    }) + (if unread {
        seq!["-FLAGS (\\Seen)"@]
    } else {
        seq![]
    }) + (if flagged {
        seq!["+FLAGS (\\Flagged)"@]
    } else {
        seq![]
    }) + (if unflagged {
        seq!["-FLAGS (\\Flagged)"@]
    } else {
        seq![]
    })
}

/// Reject a mark request that chooses no operation, or that both sets and
/// clears the same flag.
pub fn validate_mark_flags(read: bool, unread: bool, flagged: bool, unflagged: bool) -> (r: Result<
    (),
    Error,
>)
    ensures
        r is Ok <==> ((read || unread || flagged || unflagged) && !(read && unread) && !(flagged
            && unflagged)),
        r is Err ==> r->Err_0 == (if !read && !unread && !flagged && !unflagged {
            Error::NoFlagSelected
        } else if read && unread {
            Error::ReadUnreadConflict
        } else {
            Error::FlaggedUnflaggedConflict
        }),
{
    if !read && !unread && !flagged && !unflagged {
        Err(Error::NoFlagSelected)
    } else if read && unread {
        Err(Error::ReadUnreadConflict)
    } else if flagged && unflagged {
        Err(Error::FlaggedUnflaggedConflict)
    } else {
        Ok(())
    }
}

/// The store commands for the chosen flag operations.
pub fn mark_store_ops(read: bool, unread: bool, flagged: bool, unflagged: bool) -> (r: Vec<String>)
    ensures
        r@.map_values(|s: String| s@) == store_ops_spec(read, unread, flagged, unflagged),
{
    let mut ops: Vec<String> = Vec::new();
    if read {
        ops.push(String::from_str("+FLAGS (\\Seen)"));
    }
    if unread {
        ops.push(String::from_str("-FLAGS (\\Seen)"));
    }
    if flagged {
        ops.push(String::from_str("+FLAGS (\\Flagged)"));
    }
    if unflagged {
        ops.push(String::from_str("-FLAGS (\\Flagged)"));
    }
    proof {
        assert(ops@.map_values(|s: String| s@) =~= store_ops_spec(read, unread, flagged, unflagged));
    }
    ops
}

/// The words that describe the chosen flag operations, joined with ` + `.
pub open spec fn action_desc_spec(read: bool, unread: bool, flagged: bool, unflagged: bool) -> Seq<
    Seq<char>,
> {
    (if read {
        seq!["mark read"@]
    } else {
        seq![]
    }) + (if unread {
        seq!["mark unread"@]
    } else {
        seq![]
    }) + (if flagged {
        seq!["flag"@]
    } else {
        seq![]
    }) + (if unflagged {
        seq!["unflag"@]
    } else {
        seq![]
    })
}

/// Words joined with ` + ` between neighbours.
pub open spec fn join_plus(parts: Seq<Seq<char>>) -> Seq<char>
    decreases parts.len(),
{
    if parts.len() == 0 {
        Seq::empty()
    } else if parts.len() == 1 {
        parts[0]
    } else {
        parts[0] + seq![' ', '+', ' '] + join_plus(parts.skip(1))
    }
}

proof fn lemma_join_plus_push(ps: Seq<Seq<char>>, p: Seq<char>)
    ensures
        join_plus(ps.push(p)) == if ps.len() == 0 {
            p
        } else {
            join_plus(ps) + seq![' ', '+', ' '] + p
        },
    decreases ps.len(),
{
    if ps.len() == 0 {
        assert(ps.push(p)[0] == p);
        assert(join_plus(ps.push(p)) == ps.push(p)[0]);
    } else if ps.len() == 1 {
        assert(ps.push(p)[0] == ps[0]);
        assert(ps.push(p).skip(1) =~= seq![p]);
        assert(join_plus(seq![p]) == p);
    } else {
        assert(ps.push(p)[0] == ps[0]);
        assert(ps.push(p).skip(1) =~= ps.skip(1).push(p));
        lemma_join_plus_push(ps.skip(1), p);
        assert(ps[0] + seq![' ', '+', ' '] + (join_plus(ps.skip(1)) + seq![' ', '+', ' '] + p)
            =~= (ps[0] + seq![' ', '+', ' '] + join_plus(ps.skip(1))) + seq![' ', '+', ' '] + p);
    }
}

/// Describe the chosen flag operations in words.
pub fn mark_action_desc(read: bool, unread: bool, flagged: bool, unflagged: bool) -> (r: String)
    ensures
        r@ == join_plus(action_desc_spec(read, unread, flagged, unflagged)),
{
    let mut out = String::new();
    let ghost mut parts: Seq<Seq<char>> = Seq::empty();
    if read {
        proof {
            reveal_strlit("mark read");
        }
        push_desc(&mut out, "mark read", Ghost(parts));
        proof {
            lemma_join_plus_push(parts, "mark read"@);
            parts = parts.push("mark read"@);
        }
    }
    if unread {
        proof {
            reveal_strlit("mark unread");
        }
        push_desc(&mut out, "mark unread", Ghost(parts));
        proof {
            lemma_join_plus_push(parts, "mark unread"@);
            parts = parts.push("mark unread"@);
        }
    }
    if flagged {
        proof {
            reveal_strlit("flag");
        }
        push_desc(&mut out, "flag", Ghost(parts));
        proof {
            lemma_join_plus_push(parts, "flag"@);
            parts = parts.push("flag"@);
        }
    }
    if unflagged {
        proof {
            reveal_strlit("unflag");
        }
        push_desc(&mut out, "unflag", Ghost(parts));
        proof {
            lemma_join_plus_push(parts, "unflag"@);
            parts = parts.push("unflag"@);
        }
    }
    proof {
        assert(parts =~= action_desc_spec(read, unread, flagged, unflagged));
    }
    out
}

/// Append one action word, separated with ` + ` when words already stand in
/// the text.
fn push_desc(out: &mut String, word: &str, Ghost(parts): Ghost<Seq<Seq<char>>>)
    requires
        old(out)@ == join_plus(parts),
        parts.len() == 0 <==> old(out)@.len() == 0,
        word@.len() > 0,
    ensures
        final(out)@ == join_plus(parts.push(word@)),
        parts.push(word@).len() == 0 <==> final(out)@.len() == 0,
{
    if !out.as_str().is_empty() {
        push_char(out, ' ');
        push_char(out, '+');
        push_char(out, ' ');
        out.append(word);
        proof {
            lemma_join_plus_push(parts, word@);
            assert(old(out)@.push(' ').push('+').push(' ') + word@ =~= old(out)@ + seq![
                ' ',
                '+',
                ' ',
            ] + word@);
        }
    } else {
        out.append(word);
        proof {
            lemma_join_plus_push(parts, word@);
            assert(old(out)@ + word@ =~= word@);
        }
    }
}

} // verus!
