//! The query compiler: structured search criteria become one protocol search
//! string. String filters are sanitized and quoted; date and size filters are
//! compiled through their own grammars; clauses are joined with single spaces
//! in a fixed order, and an absence of filters compiles to the universal
//! match-everything query.

use vstd::prelude::*;
use crate::date::{current_epoch_secs, date_compiles, date_error, date_text, parse_date_at};
use crate::error::Error;
use crate::num::{dec_seq, dec_val, num_body, parses_as_u64, u64_to_string};
use crate::size::{parse_size, size_mult, size_raw, trim_spec};
use crate::text::{imap_quote, push_char, quote_spec};

verus! {

/// What a search asks for: the mailbox to search (or all of them), optional
/// substring, date, and size filters, and an optional result-count limit.
pub struct SearchCriteria {
    /// The mailbox to search; a default label when every mailbox is searched.
    pub folder: String,
    /// Whether to search every mailbox that survives the denylist.
    pub all_folders: bool,
    /// Subject contains this text.
    pub subject: Option<String>,
    /// The sender address contains this text.
    pub from: Option<String>,
    /// A recipient address contains this text.
    pub to: Option<String>,
    /// A copied recipient address contains this text.
    pub cc: Option<String>,
    /// Only messages on or after this date.
    pub since: Option<String>,
    /// Only messages before this date.
    pub before: Option<String>,
    /// Only messages larger than this size.
    pub larger: Option<String>,
    /// At most this many result rows.
    pub limit: Option<usize>,
}

/// Whether a size token compiles.
pub open spec fn size_compiles(s: Seq<char>) -> bool {
    &&& trim_spec(s).len() > 0
    &&& parses_as_u64(size_raw(trim_spec(s)), u64::MAX as int)
    &&& dec_val(num_body(size_raw(trim_spec(s)))) * size_mult(trim_spec(s)) <= u64::MAX
}

/// The byte count a size token compiles to.
pub open spec fn size_value(s: Seq<char>) -> int {
    dec_val(num_body(size_raw(trim_spec(s)))) * size_mult(trim_spec(s))
}

/// The validation error a size token earns when it does not compile.
pub open spec fn size_error(s: Seq<char>, e: Error) -> bool {
    if trim_spec(s).len() == 0 || !parses_as_u64(size_raw(trim_spec(s)), u64::MAX as int) {
        e matches Error::BadSize(x) && x@ == trim_spec(s)
    } else {
        e matches Error::SizeOverflow(x) && x@ == trim_spec(s)
    }
}

/// The clause a quoted string filter contributes, if present.
pub open spec fn quoted_clause(tag: Seq<char>, v: Option<String>) -> Seq<Seq<char>> {
    match v {
        Option::Some(x) => seq![tag + quote_spec(x@)],
        Option::None => seq![],
    }
}

/// The clause a date filter contributes, if present.
pub open spec fn date_clause(tag: Seq<char>, v: Option<String>, now: int) -> Seq<Seq<char>> {
    match v {
        Option::Some(x) => seq![tag + date_text(x@, now)],
        Option::None => seq![],
    }
}

/// The clauses of a query, in their fixed order: subject, sender, recipient,
/// copy recipient, since, before, size.
pub open spec fn query_clauses(c: SearchCriteria, now: int) -> Seq<Seq<char>> {
    quoted_clause("SUBJECT "@, c.subject) + quoted_clause("FROM "@, c.from) + quoted_clause(
        "TO "@,
        c.to,
    ) + quoted_clause("CC "@, c.cc) + date_clause("SINCE "@, c.since, now) + date_clause(
        "BEFORE "@,
        c.before,
        now,
    ) + (match c.larger {
        Option::Some(x) => seq!["LARGER "@ + dec_seq(size_value(x@) as nat)],
        Option::None => seq![],
    })
}

/// Whether every filter of the criteria compiles.
pub open spec fn query_compiles(c: SearchCriteria, now: int) -> bool {
    &&& (c.since matches Some(x) ==> date_compiles(x@, now))
    &&& (c.before matches Some(x) ==> date_compiles(x@, now))
    &&& (c.larger matches Some(x) ==> size_compiles(x@))
}

/// The error a failing query earns: the first failing filter speaks, in
/// clause order.
pub open spec fn query_error(c: SearchCriteria, now: int, e: Error) -> bool {
    if c.since matches Some(x) && !date_compiles(x@, now) {
        date_error(c.since->0@, now, e)
    } else if c.before matches Some(x) && !date_compiles(x@, now) {
        date_error(c.before->0@, now, e)
    } else {
        c.larger matches Some(x) && size_error(x@, e)
    }
}

/// Clauses joined with a single space between neighbours.
pub open spec fn join_clauses(parts: Seq<Seq<char>>) -> Seq<char>
    decreases parts.len(),
{
    if parts.len() == 0 {
        Seq::empty()
    } else if parts.len() == 1 {
        parts[0]
    } else {
        parts[0] + seq![' '] + join_clauses(parts.skip(1))
    }
}

proof fn lemma_join_push(ps: Seq<Seq<char>>, p: Seq<char>)
    ensures
        join_clauses(ps.push(p)) == if ps.len() == 0 {
            p
        } else {
            join_clauses(ps) + seq![' '] + p
        },
    decreases ps.len(),
{
    if ps.len() == 0 {
        assert(ps.push(p)[0] == p);
        assert(join_clauses(ps.push(p)) == p);
    } else if ps.len() == 1 {
        assert(ps.push(p)[0] == ps[0]);
        assert(ps.push(p).skip(1) =~= seq![p]);
        assert(join_clauses(seq![p]) == p);
    } else {
        assert(ps.push(p)[0] == ps[0]);
        assert(ps.push(p).skip(1) =~= ps.skip(1).push(p));
        lemma_join_push(ps.skip(1), p);
        assert(ps[0] + seq![' '] + (join_clauses(ps.skip(1)) + seq![' '] + p) =~= (ps[0] + seq![' ']
            + join_clauses(ps.skip(1))) + seq![' '] + p);
    }
}

/// What query compilation returns for the criteria `c` at the moment `now`:
/// the joined clauses, the universal query when no filter is present, or the
/// first filter's validation error.
pub open spec fn query_outcome(c: SearchCriteria, now: int, r: Result<String, Error>) -> bool {
    if query_compiles(c, now) {
        let parts = query_clauses(c, now);
        r is Ok && r->Ok_0@ == (if parts.len() == 0 {
            "ALL"@
        } else {
            join_clauses(parts)
        })
    } else {
        r is Err && query_error(c, now, r->Err_0)
    }
}

/// An absence of every filter compiles to the universal query.
pub proof fn lemma_empty_criteria_query(c: SearchCriteria, now: int, r: Result<String, Error>)
    requires
        c.subject is None,
        c.from is None,
        c.to is None,
        c.cc is None,
        c.since is None,
        c.before is None,
        c.larger is None,
        query_outcome(c, now, r),
    ensures
        r is Ok,
        r->Ok_0@ == "ALL"@,
{
    assert(query_clauses(c, now).len() == 0);
}

/// Append a clause to the query text, with a separating space when the text
/// already holds one.
fn push_clause(out: &mut String, clause: &str)
    ensures
        final(out)@ == if old(out)@.len() == 0 {
            clause@
        } else {
            old(out)@ + seq![' '] + clause@
        },
{
    if !out.as_str().is_empty() {
        push_char(out, ' ');
        out.append(clause);
        proof {
            assert(old(out)@.push(' ') + clause@ =~= old(out)@ + seq![' '] + clause@);
        }
    } else {
        out.append(clause);
        proof {
            assert(old(out)@ + clause@ =~= clause@);
        }
    }
}

/// Append one clause and record it in the ghost clause list.
fn add_part(out: &mut String, cl: &String, Ghost(parts): Ghost<Seq<Seq<char>>>) -> (res: Ghost<
    Seq<Seq<char>>,
>)
    requires
        old(out)@ == join_clauses(parts),
        parts.len() == 0 <==> old(out)@.len() == 0,
        cl@.len() > 0,
    ensures
        res@ == parts.push(cl@),
        final(out)@ == join_clauses(res@),
        res@.len() == 0 <==> final(out)@.len() == 0,
{
    push_clause(out, cl.as_str());
    proof {
        lemma_join_push(parts, cl@);
    }
    Ghost(parts.push(cl@))
}

/// Append the clause of one quoted string filter, if the filter is present.
fn add_quoted(out: &mut String, tag: &str, v: &Option<String>, Ghost(parts): Ghost<
    Seq<Seq<char>>,
>) -> (res: Ghost<Seq<Seq<char>>>)
    requires
        old(out)@ == join_clauses(parts),
        parts.len() == 0 <==> old(out)@.len() == 0,
    ensures
        res@ == parts + quoted_clause(tag@, *v),
        final(out)@ == join_clauses(res@),
        res@.len() == 0 <==> final(out)@.len() == 0,
{
    match v {
        Some(x) => {
            let q = imap_quote(x.as_str());
            let mut cl = tag.to_owned();
            cl.append(q.as_str());
            let res = add_part(out, &cl, Ghost(parts));
            proof {
                assert(parts.push(cl@) =~= parts + quoted_clause(tag@, *v));
            }
            res
        },
        None => {
            proof {
                assert(parts + quoted_clause(tag@, *v) =~= parts);
            }
            Ghost(parts)
        },
    }
}

/// Compile search criteria into one protocol query string, or fail with the
/// first filter's validation error.
#[verifier::rlimit(60)]
pub fn build_query(c: &SearchCriteria) -> (r: Result<String, Error>)
    ensures
        exists|t: int| 0 <= t && #[trigger] query_outcome(*c, t, r),
{
    let now = current_epoch_secs();
    let ghost gnow = now as int;
    let mut out = String::new();
    let ghost mut gparts: Seq<Seq<char>> = Seq::empty();
    let Ghost(g1) = add_quoted(&mut out, "SUBJECT ", &c.subject, Ghost(gparts));
    let Ghost(g2) = add_quoted(&mut out, "FROM ", &c.from, Ghost(g1));
    let Ghost(g3) = add_quoted(&mut out, "TO ", &c.to, Ghost(g2));
    let Ghost(g4) = add_quoted(&mut out, "CC ", &c.cc, Ghost(g3));
    proof {
        gparts = g4;
    }
    if let Some(since) = &c.since {
        let date = match parse_date_at(since.as_str(), now) {
            Ok(d) => d,
            Err(e) => {
                proof {
                    assert(query_outcome(*c, gnow, Result::<String, Error>::Err(e)));
                }
                return Err(e);
            },
        };
        let mut cl = String::from_str("SINCE ");
        proof {
            reveal_strlit("SINCE ");
        }
        cl.append(date.as_str());
        let Ghost(g5) = add_part(&mut out, &cl, Ghost(gparts));
        proof {
            gparts = g5;
        }
    }
    if let Some(before) = &c.before {
        let date = match parse_date_at(before.as_str(), now) {
            Ok(d) => d,
            Err(e) => {
                proof {
                    assert(query_outcome(*c, gnow, Result::<String, Error>::Err(e)));
                }
                return Err(e);
            },
        };
        let mut cl = String::from_str("BEFORE ");
        proof {
            reveal_strlit("BEFORE ");
        }
        cl.append(date.as_str());
        let Ghost(g6) = add_part(&mut out, &cl, Ghost(gparts));
        proof {
            gparts = g6;
        }
    }
    if let Some(larger) = &c.larger {
        let bytes = match parse_size(larger.as_str()) {
            Ok(b) => b,
            Err(e) => {
                proof {
                    assert(query_outcome(*c, gnow, Result::<String, Error>::Err(e)));
                }
                return Err(e);
            },
        };
        let digits = u64_to_string(bytes);
        let mut cl = String::from_str("LARGER ");
        proof {
            reveal_strlit("LARGER ");
        }
        cl.append(digits.as_str());
        let Ghost(g7) = add_part(&mut out, &cl, Ghost(gparts));
        proof {
            gparts = g7;
        }
    }
    proof {
        assert(gparts =~= query_clauses(*c, gnow));
    }
    if out.as_str().is_empty() {
        let all = String::from_str("ALL");
        proof {
            assert(query_clauses(*c, gnow).len() == 0);
            assert(query_outcome(*c, gnow, Result::<String, Error>::Ok(all)));
        }
        Ok(all)
    } else {
        proof {
            assert(query_outcome(*c, gnow, Result::<String, Error>::Ok(out)));
        }
        Ok(out)
    }
}

} // verus!
