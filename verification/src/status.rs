//! Parsing of the two read-only status responses: per-quota-root resource
//! usage, and per-mailbox message counts. Both look for an untagged line
//! carrying the expected keyword and read the attribute list between its
//! parentheses.

use vstd::prelude::*;
use crate::num::{all_digit_bytes, bdec_val, bnum_body, bparses_as_u32, digits_u64_or_zero,
    parse_u32_bytes};
use crate::rows::lossy_text_of;
use crate::sortresp::{is_ws_byte, split_lines};

verus! {

/// The index of the first occurrence of `b`, or the length when absent.
pub open spec fn find_byte(l: Seq<u8>, b: u8) -> nat
    decreases l.len(),
{
    if l.len() == 0 {
        0
    } else if l[0] == b {
        0
    } else {
        1 + find_byte(l.skip(1), b)
    }
}

proof fn lemma_find_byte_at(l: Seq<u8>, b: u8, j: int)
    requires
        0 <= j <= l.len(),
        forall|k: int| 0 <= k < j ==> #[trigger] l[k] != b,
        j == l.len() || l[j] == b,
    ensures
        find_byte(l, b) == j,
    decreases j,
{
    if j == 0 {
    } else {
        assert(l[0] != b);
        assert(forall|k: int| 0 <= k < l.skip(1).len() ==> l.skip(1)[k] == l[k + 1]);
        lemma_find_byte_at(l.skip(1), b, j - 1);
    }
}

/// `l` without its leading white space.
pub open spec fn skip_ws_bytes(l: Seq<u8>) -> Seq<u8>
    decreases l.len(),
{
    if l.len() > 0 && is_ws_byte(l[0]) {
        skip_ws_bytes(l.skip(1))
    } else {
        l
    }
}

/// The ASCII uppercase of one byte.
pub open spec fn upper_byte(b: u8) -> u8 {
    if 97 <= b <= 122 {
        (b - 32) as u8
    } else {
        b
    }
}

/// A word byte: a letter, a digit, or an underscore.
pub open spec fn is_word_byte(b: u8) -> bool {
    (48 <= b <= 57) || (65 <= b <= 90) || (97 <= b <= 122) || b == 95
}

/// Every byte of `s` is a word byte.
pub open spec fn all_word_bytes(s: Seq<u8>) -> bool {
    forall|i: int| 0 <= i < s.len() ==> is_word_byte(#[trigger] s[i])
}

/// `s` spells the keyword `kw`, case-insensitively in ASCII.
pub open spec fn spells(s: Seq<u8>, kw: Seq<u8>) -> bool {
    s.len() == kw.len() && forall|i: int| 0 <= i < s.len() ==> upper_byte(#[trigger] s[i]) == kw[i]
}

/// The attribute text of an untagged line carrying the given keyword: after
/// leading white space a `*`, more white space, the keyword followed by
/// white space, and later a parenthesized span, whose content this names.
pub open spec fn marker_inner(l: Seq<u8>, kw: Seq<u8>) -> Option<Seq<u8>> {
    let t = skip_ws_bytes(l);
    if t.len() > 0 && t[0] == 42 {
        let u = skip_ws_bytes(t.skip(1));
        if u.len() > kw.len() && spells(u.take(kw.len() as int), kw) && is_ws_byte(
            u[kw.len() as int],
        ) {
            let i = find_byte(u, 40);
            if i < u.len() {
                let rest = u.skip(i as int + 1);
                let j = find_byte(rest, 41);
                if j < rest.len() {
                    Some(rest.take(j as int))
                } else {
                    None
                }
            } else {
                None
            }
        } else {
            None
        }
    } else {
        None
    }
}

/// The white-space-separated tokens of a span.
pub open spec fn btokens(l: Seq<u8>, cur: Seq<u8>) -> Seq<Seq<u8>>
    decreases l.len(),
{
    if l.len() == 0 {
        if cur.len() == 0 {
            seq![]
        } else {
            seq![cur]
        }
    } else if is_ws_byte(l[0]) {
        (if cur.len() == 0 {
            seq![]
        } else {
            seq![cur]
        }) + btokens(l.skip(1), seq![])
    } else {
        btokens(l.skip(1), cur.push(l[0]))
    }
}

/// The value of a digit token, or zero when it does not fit in 64 bits.
pub open spec fn or_zero_u64(s: Seq<u8>) -> int {
    if bdec_val(s) <= u64::MAX {
        bdec_val(s)
    } else {
        0
    }
}

/// The first word-number-number triple among the tokens: a resource name
/// with its used and limit figures.
pub open spec fn first_triple(ts: Seq<Seq<u8>>) -> Option<(Seq<u8>, int, int)>
    decreases ts.len(),
{
    if ts.len() < 3 {
        None
    } else if ts[0].len() > 0 && all_word_bytes(ts[0]) && ts[1].len() > 0 && all_digit_bytes(
        ts[1],
    ) && ts[2].len() > 0 && all_digit_bytes(ts[2]) {
        Some((ts[0], or_zero_u64(ts[1]), or_zero_u64(ts[2])))
    } else {
        first_triple(ts.skip(1))
    }
}

/// The resource row one line contributes, if it is a quota line with a
/// non-empty attribute span holding a resource triple.
pub open spec fn quota_entry(l: Seq<u8>) -> Option<(Seq<u8>, int, int)> {
    match marker_inner(l, seq![81u8, 85u8, 79u8, 84u8, 65u8]) {
        Some(inner) => if inner.len() > 0 {
            first_triple(btokens(inner, seq![]))
        } else {
            Option::None
        },
        None => Option::None,
    }
}

/// The resource rows of a whole quota response, line by line.
pub open spec fn quota_rows(lines: Seq<Seq<u8>>) -> Seq<(Seq<u8>, int, int)>
    decreases lines.len(),
{
    if lines.len() == 0 {
        seq![]
    } else {
        quota_rows(lines.drop_last()) + (match quota_entry(lines.last()) {
            Some(row) => seq![row],
            None => seq![],
        })
    }
}

/// The attribute span of the first mailbox-status line, if any.
pub open spec fn first_status_inner(lines: Seq<Seq<u8>>) -> Option<Seq<u8>>
    decreases lines.len(),
{
    if lines.len() == 0 {
        Option::None
    } else {
        match marker_inner(lines[0], seq![83u8, 84u8, 65u8, 84u8, 85u8, 83u8]) {
            Some(inner) => Some(inner),
            None => first_status_inner(lines.skip(1)),
        }
    }
}

/// The value of a count token, through the standard 32-bit parse, zero when
/// it does not parse.
pub open spec fn count_of(s: Seq<u8>) -> int {
    if bparses_as_u32(s) {
        bdec_val(bnum_body(s))
    } else {
        0
    }
}

/// Fold attribute tokens pairwise into (messages, unseen, recent) counts:
/// each recognized key takes its following value, later pairs winning.
pub open spec fn pair_counts(ts: Seq<Seq<u8>>, m: int, u: int, r: int) -> (int, int, int)
    decreases ts.len(),
{
    if ts.len() < 2 {
        (m, u, r)
    } else {
        let v = count_of(ts[1]);
        if spells(ts[0], seq![77u8, 69u8, 83u8, 83u8, 65u8, 71u8, 69u8, 83u8]) {
            pair_counts(ts.skip(2), v, u, r)
        } else if spells(ts[0], seq![85u8, 78u8, 83u8, 69u8, 69u8, 78u8]) {
            pair_counts(ts.skip(2), m, v, r)
        } else if spells(ts[0], seq![82u8, 69u8, 67u8, 69u8, 78u8, 84u8]) {
            pair_counts(ts.skip(2), m, u, v)
        } else {
            pair_counts(ts.skip(2), m, u, r)
        }
    }
}

/// The counts a whole status response reports.
pub open spec fn status_counts(lines: Seq<Seq<u8>>) -> (int, int, int) {
    match first_status_inner(lines) {
        Some(inner) => pair_counts(btokens(inner, seq![]), 0, 0, 0),
        None => (0, 0, 0),
    }
}

/// A subslice by index range.
fn sub_slice<'a>(l: &'a [u8], a: usize, b: usize) -> (r: &'a [u8])
    requires
        a <= b <= l@.len(),
    ensures
        r@ == l@.subrange(a as int, b as int),
{
    &l[a..b]
}

/// The index where leading white space ends.
fn skip_ws_exec(l: &[u8]) -> (i: usize)
    ensures
        i <= l@.len(),
        skip_ws_bytes(l@) == l@.skip(i as int),
{
    let n = l.len();
    let mut i: usize = 0;
    proof {
        assert(l@.skip(0) =~= l@);
    }
    while i < n && (l[i] == 9 || l[i] == 10 || l[i] == 11 || l[i] == 12 || l[i] == 13 || l[i]
        == 32)
        invariant
            i <= n,
            n == l@.len(),
            skip_ws_bytes(l@) == skip_ws_bytes(l@.skip(i as int)),
        decreases n - i,
    {
        proof {
            assert(l@.skip(i as int)[0] == l@[i as int]);
            assert(l@.skip(i as int).skip(1) =~= l@.skip(i + 1));
        }
        i = i + 1;
    }
    proof {
        if i < n {
            assert(l@.skip(i as int)[0] == l@[i as int]);
        }
    }
    i
}

/// Find the first occurrence of a byte, as an index.
fn find_byte_exec(l: &[u8], b: u8) -> (i: usize)
    ensures
        i == find_byte(l@, b),
        i <= l@.len(),
        i < l@.len() ==> l@[i as int] == b,
{
    let n = l.len();
    let mut i: usize = 0;
    while i < n && l[i] != b
        invariant
            i <= n,
            n == l@.len(),
            forall|k: int| 0 <= k < i ==> #[trigger] l@[k] != b,
        decreases n - i,
    {
        i = i + 1;
    }
    proof {
        lemma_find_byte_at(l@, b, i as int);
    }
    i
}

/// Read the attribute span of an untagged line with the given keyword.
fn marker_inner_exec<'a>(l: &'a [u8], kw: &[u8]) -> (r: Option<&'a [u8]>)
    ensures
        r is Some <==> marker_inner(l@, kw@) is Some,
        r is Some ==> r->0@ == marker_inner(l@, kw@)->0,
{
    let a = skip_ws_exec(l);
    let t = sub_slice(l, a, l.len());
    proof {
        assert(t@ =~= l@.skip(a as int));
        assert(t@ == skip_ws_bytes(l@));
    }
    if t.len() == 0 || t[0] != 42 {
        return None;
    }
    let b = skip_ws_exec(sub_slice(t, 1, t.len()));
    let u = sub_slice(t, 1 + b, t.len());
    proof {
        assert(t@.subrange(1, t@.len() as int) =~= t@.skip(1));
        assert(t@.skip(1).skip(b as int) =~= t@.subrange(1 + b as int, t@.len() as int));
        assert(u@ == skip_ws_bytes(t@.skip(1)));
    }
    let kn = kw.len();
    if u.len() <= kn {
        return None;
    }
    let mut k: usize = 0;
    while k < kn
        invariant
            k <= kn,
            kn == kw@.len(),
            kn < u@.len(),
            t@ == skip_ws_bytes(l@),
            t@.len() > 0,
            t@[0] == 42,
            u@ == skip_ws_bytes(t@.skip(1)),
            forall|p: int| 0 <= p < k ==> upper_byte(#[trigger] u@[p]) == kw@[p],
        decreases kn - k,
    {
        let c = u[k];
        let up: u8 = if 97 <= c && c <= 122 {
            c - 32
        } else {
            c
        };
        if up != kw[k] {
            proof {
                assert(u@.take(kw@.len() as int)[k as int] == u@[k as int]);
                assert(!spells(u@.take(kw@.len() as int), kw@));
            }
            return None;
        }
        k = k + 1;
    }
    proof {
        assert(forall|p: int|
            0 <= p < kw@.len() ==> #[trigger] u@.take(kw@.len() as int)[p] == u@[p]);
        assert(spells(u@.take(kw@.len() as int), kw@));
    }
    let sep = u[kn];
    if !(sep == 9 || sep == 10 || sep == 11 || sep == 12 || sep == 13 || sep == 32) {
        return None;
    }
    let i = find_byte_exec(u, 40);
    if i >= u.len() {
        return None;
    }
    let rest = sub_slice(u, i + 1, u.len());
    proof {
        assert(rest@ =~= u@.skip(i as int + 1));
    }
    let j = find_byte_exec(rest, 41);
    if j >= rest.len() {
        return None;
    }
    let inner = sub_slice(rest, 0, j);
    proof {
        assert(inner@ =~= rest@.take(j as int));
    }
    Some(inner)
}

/// Split a span into its white-space-separated tokens.
fn tokenize(l: &[u8]) -> (ts: Vec<Vec<u8>>)
    ensures
        ts@.map_values(|t: Vec<u8>| t@) == btokens(l@, seq![]),
{
    let n = l.len();
    let mut ts: Vec<Vec<u8>> = Vec::new();
    let mut j: usize = 0;
    let mut tstart: usize = 0;
    proof {
        assert(l@.skip(0) =~= l@);
        assert(l@.subrange(0, 0) =~= Seq::<u8>::empty());
        assert(ts@.map_values(|t: Vec<u8>| t@) =~= Seq::<Seq<u8>>::empty());
    }
    while j < n
        invariant
            tstart <= j <= n,
            n == l@.len(),
            btokens(l@, seq![]) == ts@.map_values(|t: Vec<u8>| t@) + btokens(
                l@.skip(j as int),
                l@.subrange(tstart as int, j as int),
            ),
        decreases n - j,
    {
        let b = l[j];
        let ghost rest = l@.skip(j as int);
        let ghost cur = l@.subrange(tstart as int, j as int);
        let ghost om = ts@.map_values(|t: Vec<u8>| t@);
        proof {
            assert(rest[0] == l@[j as int]);
            assert(rest.skip(1) =~= l@.skip(j + 1));
        }
        if b == 9 || b == 10 || b == 11 || b == 12 || b == 13 || b == 32 {
            if tstart < j {
                let tok = vstd::slice::slice_to_vec(sub_slice(l, tstart, j));
                ts.push(tok);
                proof {
                    assert(ts@.map_values(|t: Vec<u8>| t@) =~= om.push(cur));
                    assert(om.push(cur) + btokens(l@.skip(j + 1), Seq::empty()) =~= om + (seq![cur]
                        + btokens(l@.skip(j + 1), Seq::empty())));
                    assert(btokens(rest, cur) == seq![cur] + btokens(rest.skip(1), Seq::empty()));
                }
            } else {
                proof {
                    assert(cur =~= Seq::<u8>::empty());
                    assert(btokens(rest, cur) == btokens(rest.skip(1), Seq::empty()));
                    assert(om + btokens(l@.skip(j + 1), Seq::empty()) =~= ts@.map_values(
                        |t: Vec<u8>| t@,
                    ) + btokens(l@.skip(j + 1), Seq::empty()));
                }
            }
            tstart = j + 1;
            proof {
                assert(l@.subrange(j + 1, j + 1) =~= Seq::<u8>::empty());
            }
        } else {
            proof {
                assert(l@.subrange(tstart as int, j + 1) =~= cur.push(l@[j as int]));
                assert(btokens(rest, cur) == btokens(rest.skip(1), cur.push(l@[j as int])));
            }
        }
        j = j + 1;
    }
    let ghost cur = l@.subrange(tstart as int, n as int);
    let ghost om = ts@.map_values(|t: Vec<u8>| t@);
    proof {
        assert(l@.skip(n as int) =~= Seq::<u8>::empty());
    }
    if tstart < n {
        let tok = vstd::slice::slice_to_vec(sub_slice(l, tstart, n));
        ts.push(tok);
        proof {
            assert(cur.len() > 0);
            assert(btokens(Seq::<u8>::empty(), cur) == seq![cur]);
            assert(ts@.map_values(|t: Vec<u8>| t@) =~= om.push(cur));
            assert(om.push(cur) =~= om + seq![cur]);
        }
    } else {
        proof {
            assert(cur =~= Seq::<u8>::empty());
            assert(btokens(Seq::<u8>::empty(), cur) =~= Seq::<Seq<u8>>::empty());
            assert(om + Seq::<Seq<u8>>::empty() =~= om);
        }
    }
    ts
}

/// Whether every byte of a token is a word byte, and the token non-empty.
fn is_word_token(t: &[u8]) -> (r: bool)
    ensures
        r == (t@.len() > 0 && all_word_bytes(t@)),
{
    let n = t.len();
    if n == 0 {
        return false;
    }
    let mut i: usize = 0;
    while i < n
        invariant
            i <= n,
            n == t@.len(),
            forall|k: int| 0 <= k < i ==> is_word_byte(#[trigger] t@[k]),
        decreases n - i,
    {
        let b = t[i];
        if !((48 <= b && b <= 57) || (65 <= b && b <= 90) || (97 <= b && b <= 122) || b == 95) {
            proof {
                assert(!is_word_byte(t@[i as int]));
            }
            return false;
        }
        i = i + 1;
    }
    true
}

/// Whether every byte of a token is a digit, and the token non-empty.
fn is_digit_token(t: &[u8]) -> (r: bool)
    ensures
        r == (t@.len() > 0 && all_digit_bytes(t@)),
{
    let n = t.len();
    if n == 0 {
        return false;
    }
    let mut i: usize = 0;
    while i < n
        invariant
            i <= n,
            n == t@.len(),
            forall|k: int| 0 <= k < i ==> crate::num::is_digit_byte(#[trigger] t@[k]),
        decreases n - i,
    {
        let b = t[i];
        if !(48 <= b && b <= 57) {
            proof {
                assert(!crate::num::is_digit_byte(t@[i as int]));
            }
            return false;
        }
        i = i + 1;
    }
    true
}

/// Read per-quota-root resource rows out of a quota response: one row per
/// untagged quota line whose attribute span holds a resource triple.
pub fn parse_quota_response(data: &[u8]) -> (r: Vec<(String, u64, u64)>)
    ensures
        r@.map_values(|t: (String, u64, u64)| (t.0@, t.1 as int, t.2 as int)) == quota_rows(
            split_lines(data@),
        ).map_values(|q: (Seq<u8>, int, int)| (lossy_text_of(q.0), q.1, q.2)),
{
    let n = data.len();
    let kw: [u8; 5] = [81, 85, 79, 84, 65];
    let mut out: Vec<(String, u64, u64)> = Vec::new();
    let mut p: usize = 0;
    let ghost mut done: Seq<Seq<u8>> = Seq::empty();
    proof {
        assert(data@.skip(0) =~= data@);
        assert(split_lines(data@) =~= done + split_lines(data@.skip(0)));
        assert(out@.map_values(|t: (String, u64, u64)| (t.0@, t.1 as int, t.2 as int)) =~= quota_rows(
            done,
        ).map_values(|q: (Seq<u8>, int, int)| (lossy_text_of(q.0), q.1, q.2)));
    }
    while p < n
        invariant
            p <= n,
            n == data@.len(),
            kw@ == seq![81u8, 85u8, 79u8, 84u8, 65u8],
            split_lines(data@) == done + split_lines(data@.skip(p as int)),
            out@.map_values(|t: (String, u64, u64)| (t.0@, t.1 as int, t.2 as int)) == quota_rows(
                done,
            ).map_values(|q: (Seq<u8>, int, int)| (lossy_text_of(q.0), q.1, q.2)),
        decreases n - p,
    {
        let ghost rest = data@.skip(p as int);
        let mut q: usize = p;
        while q < n && data[q] != 10
            invariant
                p <= q <= n,
                n == data@.len(),
                forall|k: int| p <= k < q ==> #[trigger] data@[k] != 10,
            decreases n - q,
        {
            q = q + 1;
        }
        proof {
            assert(forall|k: int| 0 <= k < rest.len() ==> rest[k] == data@[k + p]);
            crate::sortresp::lemma_find_nl_at(rest, q - p);
        }
        let mut e = q;
        if e > p && data[e - 1] == 13 {
            e = e - 1;
        }
        let line = sub_slice(data, p, e);
        proof {
            assert(rest.take(q - p) =~= data@.subrange(p as int, q as int));
            if q < n {
                assert(crate::sortresp::strip_cr(rest.take(q - p)) =~= line@);
            } else {
                assert(rest.take(q - p) =~= rest);
                assert(crate::sortresp::strip_cr(rest) =~= line@);
            }
        }
        let ghost oout = out@;
        match marker_inner_exec(line, kw.as_slice()) {
            Some(inner) => {
                if inner.len() > 0 {
                    let ts = tokenize(inner);
                    let ghost gts = ts@.map_values(|t: Vec<u8>| t@);
                    let m = ts.len();
                    let mut found: usize = m;
                    proof {
                        assert(gts.skip(0) =~= gts);
                    }
                    if m >= 3 {
                        let mut idx: usize = 0;
                        while idx <= m - 3
                            invariant
                                m >= 3,
                                idx <= m - 2,
                                m == ts@.len(),
                                gts == ts@.map_values(|t: Vec<u8>| t@),
                                found == m || found < m,
                                found == m ==> first_triple(gts) == first_triple(
                                    gts.skip(idx as int),
                                ),
                                found < m ==> found + 2 < m && first_triple(gts) == Some(
                                    (gts[found as int], or_zero_u64(gts[found as int + 1]),
                                    or_zero_u64(gts[found as int + 2])),
                                ) && gts[found as int + 1].len() > 0 && all_digit_bytes(
                                    gts[found as int + 1],
                                ) && gts[found as int + 2].len() > 0 && all_digit_bytes(
                                    gts[found as int + 2],
                                ),
                            decreases m - idx,
                        {
                            let ghost grest = gts.skip(idx as int);
                            proof {
                                if found == m {
                                    assert(grest[0] == gts[idx as int]);
                                    assert(grest[1] == gts[idx + 1]);
                                    assert(grest[2] == gts[idx + 2]);
                                    assert(grest.skip(1) =~= gts.skip(idx + 1));
                                }
                            }
                            if found == m && is_word_token(ts[idx].as_slice()) && is_digit_token(
                                ts[idx + 1].as_slice(),
                            ) && is_digit_token(ts[idx + 2].as_slice()) {
                                found = idx;
                            }
                            idx = idx + 1;
                        }
                        proof {
                            if found == m {
                                assert(gts.skip(idx as int).len() < 3);
                                assert(first_triple(gts.skip(idx as int)) is None);
                            }
                        }
                    }
                    let mut pushed = false;
                    if found < m {
                        let name = crate::rows::bytes_to_text(ts[found].as_slice());
                        let used = digits_u64_or_zero(ts[found + 1].as_slice());
                        let lim = digits_u64_or_zero(ts[found + 2].as_slice());
                        out.push((name, used, lim));
                        pushed = true;
                        proof {
                            assert(out@.map_values(
                                |t: (String, u64, u64)| (t.0@, t.1 as int, t.2 as int),
                            ) =~= oout.map_values(
                                |t: (String, u64, u64)| (t.0@, t.1 as int, t.2 as int),
                            ).push((lossy_text_of(gts[found as int]), or_zero_u64(
                                gts[found as int + 1],
                            ), or_zero_u64(gts[found as int + 2]))));
                            assert(oout.map_values(
                                |t: (String, u64, u64)| (t.0@, t.1 as int, t.2 as int),
                            ).push(
                                (lossy_text_of(gts[found as int]), or_zero_u64(
                                    gts[found as int + 1],
                                ), or_zero_u64(gts[found as int + 2])),
                            ) =~= oout.map_values(
                                |t: (String, u64, u64)| (t.0@, t.1 as int, t.2 as int),
                            ) + seq![
                                (lossy_text_of(gts[found as int]), or_zero_u64(
                                    gts[found as int + 1],
                                ), or_zero_u64(gts[found as int + 2])),
                            ]);
                        }
                    }
                    proof {
                        if !pushed {
                            assert(first_triple(gts) is None);
                        }
                        assert(marker_inner(line@, kw@) == Some(inner@));
                        assert(quota_entry(line@) == first_triple(btokens(inner@, seq![])));
                        assert(btokens(inner@, seq![]) == gts);
                    }
                } else {
                    proof {
                        assert(marker_inner(line@, kw@) == Some(inner@));
                        assert(quota_entry(line@) is None);
                    }
                }
            },
            None => {
                proof {
                    assert(marker_inner(line@, kw@) is None);
                    assert(quota_entry(line@) is None);
                }
            },
        }
        proof {
            let ghost odone = done;
            done = done.push(line@);
            assert(done.drop_last() =~= odone);
            assert(done.last() == line@);
            assert(quota_rows(done) == quota_rows(odone) + (match quota_entry(line@) {
                Some(row) => seq![row],
                None => seq![],
            }));
            if quota_entry(line@) is None {
                assert(out@ == oout);
                assert(quota_rows(done) =~= quota_rows(odone));
            } else {
                assert(quota_rows(done).map_values(
                    |qq: (Seq<u8>, int, int)| (lossy_text_of(qq.0), qq.1, qq.2),
                ) =~= quota_rows(odone).map_values(
                    |qq: (Seq<u8>, int, int)| (lossy_text_of(qq.0), qq.1, qq.2),
                ) + (match quota_entry(line@) {
                    Some(row) => seq![(lossy_text_of(row.0), row.1, row.2)],
                    None => seq![],
                }));
            }
            if q < n {
                assert(split_lines(rest) == seq![line@] + split_lines(rest.skip(q - p + 1)));
                assert(rest.skip(q - p + 1) =~= data@.skip(q + 1));
                assert(odone + split_lines(rest) =~= done + split_lines(data@.skip(q + 1)));
            } else {
                assert(split_lines(rest) == seq![line@]);
                assert(data@.skip(n as int) =~= Seq::<u8>::empty());
                assert(odone + split_lines(rest) =~= done + split_lines(data@.skip(n as int)));
            }
        }
        if q < n {
            p = q + 1;
        } else {
            p = n;
        }
    }
    proof {
        assert(data@.skip(n as int) =~= Seq::<u8>::empty());
        assert(split_lines(data@) =~= done);
    }
    out
}

/// Read the (messages, unseen, recent) counts out of a mailbox-status
/// response: the first untagged status line's attribute pairs decide, and
/// an absent or unreadable attribute counts as zero.
pub fn parse_status_counts(data: &[u8]) -> (r: (u32, u32, u32))
    ensures
        (r.0 as int, r.1 as int, r.2 as int) == status_counts(split_lines(data@)),
{
    let n = data.len();
    let kw: [u8; 6] = [83, 84, 65, 84, 85, 83];
    let mut p: usize = 0;
    let ghost mut done: Seq<Seq<u8>> = Seq::empty();
    proof {
        assert(data@.skip(0) =~= data@);
        assert(split_lines(data@) =~= done + split_lines(data@.skip(0)));
    }
    while p < n
        invariant
            p <= n,
            n == data@.len(),
            kw@ == seq![83u8, 84u8, 65u8, 84u8, 85u8, 83u8],
            split_lines(data@) == done + split_lines(data@.skip(p as int)),
            first_status_inner(done) is None,
        decreases n - p,
    {
        let ghost rest = data@.skip(p as int);
        let mut q: usize = p;
        while q < n && data[q] != 10
            invariant
                p <= q <= n,
                n == data@.len(),
                forall|k: int| p <= k < q ==> #[trigger] data@[k] != 10,
            decreases n - q,
        {
            q = q + 1;
        }
        proof {
            assert(forall|k: int| 0 <= k < rest.len() ==> rest[k] == data@[k + p]);
            crate::sortresp::lemma_find_nl_at(rest, q - p);
        }
        let mut e = q;
        if e > p && data[e - 1] == 13 {
            e = e - 1;
        }
        let line = sub_slice(data, p, e);
        proof {
            assert(rest.take(q - p) =~= data@.subrange(p as int, q as int));
            if q < n {
                assert(crate::sortresp::strip_cr(rest.take(q - p)) =~= line@);
            } else {
                assert(rest.take(q - p) =~= rest);
                assert(crate::sortresp::strip_cr(rest) =~= line@);
            }
        }
        match marker_inner_exec(line, kw.as_slice()) {
            Some(inner) => {
                let counts = fold_pairs(inner);
                proof {
                    assert(marker_inner(line@, kw@) == Some(inner@));
                    let tail = if q < n {
                        split_lines(data@.skip(q + 1))
                    } else {
                        Seq::<Seq<u8>>::empty()
                    };
                    if q < n {
                        assert(split_lines(rest) == seq![line@] + split_lines(
                            rest.skip(q - p + 1),
                        ));
                        assert(rest.skip(q - p + 1) =~= data@.skip(q + 1));
                    } else {
                        assert(split_lines(rest) == seq![line@]);
                        assert(seq![line@] =~= seq![line@] + tail);
                    }
                    assert(split_lines(rest) =~= seq![line@] + tail);
                    lemma_first_status_found(done, line@, tail, inner@);
                    assert(split_lines(data@) =~= done + (seq![line@] + tail));
                }
                return counts;
            },
            None => {
                proof {
                    let ghost odone = done;
                    done = done.push(line@);
                    assert(done.drop_last() =~= odone);
                    assert(done.last() == line@);
                    assert(marker_inner(line@, kw@) is None);
                    lemma_first_status_push(odone, line@);
                    if q < n {
                        assert(split_lines(rest) == seq![line@] + split_lines(
                            rest.skip(q - p + 1),
                        ));
                        assert(rest.skip(q - p + 1) =~= data@.skip(q + 1));
                        assert(odone + split_lines(rest) =~= done + split_lines(data@.skip(q + 1)));
                    } else {
                        assert(split_lines(rest) == seq![line@]);
                        assert(data@.skip(n as int) =~= Seq::<u8>::empty());
                        assert(odone + split_lines(rest) =~= done + split_lines(
                            data@.skip(n as int),
                        ));
                    }
                }
            },
        }
        if q < n {
            p = q + 1;
        } else {
            p = n;
        }
    }
    proof {
        assert(data@.skip(n as int) =~= Seq::<u8>::empty());
        assert(split_lines(data@) =~= done);
    }
    (0, 0, 0)
}

/// A status line found after unmatched lines is the first status line of
/// the whole response.
proof fn lemma_first_status_found(done: Seq<Seq<u8>>, line: Seq<u8>, tail: Seq<Seq<u8>>, inner: Seq<
    u8,
>)
    requires
        first_status_inner(done) is None,
        marker_inner(line, seq![83u8, 84u8, 65u8, 84u8, 85u8, 83u8]) == Some(inner),
    ensures
        first_status_inner(done + (seq![line] + tail)) == Some(inner),
    decreases done.len(),
{
    let all = done + (seq![line] + tail);
    if done.len() == 0 {
        assert(all[0] == line);
        assert(first_status_inner(all) == Some(inner));
    } else {
        assert(all[0] == done[0]);
        assert(marker_inner(done[0], seq![83u8, 84u8, 65u8, 84u8, 85u8, 83u8]) is None) by {
            assert(first_status_inner(done) is None);
        }
        assert(first_status_inner(done) == first_status_inner(done.skip(1)));
        lemma_first_status_found(done.skip(1), line, tail, inner);
        assert(all.skip(1) =~= done.skip(1) + (seq![line] + tail));
        assert(first_status_inner(all) == first_status_inner(all.skip(1)));
    }
}

/// Lines without a status marker keep the first-status search empty.
proof fn lemma_first_status_push(done: Seq<Seq<u8>>, line: Seq<u8>)
    requires
        first_status_inner(done) is None,
        marker_inner(line, seq![83u8, 84u8, 65u8, 84u8, 85u8, 83u8]) is None,
    ensures
        first_status_inner(done.push(line)) is None,
    decreases done.len(),
{
    if done.len() == 0 {
        assert(done.push(line)[0] == line);
        assert(done.push(line).skip(1) =~= Seq::<Seq<u8>>::empty());
        assert(first_status_inner(Seq::<Seq<u8>>::empty()) is None);
        assert(first_status_inner(done.push(line)) == first_status_inner(
            done.push(line).skip(1),
        ));
    } else {
        assert(done.push(line)[0] == done[0]);
        assert(done.push(line).skip(1) =~= done.skip(1).push(line));
        assert(first_status_inner(done) == first_status_inner(done.skip(1)));
        lemma_first_status_push(done.skip(1), line);
        assert(first_status_inner(done.push(line)) == first_status_inner(
            done.push(line).skip(1),
        ));
    }
}

/// Fold the attribute tokens of a status span into counts.
fn fold_pairs(inner: &[u8]) -> (r: (u32, u32, u32))
    ensures
        (r.0 as int, r.1 as int, r.2 as int) == pair_counts(btokens(inner@, seq![]), 0, 0, 0),
{
    let ts = tokenize(inner);
    let ghost gts = ts@.map_values(|t: Vec<u8>| t@);
    let n = ts.len();
    let mut m: u32 = 0;
    let mut u: u32 = 0;
    let mut rec: u32 = 0;
    let mut i: usize = 0;
    proof {
        assert(gts.skip(0) =~= gts);
    }
    while n >= 2 && i <= n - 2
        invariant
            i <= n,
            n == ts@.len(),
            gts == ts@.map_values(|t: Vec<u8>| t@),
            pair_counts(gts, 0, 0, 0) == pair_counts(
                gts.skip(i as int),
                m as int,
                u as int,
                rec as int,
            ),
        decreases n - i,
    {
        let ghost grest = gts.skip(i as int);
        proof {
            assert(grest[0] == gts[i as int]);
            assert(grest[1] == gts[i + 1]);
            assert(grest.skip(2) =~= gts.skip(i + 2));
        }
        let v: u32 = match parse_u32_bytes(ts[i + 1].as_slice()) {
            Some(x) => x,
            None => 0,
        };
        if spells_exec(ts[i].as_slice(), &[77, 69, 83, 83, 65, 71, 69, 83]) {
            m = v;
        } else if spells_exec(ts[i].as_slice(), &[85, 78, 83, 69, 69, 78]) {
            u = v;
        } else if spells_exec(ts[i].as_slice(), &[82, 69, 67, 69, 78, 84]) {
            rec = v;
        }
        i = i + 2;
    }
    proof {
        assert(gts.skip(i as int).len() < 2);
        assert(pair_counts(gts.skip(i as int), m as int, u as int, rec as int) == (
            m as int,
            u as int,
            rec as int,
        ));
    }
    (m, u, rec)
}

/// Whether a token spells a keyword, case-insensitively in ASCII.
fn spells_exec(t: &[u8], kw: &[u8]) -> (r: bool)
    ensures
        r == spells(t@, kw@),
{
    let n = t.len();
    if n != kw.len() {
        return false;
    }
    let mut i: usize = 0;
    while i < n
        invariant
            i <= n,
            n == t@.len(),
            n == kw@.len(),
            forall|k: int| 0 <= k < i ==> upper_byte(#[trigger] t@[k]) == kw@[k],
        decreases n - i,
    {
        let c = t[i];
        let up: u8 = if 97 <= c && c <= 122 {
            c - 32
        } else {
            c
        };
        if up != kw[i] {
            return false;
        }
        i = i + 1;
    }
    true
}

} // verus!
