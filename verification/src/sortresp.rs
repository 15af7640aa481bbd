//! Parsing of the ordered-search response: lines beginning with the sort
//! marker contribute their numeric identifiers in order, and a tagged
//! rejection line anywhere raises a protocol error distinct from
//! "unsupported".

use vstd::prelude::*;
use crate::error::Error;
use crate::num::{bdec_val, bnum_body, bparses_as_u32, parse_u32_bytes};

verus! {

/// An ASCII white-space byte, as token separation sees it.
pub open spec fn is_ws_byte(b: u8) -> bool {
    b == 9 || b == 10 || b == 11 || b == 12 || b == 13 || b == 32
}

/// A line without one trailing carriage return.
pub open spec fn strip_cr(l: Seq<u8>) -> Seq<u8> {
    if l.len() > 0 && l.last() == 13 {
        l.drop_last()
    } else {
        l
    }
}

/// The index of the first line feed, or the length when there is none.
pub open spec fn find_nl(data: Seq<u8>) -> nat
    decreases data.len(),
{
    if data.len() == 0 {
        0
    } else if data[0] == 10 {
        0
    } else {
        1 + find_nl(data.skip(1))
    }
}

proof fn lemma_find_nl(data: Seq<u8>)
    ensures
        find_nl(data) <= data.len(),
        forall|k: int| 0 <= k < find_nl(data) ==> #[trigger] data[k] != 10,
        find_nl(data) < data.len() ==> data[find_nl(data) as int] == 10,
    decreases data.len(),
{
    if data.len() > 0 && data[0] != 10 {
        lemma_find_nl(data.skip(1));
        assert forall|k: int| 0 <= k < find_nl(data) implies #[trigger] data[k] != 10 by {
            if k >= 1 {
                assert(data.skip(1)[k - 1] == data[k]);
            }
        }
        if find_nl(data) < data.len() {
            assert(data.skip(1)[find_nl(data) as int - 1] == data[find_nl(data) as int]);
        }
    }
}

pub proof fn lemma_find_nl_at(data: Seq<u8>, j: int)
    requires
        0 <= j <= data.len(),
        forall|k: int| 0 <= k < j ==> #[trigger] data[k] != 10,
        j == data.len() || data[j] == 10,
    ensures
        find_nl(data) == j,
    decreases j,
{
    if j == 0 {
        if data.len() > 0 {
            assert(data[0] == 10);
        }
    } else {
        assert(data[0] != 10);
        assert(forall|k: int| 0 <= k < data.skip(1).len() ==> data.skip(1)[k] == data[k + 1]);
        lemma_find_nl_at(data.skip(1), j - 1);
    }
}

/// The lines of a response: split at line feeds, each without a trailing
/// carriage return, with no final empty line after a trailing line feed.
pub open spec fn split_lines(data: Seq<u8>) -> Seq<Seq<u8>>
    decreases data.len(),
{
    if data.len() == 0 {
        seq![]
    } else {
        let i = find_nl(data);
        if i >= data.len() {
            seq![strip_cr(data)]
        } else {
            seq![strip_cr(data.take(i as int))] + split_lines(data.skip(i as int + 1))
        }
    }
}

/// The line holds the three bytes `BAD` somewhere.
pub open spec fn contains_bad(l: Seq<u8>) -> bool {
    exists|i: int| 0 <= i && i + 3 <= l.len() && #[trigger] l[i] == 66 && l[i + 1] == 65 && l[i + 2] == 68
}

/// The line holds the two bytes `NO` somewhere.
pub open spec fn contains_no(l: Seq<u8>) -> bool {
    exists|i: int| 0 <= i && i + 2 <= l.len() && #[trigger] l[i] == 78 && l[i + 1] == 79
}

/// A tagged rejection line: it names an error token and is not an untagged
/// (`*`-prefixed) response line.
pub open spec fn is_rejection(l: Seq<u8>) -> bool {
    (contains_bad(l) || contains_no(l)) && !(l.len() > 0 && l[0] == 42)
}

/// Some line of the response is a rejection.
pub open spec fn has_rejection(lines: Seq<Seq<u8>>) -> bool {
    exists|i: int| 0 <= i < lines.len() && is_rejection(#[trigger] lines[i])
}

/// The line begins with the sort marker `* SORT `.
pub open spec fn has_sort_prefix(l: Seq<u8>) -> bool {
    l.len() >= 7 && l[0] == 42 && l[1] == 32 && l[2] == 83 && l[3] == 79 && l[4] == 82 && l[5]
        == 84 && l[6] == 32
}

/// The identifier a finished token contributes: its value when it parses as
/// a 32-bit number, nothing otherwise.
pub open spec fn tok_val(cur: Seq<u8>) -> Seq<u32> {
    if bparses_as_u32(cur) {
        seq![bdec_val(bnum_body(cur)) as u32]
    } else {
        seq![]
    }
}

/// The identifiers of a payload: white space separates tokens, and each
/// token that parses as a number contributes its value in order.
pub open spec fn tok_uids(l: Seq<u8>, cur: Seq<u8>) -> Seq<u32>
    decreases l.len(),
{
    if l.len() == 0 {
        tok_val(cur)
    } else if is_ws_byte(l[0]) {
        tok_val(cur) + tok_uids(l.skip(1), seq![])
    } else {
        tok_uids(l.skip(1), cur.push(l[0]))
    }
}

/// The identifiers one line contributes: those after the sort marker.
pub open spec fn line_uids(l: Seq<u8>) -> Seq<u32> {
    if has_sort_prefix(l) {
        tok_uids(l.skip(7), seq![])
    } else {
        seq![]
    }
}

/// The identifiers of a whole response, line by line in order.
pub open spec fn sort_uids(lines: Seq<Seq<u8>>) -> Seq<u32>
    decreases lines.len(),
{
    if lines.len() == 0 {
        seq![]
    } else {
        sort_uids(lines.drop_last()) + line_uids(lines.last())
    }
}

/// Whether the line is a tagged rejection, executably.
fn line_is_rejection(l: &[u8]) -> (r: bool)
    ensures
        r == is_rejection(l@),
{
    let n = l.len();
    if n > 0 && l[0] == 42 {
        return false;
    }
    let mut bad = false;
    if n >= 3 {
        let mut i: usize = 0;
        while i <= n - 3 && !bad
            invariant
                n == l@.len(),
                n >= 3,
                i <= n - 2,
                bad ==> contains_bad(l@),
                !bad ==> forall|k: int|
                    0 <= k < i ==> !(#[trigger] l@[k] == 66 && l@[k + 1] == 65 && l@[k + 2] == 68),
            decreases n - i,
        {
            if l[i] == 66 && l[i + 1] == 65 && l[i + 2] == 68 {
                bad = true;
            }
            i = i + 1;
        }
    }
    if bad {
        return true;
    }
    proof {
        assert(!contains_bad(l@));
    }
    let mut no = false;
    if n >= 2 {
        let mut j: usize = 0;
        while j <= n - 2 && !no
            invariant
                n == l@.len(),
                n >= 2,
                j <= n - 1,
                no ==> contains_no(l@),
                !no ==> forall|k: int| 0 <= k < j ==> !(#[trigger] l@[k] == 78 && l@[k + 1] == 79),
            decreases n - j,
        {
            if l[j] == 78 && l[j + 1] == 79 {
                no = true;
            }
            j = j + 1;
        }
    }
    proof {
        if !no {
            assert(!contains_no(l@));
        }
    }
    no
}

/// Whether the line begins with the sort marker, executably.
fn line_has_prefix(l: &[u8]) -> (r: bool)
    ensures
        r == has_sort_prefix(l@),
{
    l.len() >= 7 && l[0] == 42 && l[1] == 32 && l[2] == 83 && l[3] == 79 && l[4] == 82 && l[5]
        == 84 && l[6] == 32
}

/// Collect the identifiers of one marked line into `uids`.
fn collect_line_uids(l: &[u8], uids: &mut Vec<u32>)
    requires
        has_sort_prefix(l@),
    ensures
        final(uids)@ == old(uids)@ + line_uids(l@),
{
    let m = l.len();
    let mut j: usize = 7;
    let mut tstart: usize = 7;
    proof {
        assert(l@.skip(7) =~= l@.subrange(7, m as int));
        assert(l@.subrange(7, 7) =~= Seq::<u8>::empty());
    }
    while j < m
        invariant
            m == l@.len(),
            m >= 7,
            7 <= tstart <= j <= m,
            old(uids)@ + line_uids(l@) == uids@ + tok_uids(
                l@.subrange(j as int, m as int),
                l@.subrange(tstart as int, j as int),
            ),
        decreases m - j,
    {
        let b = l[j];
        let ghost rest = l@.subrange(j as int, m as int);
        let ghost cur = l@.subrange(tstart as int, j as int);
        let ghost ouids = uids@;
        proof {
            assert(rest[0] == l@[j as int]);
            assert(rest.skip(1) =~= l@.subrange(j + 1, m as int));
        }
        if b == 9 || b == 10 || b == 11 || b == 12 || b == 13 || b == 32 {
            match parse_u32_bytes(slice_range(l, tstart, j)) {
                Some(v) => {
                    uids.push(v);
                    proof {
                        assert(uids@ =~= ouids + tok_val(cur));
                    }
                },
                None => {
                    proof {
                        assert(uids@ =~= ouids + tok_val(cur));
                    }
                },
            }
            tstart = j + 1;
            proof {
                assert(l@.subrange(j + 1, j + 1) =~= Seq::<u8>::empty());
                assert(tok_uids(rest, cur) == tok_val(cur) + tok_uids(rest.skip(1), Seq::empty()));
                assert(ouids + (tok_val(cur) + tok_uids(rest.skip(1), Seq::empty())) =~= (ouids
                    + tok_val(cur)) + tok_uids(rest.skip(1), Seq::empty()));
            }
        } else {
            proof {
                assert(l@.subrange(tstart as int, j + 1) =~= cur.push(l@[j as int]));
                assert(tok_uids(rest, cur) == tok_uids(rest.skip(1), cur.push(l@[j as int])));
            }
        }
        j = j + 1;
    }
    let ghost cur = l@.subrange(tstart as int, m as int);
    let ghost ouids = uids@;
    proof {
        assert(l@.subrange(m as int, m as int) =~= Seq::<u8>::empty());
        assert(tok_uids(Seq::<u8>::empty(), cur) == tok_val(cur));
    }
    match parse_u32_bytes(slice_range(l, tstart, m)) {
        Some(v) => {
            uids.push(v);
            proof {
                assert(uids@ =~= ouids + tok_val(cur));
            }
        },
        None => {
            proof {
                assert(uids@ =~= ouids + tok_val(cur));
            }
        },
    }
}

/// A subslice by index range.
fn slice_range<'a>(l: &'a [u8], a: usize, b: usize) -> (r: &'a [u8])
    requires
        a <= b <= l@.len(),
    ensures
        r@ == l@.subrange(a as int, b as int),
{
    &l[a..b]
}

/// Parse an ordered-search response: the identifiers of every marked line,
/// in server order, unless some tagged line rejects the command, in which
/// case the first such line is reported as a protocol error.
pub fn parse_sort_response(data: &[u8]) -> (r: Result<Vec<u32>, Error>)
    ensures
        r is Ok <==> !has_rejection(split_lines(data@)),
        r is Ok ==> r->Ok_0@ == sort_uids(split_lines(data@)),
        r is Err ==> (r->Err_0 matches Error::SortRejected(x) && exists|i: int|
            {
                &&& 0 <= i < split_lines(data@).len()
                &&& is_rejection(#[trigger] split_lines(data@)[i])
                &&& x@ == split_lines(data@)[i]
                &&& forall|k: int| 0 <= k < i ==> !is_rejection(#[trigger] split_lines(data@)[k])
            }),
{
    let n = data.len();
    let mut uids: Vec<u32> = Vec::new();
    let mut p: usize = 0;
    let ghost mut done: Seq<Seq<u8>> = Seq::empty();
    proof {
        assert(data@.skip(0) =~= data@);
        assert(split_lines(data@) =~= done + split_lines(data@.skip(0)));
    }
    while p < n
        invariant
            p <= n,
            n == data@.len(),
            split_lines(data@) == done + split_lines(data@.skip(p as int)),
            done.len() <= split_lines(data@).len(),
            forall|k: int| 0 <= k < done.len() ==> !is_rejection(#[trigger] done[k]),
            forall|k: int|
                0 <= k < done.len() ==> #[trigger] done[k] == split_lines(data@)[k],
            uids@ == sort_uids(done),
        decreases n - p,
    {
        let ghost rest = data@.skip(p as int);
        let mut q: usize = p;
        while q < n && data[q] != 10
            invariant
                p <= q <= n,
                n == data@.len(),
                forall|k: int| p <= k < q ==> #[trigger] data@[k] != 10,
            decreases n - q,
        {
            q = q + 1;
        }
        proof {
            assert(forall|k: int| 0 <= k < rest.len() ==> rest[k] == data@[k + p]);
            lemma_find_nl_at(rest, q - p);
        }
        let mut e = q;
        if e > p && data[e - 1] == 13 {
            e = e - 1;
        }
        let line = slice_range(data, p, e);
        proof {
            assert(rest.take(q - p) =~= data@.subrange(p as int, q as int));
            if q < n {
                assert(strip_cr(rest.take(q - p)) =~= line@);
            } else {
                assert(rest.take(q - p) =~= rest);
                assert(strip_cr(rest) =~= line@);
            }
        }
        if line_is_rejection(line) {
            let owned = vstd::slice::slice_to_vec(line);
            proof {
                let idx = done.len() as int;
                assert(split_lines(rest)[0] == line@);
                assert(split_lines(data@)[idx] == line@);
            }
            return Err(Error::SortRejected(owned));
        }
        let ghost odone = done;
        let ghost ouids = uids@;
        if line_has_prefix(line) {
            collect_line_uids(line, &mut uids);
        }
        proof {
            done = done.push(line@);
            assert(done.drop_last() =~= odone);
            assert(done.last() == line@);
            assert(sort_uids(done) == sort_uids(odone) + line_uids(line@));
            if !has_sort_prefix(line@) {
                assert(uids@ =~= sort_uids(done));
            }
            if q < n {
                assert(split_lines(rest) == seq![line@] + split_lines(rest.skip(q - p + 1)));
                assert(rest.skip(q - p + 1) =~= data@.skip(q + 1));
                assert(odone + split_lines(rest) =~= done + split_lines(data@.skip(q + 1)));
            } else {
                assert(split_lines(rest) == seq![line@]);
                assert(data@.skip(n as int) =~= Seq::<u8>::empty());
                assert(odone + split_lines(rest) =~= done + split_lines(data@.skip(n as int)));
            }
        }
        if q < n {
            p = q + 1;
        } else {
            p = n;
        }
    }
    proof {
        assert(data@.skip(n as int) =~= Seq::<u8>::empty());
        assert(split_lines(data@) =~= done);
    }
    Ok(uids)
}

} // verus!
