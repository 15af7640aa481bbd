//! Result rows: one per matched message, built from a fetched detail
//! record. Header fields are taken from structured header parsing, with a
//! line-oriented scan as fallback; sender and subject are truncated to
//! their display widths; the timestamp comes from the date header and is
//! zero when the date cannot be parsed; the displayed date loses a trailing
//! UTC-offset suffix.

use vstd::prelude::*;
use vstd::multiset::Multiset;
use crate::sortresp::{split_lines, strip_cr};
use crate::text::{lower_of, lowercase, str_eq, truncate_spec, truncate_str};

verus! {

/// One row of a search result.
pub struct MessageRow {
    /// The message identifier, unique within its mailbox.
    pub uid: u32,
    /// The owning mailbox, named only in cross-mailbox results.
    pub folder: Option<String>,
    /// The sender, truncated for display.
    pub from: String,
    /// The subject, truncated for display.
    pub subject: String,
    /// The date header text, without a trailing UTC-offset suffix.
    pub date: String,
    /// Seconds since the epoch from the date header; zero when unparsable.
    pub timestamp: i64,
    /// The message size in bytes.
    pub size: u32,
}

impl Clone for MessageRow {
    /// An exact copy of the row.
    fn clone(&self) -> (r: Self)
        ensures
            r == *self,
    {
        MessageRow {
            uid: self.uid,
            folder: match &self.folder {
                Some(f) => Some(f.clone()),
                None => None,
            },
            from: self.from.clone(),
            subject: self.subject.clone(),
            date: self.date.clone(),
            timestamp: self.timestamp,
            size: self.size,
        }
    }
}

/// One fetched detail record, as the caller hands it in: the reported
/// identifier, the reported size, and the raw header bytes.
pub struct FetchRecord {
    /// The identifier the server reported, if any.
    pub uid: Option<u32>,
    /// The reported size in bytes, if any.
    pub size: Option<u32>,
    /// The raw bytes of the requested header fields.
    pub header: Vec<u8>,
}

/// What structured header parsing yields for given bytes: the (name, value)
/// pairs in order, or nothing where the bytes do not parse; a function of
/// the bytes alone.
pub uninterp spec fn parsed_headers_of(b: Seq<u8>) -> Option<Seq<(Seq<char>, Seq<char>)>>;

/// Relies on `mailparse::parse_headers` for structured header parsing, and
/// on `MailHeader::get_key` and `get_value` to read each header out as
/// plain text.
#[verifier::external_body]
fn parse_header_pairs(b: &[u8]) -> (r: Option<Vec<(String, String)>>)
    ensures
        r is Some <==> parsed_headers_of(b@) is Some,
        r is Some ==> r->0@.map_values(|p: (String, String)| (p.0@, p.1@)) == parsed_headers_of(
            b@,
        )->0,
{
    match mailparse::parse_headers(b) {
        Ok((headers, _)) => Some(
            headers.iter().map(|h| (h.get_key(), h.get_value())).collect(),
        ),
        Err(_) => None,
    }
}

/// What the date header parses to: seconds since the epoch as
/// `mailparse::dateparse` computes them, zero where the text does not
/// parse; a function of the text alone.
pub uninterp spec fn date_header_secs(s: Seq<char>) -> int;

/// Relies on `mailparse::dateparse` for date-header parsing; an unparsable
/// date is answered with zero.
#[verifier::external_body]
fn parse_date_header(s: &str) -> (r: i64)
    ensures
        r == date_header_secs(s@),
{
    mailparse::dateparse(s).unwrap_or(0)
}

/// What lossy text decoding yields for given bytes: valid sequences decode
/// as themselves and invalid ones become replacement characters; a function
/// of the bytes alone.
pub uninterp spec fn lossy_text_of(b: Seq<u8>) -> Seq<char>;

/// Relies on `String::from_utf8_lossy` to turn header bytes into display
/// text.
#[verifier::external_body]
pub(crate) fn bytes_to_text(b: &[u8]) -> (r: String)
    ensures
        r@ == lossy_text_of(b@),
{
    String::from_utf8_lossy(b).into_owned()
}

/// The value of the last header pair whose lowercased name equals `key`,
/// or empty text when none matches.
pub open spec fn last_value(pairs: Seq<(Seq<char>, Seq<char>)>, key: Seq<char>) -> Seq<char>
    decreases pairs.len(),
{
    if pairs.len() == 0 {
        Seq::empty()
    } else if lower_of(pairs.last().0) == key {
        pairs.last().1
    } else {
        last_value(pairs.drop_last(), key)
    }
}

/// The line begins with `Subject: `.
pub open spec fn subject_prefix(l: Seq<u8>) -> bool {
    l.len() >= 9 && l[0] == 83 && l[1] == 117 && l[2] == 98 && l[3] == 106 && l[4] == 101 && l[5]
        == 99 && l[6] == 116 && l[7] == 58 && l[8] == 32
}

/// The line begins with `From: `.
pub open spec fn from_prefix(l: Seq<u8>) -> bool {
    l.len() >= 6 && l[0] == 70 && l[1] == 114 && l[2] == 111 && l[3] == 109 && l[4] == 58 && l[5]
        == 32
}

/// The line begins with `Date: `.
pub open spec fn date_prefix(l: Seq<u8>) -> bool {
    l.len() >= 6 && l[0] == 68 && l[1] == 97 && l[2] == 116 && l[3] == 101 && l[4] == 58 && l[5]
        == 32
}

/// The fields the line-oriented fallback scan finds in the given lines:
/// for each recognized prefix, the value on the last line carrying it.
pub open spec fn fb_fields(lines: Seq<Seq<u8>>) -> (Seq<u8>, Seq<u8>, Seq<u8>)
    decreases lines.len(),
{
    if lines.len() == 0 {
        (Seq::empty(), Seq::empty(), Seq::empty())
    } else {
        let prev = fb_fields(lines.drop_last());
        let l = lines.last();
        (
            if subject_prefix(l) {
                l.skip(9)
            } else {
                prev.0
            },
            if from_prefix(l) {
                l.skip(6)
            } else {
                prev.1
            },
            if date_prefix(l) {
                l.skip(6)
            } else {
                prev.2
            },
        )
    }
}

/// The (subject, sender, date) texts of a header block: from structured
/// parsing when it succeeds, from the line-oriented scan of the lossily
/// decoded bytes otherwise.
pub open spec fn header_fields_spec(b: Seq<u8>) -> (Seq<char>, Seq<char>, Seq<char>) {
    match parsed_headers_of(b) {
        Some(pairs) => (
            last_value(pairs, "subject"@),
            last_value(pairs, "from"@),
            last_value(pairs, "date"@),
        ),
        None => {
            let f = fb_fields(split_lines(b));
            (lossy_text_of(f.0), lossy_text_of(f.1), lossy_text_of(f.2))
        },
    }
}

/// Read the (subject, sender, date) texts out of a header block.
fn extract_fields(header: &[u8]) -> (r: (String, String, String))
    ensures
        (r.0@, r.1@, r.2@) == header_fields_spec(header@),
{
    match parse_header_pairs(header) {
        Some(pairs) => {
            let ghost gpairs = pairs@.map_values(|p: (String, String)| (p.0@, p.1@));
            let mut subject = String::new();
            let mut from = String::new();
            let mut date = String::new();
            let n = pairs.len();
            let mut i: usize = 0;
            proof {
                reveal_strlit("subject");
                reveal_strlit("from");
                reveal_strlit("date");
                assert(gpairs.subrange(0, 0) =~= Seq::<(Seq<char>, Seq<char>)>::empty());
            }
            while i < n
                invariant
                    i <= n,
                    n == pairs@.len(),
                    gpairs == pairs@.map_values(|p: (String, String)| (p.0@, p.1@)),
                    subject@ == last_value(gpairs.subrange(0, i as int), "subject"@),
                    from@ == last_value(gpairs.subrange(0, i as int), "from"@),
                    date@ == last_value(gpairs.subrange(0, i as int), "date"@),
                decreases n - i,
            {
                let ghost pre = gpairs.subrange(0, i as int);
                let ghost cur = gpairs.subrange(0, i + 1);
                proof {
                    reveal_strlit("subject");
                    reveal_strlit("from");
                    reveal_strlit("date");
                    assert(cur.drop_last() =~= pre);
                    assert(cur.last() == gpairs[i as int]);
                    assert(gpairs[i as int] == (pairs@[i as int].0@, pairs@[i as int].1@));
                }
                let key = lowercase(pairs[i].0.as_str());
                if str_eq(key.as_str(), "subject") {
                    subject = pairs[i].1.clone();
                } else if str_eq(key.as_str(), "from") {
                    from = pairs[i].1.clone();
                } else if str_eq(key.as_str(), "date") {
                    date = pairs[i].1.clone();
                }
                proof {
                    reveal_strlit("subject");
                    reveal_strlit("from");
                    reveal_strlit("date");
                    assert("subject"@.len() == 7);
                    assert("from"@.len() == 4);
                    assert("date"@.len() == 4);
                    assert("from"@[0] == 'f' && "date"@[0] == 'd');
                    assert(cur.last().0 == gpairs[i as int].0);
                    assert(cur.last().1 == gpairs[i as int].1);
                    let lk = lower_of(gpairs[i as int].0);
                    if lk == "subject"@ {
                        assert(last_value(cur, "subject"@) == cur.last().1);
                        assert(last_value(cur, "from"@) == last_value(pre, "from"@));
                        assert(last_value(cur, "date"@) == last_value(pre, "date"@));
                    } else if lk == "from"@ {
                        assert(last_value(cur, "subject"@) == last_value(pre, "subject"@));
                        assert(last_value(cur, "from"@) == cur.last().1);
                        assert(last_value(cur, "date"@) == last_value(pre, "date"@));
                    } else if lk == "date"@ {
                        assert(last_value(cur, "subject"@) == last_value(pre, "subject"@));
                        assert(last_value(cur, "from"@) == last_value(pre, "from"@));
                        assert(last_value(cur, "date"@) == cur.last().1);
                    } else {
                        assert(last_value(cur, "subject"@) == last_value(pre, "subject"@));
                        assert(last_value(cur, "from"@) == last_value(pre, "from"@));
                        assert(last_value(cur, "date"@) == last_value(pre, "date"@));
                    }
                    assert(subject@ == last_value(cur, "subject"@));
                    assert(from@ == last_value(cur, "from"@));
                    assert(date@ == last_value(cur, "date"@));
                }
                i = i + 1;
            }
            proof {
                assert(gpairs.subrange(0, n as int) =~= gpairs);
            }
            (subject, from, date)
        },
        None => {
            let f = fb_scan(header);
            (bytes_to_text(f.0.as_slice()), bytes_to_text(f.1.as_slice()), bytes_to_text(
                f.2.as_slice(),
            ))
        },
    }
}

/// The line-oriented fallback scan over raw header bytes.
fn fb_scan(data: &[u8]) -> (r: (Vec<u8>, Vec<u8>, Vec<u8>))
    ensures
        (r.0@, r.1@, r.2@) == fb_fields(split_lines(data@)),
{
    let n = data.len();
    let mut subject: Vec<u8> = Vec::new();
    let mut from: Vec<u8> = Vec::new();
    let mut date: Vec<u8> = Vec::new();
    let mut p: usize = 0;
    let ghost mut done: Seq<Seq<u8>> = Seq::empty();
    proof {
        assert(data@.skip(0) =~= data@);
        assert(split_lines(data@) =~= done + split_lines(data@.skip(0)));
    }
    while p < n
        invariant
            p <= n,
            n == data@.len(),
            split_lines(data@) == done + split_lines(data@.skip(p as int)),
            (subject@, from@, date@) == fb_fields(done),
        decreases n - p,
    {
        let ghost rest = data@.skip(p as int);
        let mut q: usize = p;
        while q < n && data[q] != 10
            invariant
                p <= q <= n,
                n == data@.len(),
                forall|k: int| p <= k < q ==> #[trigger] data@[k] != 10,
            decreases n - q,
        {
            q = q + 1;
        }
        proof {
            assert(forall|k: int| 0 <= k < rest.len() ==> rest[k] == data@[k + p]);
            crate::sortresp::lemma_find_nl_at(rest, q - p);
        }
        let mut e = q;
        if e > p && data[e - 1] == 13 {
            e = e - 1;
        }
        let line = line_slice(data, p, e);
        proof {
            assert(rest.take(q - p) =~= data@.subrange(p as int, q as int));
            if q < n {
                assert(strip_cr(rest.take(q - p)) =~= line@);
            } else {
                assert(rest.take(q - p) =~= rest);
                assert(strip_cr(rest) =~= line@);
            }
        }
        let m = line.len();
        if m >= 9 && line[0] == 83 && line[1] == 117 && line[2] == 98 && line[3] == 106 && line[4]
            == 101 && line[5] == 99 && line[6] == 116 && line[7] == 58 && line[8] == 32 {
            subject = tail_vec(line, 9);
        } else if m >= 6 && line[0] == 70 && line[1] == 114 && line[2] == 111 && line[3] == 109
            && line[4] == 58 && line[5] == 32 {
            from = tail_vec(line, 6);
        } else if m >= 6 && line[0] == 68 && line[1] == 97 && line[2] == 116 && line[3] == 101
            && line[4] == 58 && line[5] == 32 {
            date = tail_vec(line, 6);
        }
        proof {
            let ghost odone = done;
            done = done.push(line@);
            assert(done.drop_last() =~= odone);
            assert(done.last() == line@);
            if q < n {
                assert(split_lines(rest) == seq![line@] + split_lines(rest.skip(q - p + 1)));
                assert(rest.skip(q - p + 1) =~= data@.skip(q + 1));
                assert(odone + split_lines(rest) =~= done + split_lines(data@.skip(q + 1)));
            } else {
                assert(split_lines(rest) == seq![line@]);
                assert(data@.skip(n as int) =~= Seq::<u8>::empty());
                assert(odone + split_lines(rest) =~= done + split_lines(data@.skip(n as int)));
            }
        }
        if q < n {
            p = q + 1;
        } else {
            p = n;
        }
    }
    proof {
        assert(data@.skip(n as int) =~= Seq::<u8>::empty());
        assert(split_lines(data@) =~= done);
    }
    (subject, from, date)
}

/// A subslice by index range.
fn line_slice<'a>(l: &'a [u8], a: usize, b: usize) -> (r: &'a [u8])
    requires
        a <= b <= l@.len(),
    ensures
        r@ == l@.subrange(a as int, b as int),
{
    &l[a..b]
}

/// The bytes of a line after a prefix of the given length, as an owned
/// vector.
fn tail_vec(l: &[u8], from: usize) -> (r: Vec<u8>)
    requires
        from <= l@.len(),
    ensures
        r@ == l@.skip(from as int),
{
    let s = line_slice(l, from, l.len());
    let r = vstd::slice::slice_to_vec(s);
    proof {
        assert(r@ =~= l@.skip(from as int));
    }
    r
}

/// The index of the first ` ` followed by the given sign character, or the
/// text length when there is none.
pub open spec fn find_sign(s: Seq<char>, sign: char) -> nat
    decreases s.len(),
{
    if s.len() < 2 {
        s.len()
    } else if s[0] == ' ' && s[1] == sign {
        0
    } else {
        1 + find_sign(s.skip(1), sign)
    }
}

/// The displayed date: the header text cut before a trailing UTC-offset
/// suffix, which begins at the first ` +`, or failing that the first ` -`.
pub open spec fn strip_tz(s: Seq<char>) -> Seq<char> {
    if find_sign(s, '+') < s.len() {
        s.take(find_sign(s, '+') as int)
    } else if find_sign(s, '-') < s.len() {
        s.take(find_sign(s, '-') as int)
    } else {
        s
    }
}

proof fn lemma_find_sign_at(s: Seq<char>, sign: char, j: int)
    requires
        0 <= j <= s.len(),
        forall|k: int| 0 <= k < j && k + 2 <= s.len() ==> !(#[trigger] s[k] == ' ' && s[k + 1] == sign),
        j + 2 <= s.len() ==> (s[j] == ' ' && s[j + 1] == sign),
        j + 2 > s.len() ==> j == s.len(),
    ensures
        find_sign(s, sign) == j,
    decreases j,
{
    if s.len() < 2 {
    } else if j == 0 {
    } else {
        assert(!(s[0] == ' ' && s[1] == sign));
        assert(forall|k: int| 0 <= k < s.skip(1).len() ==> s.skip(1)[k] == s[k + 1]);
        lemma_find_sign_at(s.skip(1), sign, j - 1);
    }
}

/// Find the first two-character ` ` + sign occurrence, executably.
fn find_sign_exec(s: &str, sign: char) -> (r: usize)
    ensures
        r == find_sign(s@, sign),
{
    let n = s.unicode_len();
    if n < 2 {
        proof {
            lemma_find_sign_at(s@, sign, n as int);
        }
        return n;
    }
    let mut i: usize = 0;
    while i <= n - 2
        invariant
            n == s@.len(),
            n >= 2,
            i <= n - 1,
            forall|k: int|
                0 <= k < i && k + 2 <= n ==> !(#[trigger] s@[k] == ' ' && s@[k + 1] == sign),
        decreases n - i,
    {
        if s.get_char(i) == ' ' && s.get_char(i + 1) == sign {
            proof {
                lemma_find_sign_at(s@, sign, i as int);
            }
            return i;
        }
        i = i + 1;
    }
    proof {
        lemma_find_sign_at(s@, sign, n as int);
    }
    n
}

/// Cut a date display before its trailing UTC-offset suffix.
fn strip_tz_str(s: &str) -> (r: String)
    ensures
        r@ == strip_tz(s@),
{
    let n = s.unicode_len();
    let p = find_sign_exec(s, '+');
    if p < n {
        return s.substring_char(0, p).to_owned();
    }
    let m = find_sign_exec(s, '-');
    if m < n {
        return s.substring_char(0, m).to_owned();
    }
    s.to_owned()
}

/// The row a fetched record with these parts builds: identifier and label
/// as given, sender and subject truncated to 40 and 60 display characters,
/// the timestamp from the full date header, the displayed date cut before
/// its UTC-offset suffix, and an absent size read as zero.
pub open spec fn row_of_record(
    r: MessageRow,
    uid: u32,
    size: Option<u32>,
    header: Seq<u8>,
    folder: Option<String>,
) -> bool {
    &&& r.uid == uid
    &&& r.folder == folder
    &&& r.from@ == truncate_spec(header_fields_spec(header).1, 40)
    &&& r.subject@ == truncate_spec(header_fields_spec(header).0, 60)
    &&& r.timestamp == date_header_secs(header_fields_spec(header).2)
    &&& r.date@ == strip_tz(header_fields_spec(header).2)
    &&& r.size == (match size {
        Some(v) => v,
        None => 0,
    })
}

/// Build one result row from a fetched detail record: header fields are
/// extracted, sender and subject truncated to 40 and 60 display characters,
/// the timestamp taken from the full date header, and the displayed date
/// cut before its UTC-offset suffix.
pub fn make_row(uid: u32, size: Option<u32>, header: &[u8], folder: Option<String>) -> (r:
    MessageRow)
    ensures
        row_of_record(r, uid, size, header@, folder),
{
    let fields = extract_fields(header);
    let from = truncate_str(fields.1.as_str(), 40);
    let subject = truncate_str(fields.0.as_str(), 60);
    let timestamp = parse_date_header(fields.2.as_str());
    let date = strip_tz_str(fields.2.as_str());
    MessageRow {
        uid,
        folder,
        from,
        subject,
        date,
        timestamp,
        size: match size {
            Some(v) => v,
            None => 0,
        },
    }
}

/// Rows ordered by descending timestamp.
pub open spec fn sorted_desc(s: Seq<MessageRow>) -> bool {
    forall|i: int, j: int| 0 <= i < j < s.len() ==> s[i].timestamp >= s[j].timestamp
}

/// Sort rows by descending timestamp, keeping exactly the given rows.
pub fn sort_rows_desc(rows: Vec<MessageRow>) -> (r: Vec<MessageRow>)
    ensures
        r@.to_multiset() == rows@.to_multiset(),
        sorted_desc(r@),
{
    broadcast use vstd::seq_lib::group_to_multiset_ensures;
    broadcast use vstd::multiset::group_multiset_axioms;

    let ghost orig = rows@;
    let mut src = rows;
    let mut out: Vec<MessageRow> = Vec::new();
    proof {
        assert(out@.to_multiset().add(src@.to_multiset()) =~= orig.to_multiset());
    }
    while src.len() > 0
        invariant
            out@.to_multiset().add(src@.to_multiset()) == orig.to_multiset(),
            sorted_desc(out@),
            forall|a: int, b: int|
                0 <= a < out@.len() && 0 <= b < src@.len() ==> out@[a].timestamp
                    >= src@[b].timestamp,
        decreases src@.len(),
    {
        let mut mi: usize = 0;
        let mut j: usize = 1;
        while j < src.len()
            invariant
                src@.len() > 0,
                mi < j <= src@.len() || (j <= src@.len() && mi == 0),
                mi < src@.len(),
                forall|k: int| 0 <= k < j ==> src@[mi as int].timestamp >= #[trigger] src@[k].timestamp,
            decreases src@.len() - j,
        {
            if src[j].timestamp > src[mi].timestamp {
                mi = j;
            }
            j = j + 1;
        }
        let ghost osrc = src@;
        let ghost oout = out@;
        let x = src.remove(mi);
        out.push(x);
        proof {
            vstd::seq_lib::to_multiset_remove::<MessageRow>(osrc, mi as int);
            vstd::seq_lib::to_multiset_build::<MessageRow>(oout, x);
            assert(osrc.remove(mi as int).to_multiset() =~= osrc.to_multiset().remove(x));
            assert(out@.to_multiset() =~= oout.to_multiset().insert(x));
            assert(osrc.contains(x));
            vstd::seq_lib::to_multiset_contains::<MessageRow>(osrc, x);
            assert(osrc.to_multiset().count(x) > 0);
            assert(out@.to_multiset().add(src@.to_multiset()) =~= orig.to_multiset());
            assert forall|b: int| 0 <= b < src@.len() implies x.timestamp >= src@[b].timestamp by {
                if b < mi {
                    assert(src@[b] == osrc[b]);
                } else {
                    assert(src@[b] == osrc[b + 1]);
                }
            }
        }
    }
    proof {
        assert(src@.to_multiset() =~= Multiset::<MessageRow>::empty());
        assert(out@.to_multiset().add(Multiset::<MessageRow>::empty()) =~= out@.to_multiset());
    }
    out
}

/// Sort rows by descending timestamp and keep at most `limit` of them, from
/// the top.
pub fn merge_and_limit(rows: Vec<MessageRow>, limit: Option<usize>) -> (r: Vec<MessageRow>)
    ensures
        exists|s: Seq<MessageRow>|
            {
                &&& #[trigger] s.to_multiset() == rows@.to_multiset()
                &&& sorted_desc(s)
                &&& r@ == (match limit {
                    Some(n) => s.take(if n <= s.len() {
                        n as int
                    } else {
                        s.len() as int
                    }),
                    None => s,
                })
            },
        sorted_desc(r@),
{
    let ghost orig = rows@;
    let mut sorted = sort_rows_desc(rows);
    let ghost gs = sorted@;
    match limit {
        Some(n) => {
            sorted.truncate(n);
            proof {
                if n <= gs.len() {
                    assert(sorted@ =~= gs.take(n as int));
                } else {
                    assert(sorted@ =~= gs);
                    assert(gs.take(gs.len() as int) =~= gs);
                }
            }
        },
        None => {
        },
    }
    proof {
        assert(gs.to_multiset() == orig.to_multiset());
    }
    sorted
}

/// The mailbox a row belongs to: its own label, or the operation's default.
pub open spec fn row_folder(row: MessageRow, def: Seq<char>) -> Seq<char> {
    match row.folder {
        Some(f) => f@,
        None => def,
    }
}


/// The identifiers of the rows that belong to the mailbox `name`, in row
/// order.
pub open spec fn uids_for(rows: Seq<MessageRow>, def: Seq<char>, name: Seq<char>) -> Seq<u32>
    decreases rows.len(),
{
    if rows.len() == 0 {
        seq![]
    } else {
        uids_for(rows.drop_last(), def, name) + (if row_folder(rows.last(), def) == name {
            seq![rows.last().uid]
        } else {
            seq![]
        })
    }
}

/// Some group of `r` carries the mailbox name `nm`.
pub open spec fn group_named(r: Seq<(String, Vec<u32>)>, nm: Seq<char>) -> bool {
    exists|g: int| 0 <= g < r.len() && (#[trigger] r[g]).0@ == nm
}

/// Group the identifiers of the given rows by owning mailbox: each named
/// mailbox appears once and carries exactly the identifiers of its rows, in
/// row order, and every row's mailbox appears.
pub fn group_by_folder(rows: &Vec<MessageRow>, default_folder: &str) -> (r: Vec<(String, Vec<u32>)>)
    ensures
        forall|g: int, h: int|
            0 <= g < h < r@.len() ==> (#[trigger] r@[g]).0@ != (#[trigger] r@[h]).0@,
        forall|g: int|
            0 <= g < r@.len() ==> (#[trigger] r@[g]).1@ == uids_for(
                rows@,
                default_folder@,
                r@[g].0@,
            ),
        forall|i: int|
            0 <= i < rows@.len() ==> #[trigger] group_named(
                r@,
                row_folder(rows@[i], default_folder@),
            ),
{
    let mut r: Vec<(String, Vec<u32>)> = Vec::new();
    let n = rows.len();
    let mut i: usize = 0;
    proof {
        assert(rows@.subrange(0, 0) =~= Seq::<MessageRow>::empty());
    }
    while i < n
        invariant
            i <= n,
            n == rows@.len(),
            forall|g: int, h: int|
                0 <= g < h < r@.len() ==> (#[trigger] r@[g]).0@ != (#[trigger] r@[h]).0@,
            forall|g: int|
                0 <= g < r@.len() ==> (#[trigger] r@[g]).1@ == uids_for(
                    rows@.subrange(0, i as int),
                    default_folder@,
                    r@[g].0@,
                ),
            forall|nm: Seq<char>|
                #![trigger uids_for(rows@.subrange(0, i as int), default_folder@, nm)]
                uids_for(rows@.subrange(0, i as int), default_folder@, nm).len() > 0
                    ==> group_named(r@, nm),
            forall|ii: int|
                0 <= ii < i ==> #[trigger] group_named(
                    r@,
                    row_folder(rows@[ii], default_folder@),
                ),
        decreases n - i,
    {
        let name: String = match &rows[i].folder {
            Some(f) => f.clone(),
            None => default_folder.to_owned(),
        };
        let uid = rows[i].uid;
        let ghost pre = rows@.subrange(0, i as int);
        let ghost cur = rows@.subrange(0, i + 1);
        proof {
            assert(name@ == row_folder(rows@[i as int], default_folder@));
            assert(cur.drop_last() =~= pre);
            assert(cur.last() == rows@[i as int]);
        }
        let m = r.len();
        let mut g: usize = m;
        let mut j: usize = 0;
        while j < m
            invariant
                j <= m,
                m == r@.len(),
                g == m ==> forall|k: int| 0 <= k < j ==> (#[trigger] r@[k]).0@ != name@,
                g < m ==> r@[g as int].0@ == name@,
                g <= m,
            decreases m - j,
        {
            if g == m && str_eq(r[j].0.as_str(), name.as_str()) {
                g = j;
            }
            j = j + 1;
        }
        let ghost orv = r@;
        if g < m {
            let entry_name = r[g].0.clone();
            let mut gv = r[g].1.clone();
            gv.push(uid);
            let gval = (entry_name, gv);
            r[g] = gval;
            proof {
                assert(r@[g as int].0@ == name@);
                assert(r@[g as int].1@ =~= orv[g as int].1@.push(uid));
                assert forall|gg: int|
                    0 <= gg < r@.len() implies (#[trigger] r@[gg]).1@ == uids_for(
                    cur,
                    default_folder@,
                    r@[gg].0@,
                ) by {
                    if gg == g {
                        assert(uids_for(cur, default_folder@, name@) == uids_for(
                            pre,
                            default_folder@,
                            name@,
                        ) + seq![uid]);
                        assert(orv[gg].1@.push(uid) =~= orv[gg].1@ + seq![uid]);
                    } else {
                        assert(r@[gg] == orv[gg]);
                        assert(r@[gg].0@ != name@);
                        assert(uids_for(cur, default_folder@, r@[gg].0@) =~= uids_for(
                            pre,
                            default_folder@,
                            r@[gg].0@,
                        ));
                    }
                }
                assert forall|ii: int|
                    0 <= ii < i + 1 implies #[trigger] group_named(
                    r@,
                    row_folder(rows@[ii], default_folder@),
                ) by {
                    if ii == i {
                        assert(r@[g as int].0@ == row_folder(rows@[ii], default_folder@));
                    } else {
                        assert(group_named(orv, row_folder(rows@[ii], default_folder@)));
                        let g0 = choose|g0: int|
                            0 <= g0 < orv.len() && (#[trigger] orv[g0]).0@ == row_folder(
                                rows@[ii],
                                default_folder@,
                            );
                        assert(r@[g0].0@ == orv[g0].0@);
                    }
                }
                assert forall|nm: Seq<char>|
                    uids_for(cur, default_folder@, nm).len() > 0 implies group_named(r@, nm) by {
                    if nm == name@ {
                        assert(r@[g as int].0@ == nm);
                    } else {
                        assert(group_named(orv, nm) || uids_for(pre, default_folder@, nm).len()
                            == 0);
                        assert(uids_for(cur, default_folder@, nm) == uids_for(
                            pre,
                            default_folder@,
                            nm,
                        ));
                        let gg = choose|gg: int|
                            0 <= gg < orv.len() && (#[trigger] orv[gg]).0@ == nm;
                        assert(r@[gg].0@ == nm);
                    }
                }
            }
        } else {
            let mut gv: Vec<u32> = Vec::new();
            gv.push(uid);
            r.push((name, gv));
            proof {
                let last = r@.len() - 1;
                assert(r@[last].0@ == row_folder(rows@[i as int], default_folder@));
                assert(r@[last].1@ =~= seq![uid]);
                assert forall|gg: int|
                    0 <= gg < r@.len() implies (#[trigger] r@[gg]).1@ == uids_for(
                    cur,
                    default_folder@,
                    r@[gg].0@,
                ) by {
                    if gg == last {
                        assert(uids_for(pre, default_folder@, r@[last].0@).len() == 0) by {
                            if uids_for(pre, default_folder@, r@[last].0@).len() > 0 {
                                let x = choose|x: int|
                                    0 <= x < orv.len() && (#[trigger] orv[x]).0@ == r@[last].0@;
                                assert(false);
                            }
                        }
                        assert(uids_for(pre, default_folder@, r@[last].0@) =~= Seq::<u32>::empty());
                        assert(uids_for(cur, default_folder@, r@[last].0@) == uids_for(
                            pre,
                            default_folder@,
                            r@[last].0@,
                        ) + seq![uid]);
                        assert(uids_for(cur, default_folder@, r@[last].0@) =~= seq![uid]);
                    } else {
                        assert(r@[gg] == orv[gg]);
                        assert(r@[gg].0@ != name@);
                        assert(uids_for(cur, default_folder@, r@[gg].0@) =~= uids_for(
                            pre,
                            default_folder@,
                            r@[gg].0@,
                        ));
                    }
                }
                assert forall|ii: int|
                    0 <= ii < i + 1 implies #[trigger] group_named(
                    r@,
                    row_folder(rows@[ii], default_folder@),
                ) by {
                    if ii == i {
                        assert(r@[last].0@ == row_folder(rows@[ii], default_folder@));
                    } else {
                        assert(group_named(orv, row_folder(rows@[ii], default_folder@)));
                        let g0 = choose|g0: int|
                            0 <= g0 < orv.len() && (#[trigger] orv[g0]).0@ == row_folder(
                                rows@[ii],
                                default_folder@,
                            );
                        assert(r@[g0].0@ == orv[g0].0@);
                    }
                }
                assert forall|nm: Seq<char>|
                    uids_for(cur, default_folder@, nm).len() > 0 implies group_named(r@, nm) by {
                    if nm == name@ {
                        assert(r@[last].0@ == nm);
                    } else {
                        assert(group_named(orv, nm) || uids_for(pre, default_folder@, nm).len()
                            == 0);
                        assert(uids_for(cur, default_folder@, nm) == uids_for(
                            pre,
                            default_folder@,
                            nm,
                        ));
                        let gg = choose|gg: int|
                            0 <= gg < orv.len() && (#[trigger] orv[gg]).0@ == nm;
                        assert(r@[gg].0@ == nm);
                    }
                }
            }
        }
        i = i + 1;
    }
    proof {
        assert(rows@.subrange(0, n as int) =~= rows@);
        assert forall|i2: int| 0 <= i2 < rows@.len() implies #[trigger] group_named(
            r@,
            row_folder(rows@[i2], default_folder@),
        ) by {
            assert(0 <= i2 < i);
        }
    }
    r
}

} // verus!
