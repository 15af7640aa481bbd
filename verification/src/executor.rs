//! The search executor and the cross-mailbox aggregator, as state machines:
//! each returned call names the one protocol exchange the caller must run
//! next, and each reply advances the machine. Ordered search degrades
//! softly to unordered search with a client-side sort; a mailbox that fails
//! during a cross-mailbox run is recorded and skipped without aborting the
//! rest.

use vstd::prelude::*;
use crate::error::Error;
use crate::folders::{filter_folders, folder_exists, skip_folder_spec};
use crate::query::SearchCriteria;
use crate::rows::{
    make_row, merge_and_limit, row_of_record, sorted_desc, FetchRecord, MessageRow,
};
use crate::sortresp::{has_rejection, parse_sort_response, sort_uids, split_lines};
use crate::text::{lower_of, sanitize, strip_controls};
use crate::uidset::{build_uid_set, sorted_strict, sorted_unique};

verus! {

broadcast use vstd::set::group_set_axioms;

/// The next protocol exchange a per-mailbox search asks its caller to run.
pub enum SessionCall {
    /// Select the named mailbox.
    Select(String),
    /// Ask whether the session advertises the server-side sort extension.
    CheckSort,
    /// Run the ordered-search command and return the raw response bytes.
    RawSort(String),
    /// Run the unordered search for the query and return the identifiers.
    Search(String),
    /// Fetch details for one identifier-set chunk with the given field
    /// specification.
    Fetch(String, String),
    /// Terminal: the mailbox's rows, in their final order.
    Finished(Vec<MessageRow>),
    /// Terminal: the mailbox could not be processed.
    Failed(Error),
}

/// The caller's answer to the last call.
pub enum SessionReply {
    /// The mailbox was selected.
    SelectDone,
    /// The mailbox could not be selected.
    SelectFailed(String),
    /// Whether the sort extension is advertised.
    SortCapability(bool),
    /// The raw bytes the ordered-search command returned.
    RawData(Vec<u8>),
    /// The ordered-search command could not be run.
    RawFailed(String),
    /// The identifiers the unordered search returned.
    SearchUids(Vec<u32>),
    /// The unordered search failed.
    SearchFailed(String),
    /// The detail records one fetch returned.
    FetchBatch(Vec<FetchRecord>),
    /// A fetch failed.
    FetchFailed(String),
}

/// Where a per-mailbox search stands.
pub enum SearchPhase {
    /// Waiting for the mailbox selection.
    Selecting,
    /// Waiting for the capability answer.
    Probing,
    /// Waiting for the ordered-search response.
    Sorting,
    /// Waiting for the unordered-search response.
    Searching,
    /// Waiting for a detail fetch.
    Fetching,
    /// Terminal: rows were produced.
    Finished,
    /// Terminal: an unrecoverable error was reported.
    Stopped,
}

/// No two rows carry the same identifier.
pub open spec fn unique_uids(rows: Seq<MessageRow>) -> bool {
    forall|i: int, j: int| 0 <= i < j < rows.len() ==> rows[i].uid != rows[j].uid
}

/// The first index of a row with the given identifier, or the length when
/// there is none.
pub open spec fn find_uid(rows: Seq<MessageRow>, uid: u32) -> nat
    decreases rows.len(),
{
    if rows.len() == 0 {
        0
    } else if rows[0].uid == uid {
        0
    } else {
        1 + find_uid(rows.skip(1), uid)
    }
}

proof fn lemma_find_uid_at(rows: Seq<MessageRow>, uid: u32, j: int)
    requires
        0 <= j <= rows.len(),
        forall|k: int| 0 <= k < j ==> (#[trigger] rows[k]).uid != uid,
        j == rows.len() || rows[j].uid == uid,
    ensures
        find_uid(rows, uid) == j,
    decreases j,
{
    if j == 0 {
    } else {
        assert(rows[0].uid != uid);
        assert(forall|k: int| 0 <= k < rows.skip(1).len() ==> rows.skip(1)[k] == rows[k + 1]);
        lemma_find_uid_at(rows.skip(1), uid, j - 1);
    }
}

/// The rows emitted in the server-provided identifier order: for each
/// identifier in turn, the first stored row carrying it, consumed as it is
/// emitted; identifiers with no stored row are silently omitted.
pub open spec fn select_in_order(ordered: Seq<u32>, rows: Seq<MessageRow>) -> Seq<MessageRow>
    decreases ordered.len(),
{
    if ordered.len() == 0 {
        seq![]
    } else {
        let idx = find_uid(rows, ordered[0]);
        if idx < rows.len() {
            seq![rows[idx as int]] + select_in_order(ordered.skip(1), rows.remove(idx as int))
        } else {
            select_in_order(ordered.skip(1), rows)
        }
    }
}

/// No more rows are emitted than identifiers were asked for.
pub proof fn lemma_select_in_order_len(ordered: Seq<u32>, rows: Seq<MessageRow>)
    ensures
        select_in_order(ordered, rows).len() <= ordered.len(),
    decreases ordered.len(),
{
    if ordered.len() > 0 {
        let idx = find_uid(rows, ordered[0]);
        if idx < rows.len() {
            lemma_select_in_order_len(ordered.skip(1), rows.remove(idx as int));
        } else {
            lemma_select_in_order_len(ordered.skip(1), rows);
        }
    }
}

proof fn lemma_find_uid_found(rows: Seq<MessageRow>, uid: u32)
    ensures
        find_uid(rows, uid) <= rows.len(),
        find_uid(rows, uid) < rows.len() ==> rows[find_uid(rows, uid) as int].uid == uid,
    decreases rows.len(),
{
    if rows.len() > 0 && rows[0].uid != uid {
        lemma_find_uid_found(rows.skip(1), uid);
        if find_uid(rows.skip(1), uid) < rows.skip(1).len() {
            assert(rows.skip(1)[find_uid(rows.skip(1), uid) as int] == rows[find_uid(
                rows,
                uid,
            ) as int]);
        }
    }
}

/// Every row the ordered assembly emits is one of the stored rows, and its
/// identifier is one of the asked-for identifiers; identifiers without a
/// stored row contribute nothing.
pub proof fn lemma_select_in_order_members(ordered: Seq<u32>, rows: Seq<MessageRow>)
    ensures
        forall|j: int|
            0 <= j < select_in_order(ordered, rows).len() ==> ordered.contains(
                (#[trigger] select_in_order(ordered, rows)[j]).uid,
            ) && rows.contains(select_in_order(ordered, rows)[j]),
    decreases ordered.len(),
{
    if ordered.len() > 0 {
        let out = select_in_order(ordered, rows);
        let idx = find_uid(rows, ordered[0]);
        lemma_find_uid_found(rows, ordered[0]);
        if idx < rows.len() {
            let rest = rows.remove(idx as int);
            let sub = select_in_order(ordered.skip(1), rest);
            lemma_select_in_order_members(ordered.skip(1), rest);
            assert forall|j: int|
                0 <= j < out.len() implies ordered.contains((#[trigger] out[j]).uid)
                && rows.contains(out[j]) by {
                if j == 0 {
                    assert(out[0] == rows[idx as int]);
                    assert(rows[idx as int].uid == ordered[0]);
                    assert(ordered.contains(ordered[0]));
                    assert(rows.contains(rows[idx as int]));
                } else {
                    assert(out[j] == sub[j - 1]);
                    assert(ordered.skip(1).contains(sub[j - 1].uid));
                    let i0 = choose|i0: int|
                        0 <= i0 < ordered.skip(1).len() && ordered.skip(1)[i0] == sub[j - 1].uid;
                    assert(ordered[i0 + 1] == sub[j - 1].uid);
                    assert(ordered.contains(out[j].uid));
                    assert(rest.contains(sub[j - 1]));
                    let r0 = choose|r0: int| 0 <= r0 < rest.len() && rest[r0] == sub[j - 1];
                    if r0 < idx {
                        assert(rows[r0] == rest[r0]);
                    } else {
                        assert(rows[r0 + 1] == rest[r0]);
                    }
                    assert(rows.contains(out[j]));
                }
            }
        } else {
            let sub = select_in_order(ordered.skip(1), rows);
            lemma_select_in_order_members(ordered.skip(1), rows);
            assert forall|j: int|
                0 <= j < out.len() implies ordered.contains((#[trigger] out[j]).uid)
                && rows.contains(out[j]) by {
                assert(out[j] == sub[j]);
                assert(ordered.skip(1).contains(sub[j].uid));
                let i0 = choose|i0: int|
                    0 <= i0 < ordered.skip(1).len() && ordered.skip(1)[i0] == sub[j].uid;
                assert(ordered[i0 + 1] == sub[j].uid);
                assert(ordered.contains(out[j].uid));
            }
        }
    }
}

/// Emit the stored rows in the server-provided identifier order.
fn assemble_presorted(ordered: &Vec<u32>, rows: Vec<MessageRow>) -> (out: Vec<MessageRow>)
    ensures
        out@ == select_in_order(ordered@, rows@),
{
    let ghost gorder = ordered@;
    let ghost grows0 = rows@;
    let mut pool = rows;
    let mut out: Vec<MessageRow> = Vec::new();
    let n = ordered.len();
    let mut j: usize = 0;
    proof {
        assert(gorder.skip(0) =~= gorder);
    }
    while j < n
        invariant
            j <= n,
            n == gorder.len(),
            ordered@ == gorder,
            select_in_order(gorder, grows0) == out@ + select_in_order(
                gorder.skip(j as int),
                pool@,
            ),
        decreases n - j,
    {
        let uid = ordered[j];
        let ghost rest = gorder.skip(j as int);
        proof {
            assert(rest[0] == gorder[j as int]);
            assert(rest.skip(1) =~= gorder.skip(j + 1));
        }
        let m = pool.len();
        let mut idx: usize = 0;
        while idx < m && pool[idx].uid != uid
            invariant
                idx <= m,
                m == pool@.len(),
                forall|k: int| 0 <= k < idx ==> (#[trigger] pool@[k]).uid != uid,
            decreases m - idx,
        {
            idx = idx + 1;
        }
        proof {
            lemma_find_uid_at(pool@, uid, idx as int);
        }
        if idx < m {
            let row = pool.remove(idx);
            out.push(row);
            proof {
                assert(out@ + select_in_order(gorder.skip(j + 1), pool@) =~= out@.drop_last()
                    + (seq![out@.last()] + select_in_order(gorder.skip(j + 1), pool@)));
            }
        }
        j = j + 1;
    }
    proof {
        assert(gorder.skip(n as int) =~= Seq::<u32>::empty());
    }
    out
}

/// An exact copy of a row vector.
fn clone_rows(v: &Vec<MessageRow>) -> (r: Vec<MessageRow>)
    ensures
        r@ == v@,
{
    let mut out: Vec<MessageRow> = Vec::new();
    let mut i: usize = 0;
    while i < v.len()
        invariant
            i <= v@.len(),
            out@ == v@.subrange(0, i as int),
        decreases v@.len() - i,
    {
        out.push(v[i].clone());
        proof {
            assert(out@ =~= v@.subrange(0, i + 1));
        }
        i = i + 1;
    }
    proof {
        assert(v@.subrange(0, v@.len() as int) =~= v@);
    }
    out
}

/// A row with the given identifier is stored.
pub open spec fn holds_uid(rows: Seq<MessageRow>, uid: u32) -> bool {
    exists|j: int| 0 <= j < rows.len() && (#[trigger] rows[j]).uid == uid
}

/// The mailbox label rows of this search carry.
pub open spec fn label_of(include_folder: bool, folder: String) -> Option<String> {
    if include_folder {
        Some(folder)
    } else {
        None
    }
}

/// The index of the last record carrying the given positive identifier, or
/// nothing when no record does.
pub open spec fn last_record_for(records: Seq<FetchRecord>, u: u32) -> Option<int>
    decreases records.len(),
{
    if records.len() == 0 {
        None
    } else if records.last().uid is Some && records.last().uid->0 == u && u > 0 {
        Some(records.len() - 1)
    } else {
        last_record_for(records.drop_last(), u)
    }
}

/// Where one stored row comes from: when some record carries its
/// identifier, the row is exactly the one built from the last such record,
/// labeled for this mailbox; otherwise it was stored before this batch.
pub open spec fn row_resolved(
    r: MessageRow,
    pre: Seq<MessageRow>,
    records: Seq<FetchRecord>,
    include_folder: bool,
    folder: String,
) -> bool {
    match last_record_for(records, r.uid) {
        Some(k) => row_of_record(
            r,
            records[k].uid->0,
            records[k].size,
            records[k].header@,
            label_of(include_folder, folder),
        ),
        None => pre.contains(r),
    }
}

/// Every row of `post` is resolved against the batch: the last record with
/// its identifier decides its content, and rows no record touches stand
/// unchanged from `pre`.
pub open spec fn rows_from(
    post: Seq<MessageRow>,
    pre: Seq<MessageRow>,
    records: Seq<FetchRecord>,
    include_folder: bool,
    folder: String,
) -> bool {
    forall|j: int|
        0 <= j < post.len() ==> #[trigger] row_resolved(
            post[j],
            pre,
            records,
            include_folder,
            folder,
        )
}

proof fn lemma_last_record_bounds(s: Seq<FetchRecord>, u: u32)
    ensures
        last_record_for(s, u) matches Some(k) ==> 0 <= k < s.len() && s[k].uid is Some
            && s[k].uid->0 == u && u > 0,
    decreases s.len(),
{
    if s.len() > 0 && !(s.last().uid is Some && s.last().uid->0 == u && u > 0) {
        lemma_last_record_bounds(s.drop_last(), u);
        match last_record_for(s.drop_last(), u) {
            Some(k0) => {
                assert(s.drop_last()[k0] == s[k0]);
            },
            None => {},
        }
    }
}

proof fn lemma_last_record_push(s: Seq<FetchRecord>, rec: FetchRecord, u: u32)
    ensures
        last_record_for(s.push(rec), u) == (if rec.uid is Some && rec.uid->0 == u && u > 0 {
            Some(s.len() as int)
        } else {
            last_record_for(s, u)
        }),
{
    assert(s.push(rec).drop_last() =~= s);
    assert(s.push(rec).last() == rec);
}

/// Store the rows of one fetched batch, keyed by identifier: a record with
/// a missing or zero identifier is skipped (and the mailbox's warning flag
/// raised once); a record for an already-stored identifier replaces the
/// earlier row, so the batch's last record for each identifier decides.
fn absorb_batch(
    rows: &mut Vec<MessageRow>,
    records: Vec<FetchRecord>,
    include_folder: bool,
    folder: &String,
    warned: &mut bool,
)
    requires
        unique_uids(old(rows)@),
    ensures
        unique_uids(final(rows)@),
        forall|i: int|
            0 <= i < old(rows)@.len() ==> holds_uid(final(rows)@, (#[trigger] old(rows)@[i]).uid),
        forall|k: int|
            0 <= k < records@.len() && (#[trigger] records@[k]).uid is Some && records@[k].uid->0
                > 0 ==> holds_uid(final(rows)@, records@[k].uid->0),
        rows_from(final(rows)@, old(rows)@, records@, include_folder, *folder),
{
    let n = records.len();
    let mut k: usize = 0;
    proof {
        assert(records@.subrange(0, 0) =~= Seq::<FetchRecord>::empty());
        assert forall|j: int|
            0 <= j < rows@.len() implies #[trigger] row_resolved(
            rows@[j],
            old(rows)@,
            records@.subrange(0, 0),
            include_folder,
            *folder,
        ) by {
            assert(last_record_for(records@.subrange(0, 0), rows@[j].uid) is None);
            assert(old(rows)@[j] == rows@[j]);
            assert(old(rows)@.contains(rows@[j]));
        }
    }
    while k < n
        invariant
            k <= n,
            n == records@.len(),
            unique_uids(rows@),
            forall|i: int|
                0 <= i < old(rows)@.len() ==> holds_uid(rows@, (#[trigger] old(rows)@[i]).uid),
            forall|kk: int|
                0 <= kk < k && (#[trigger] records@[kk]).uid is Some && records@[kk].uid->0 > 0
                    ==> holds_uid(rows@, records@[kk].uid->0),
            rows_from(rows@, old(rows)@, records@.subrange(0, k as int), include_folder, *folder),
        decreases n - k,
    {
        let ghost pre_recs = records@.subrange(0, k as int);
        let ghost cur_recs = records@.subrange(0, k + 1);
        proof {
            assert(cur_recs =~= pre_recs.push(records@[k as int]));
            assert(forall|p: int| 0 <= p < pre_recs.len() ==> #[trigger] cur_recs[p] == pre_recs[p]);
        }
        let uid = match records[k].uid {
            Some(u) => {
                if u > 0 {
                    u
                } else {
                    *warned = true;
                    proof {
                        assert forall|j: int|
                            0 <= j < rows@.len() implies #[trigger] row_resolved(
                            rows@[j],
                            old(rows)@,
                            cur_recs,
                            include_folder,
                            *folder,
                        ) by {
                            assert(row_resolved(
                                rows@[j],
                                old(rows)@,
                                pre_recs,
                                include_folder,
                                *folder,
                            ));
                            lemma_last_record_bounds(pre_recs, rows@[j].uid);
                            lemma_last_record_push(pre_recs, records@[k as int], rows@[j].uid);
                        }
                    }
                    k = k + 1;
                    continue ;
                }
            },
            None => {
                *warned = true;
                proof {
                    assert forall|j: int|
                        0 <= j < rows@.len() implies #[trigger] row_resolved(
                        rows@[j],
                        old(rows)@,
                        cur_recs,
                        include_folder,
                        *folder,
                    ) by {
                        assert(row_resolved(
                            rows@[j],
                            old(rows)@,
                            pre_recs,
                            include_folder,
                            *folder,
                        ));
                        lemma_last_record_bounds(pre_recs, rows@[j].uid);
                        lemma_last_record_push(pre_recs, records@[k as int], rows@[j].uid);
                    }
                }
                k = k + 1;
                continue ;
            },
        };
        let label: Option<String> = if include_folder {
            Some(folder.clone())
        } else {
            None
        };
        let row = make_row(uid, records[k].size, records[k].header.as_slice(), label);
        let m = rows.len();
        let mut idx: usize = 0;
        while idx < m && rows[idx].uid != uid
            invariant
                idx <= m,
                m == rows@.len(),
                forall|p: int| 0 <= p < idx ==> (#[trigger] rows@[p]).uid != uid,
            decreases m - idx,
        {
            idx = idx + 1;
        }
        if idx < m {
            let ghost orows = rows@;
            rows[idx] = row;
            proof {
                assert forall|i: int, j: int|
                    0 <= i < j < rows@.len() implies rows@[i].uid != rows@[j].uid by {
                    if i != idx && j != idx {
                        assert(rows@[i] == orows[i] && rows@[j] == orows[j]);
                    } else if i == idx {
                        assert(rows@[j] == orows[j]);
                        assert(orows[j].uid != uid);
                    } else {
                        assert(rows@[i] == orows[i]);
                        assert(orows[i].uid != uid);
                    }
                }
                assert forall|v: u32| holds_uid(orows, v) implies holds_uid(rows@, v) by {
                    let j = choose|j: int| 0 <= j < orows.len() && (#[trigger] orows[j]).uid == v;
                    if j == idx {
                        assert(rows@[idx as int].uid == uid);
                        assert(orows[idx as int].uid == uid);
                    } else {
                        assert(rows@[j] == orows[j]);
                    }
                }
                assert(rows@[idx as int].uid == uid);
                assert forall|j: int|
                    0 <= j < rows@.len() implies #[trigger] row_resolved(
                    rows@[j],
                    old(rows)@,
                    cur_recs,
                    include_folder,
                    *folder,
                ) by {
                    lemma_last_record_push(pre_recs, records@[k as int], rows@[j].uid);
                    if j == idx {
                        assert(last_record_for(cur_recs, uid) == Some(k as int));
                        assert(cur_recs[k as int] == records@[k as int]);
                        assert(row_of_record(
                            rows@[j],
                            records@[k as int].uid->0,
                            records@[k as int].size,
                            records@[k as int].header@,
                            label_of(include_folder, *folder),
                        ));
                    } else {
                        assert(rows@[j] == orows[j]);
                        assert(orows[idx as int].uid == uid);
                        assert(rows@[j].uid != uid);
                        assert(row_resolved(orows[j], old(rows)@, pre_recs, include_folder, *folder));
                        lemma_last_record_bounds(pre_recs, rows@[j].uid);
                    }
                }
            }
        } else {
            let ghost orows = rows@;
            rows.push(row);
            proof {
                assert forall|i: int, j: int|
                    0 <= i < j < rows@.len() implies rows@[i].uid != rows@[j].uid by {
                    if j == rows@.len() - 1 {
                        assert(rows@[i] == orows[i]);
                        assert(orows[i].uid != uid);
                    } else {
                        assert(rows@[i] == orows[i] && rows@[j] == orows[j]);
                    }
                }
                assert forall|v: u32| holds_uid(orows, v) implies holds_uid(rows@, v) by {
                    let j = choose|j: int| 0 <= j < orows.len() && (#[trigger] orows[j]).uid == v;
                    assert(rows@[j] == orows[j]);
                }
                assert(rows@[rows@.len() - 1].uid == uid);
                assert forall|j: int|
                    0 <= j < rows@.len() implies #[trigger] row_resolved(
                    rows@[j],
                    old(rows)@,
                    cur_recs,
                    include_folder,
                    *folder,
                ) by {
                    lemma_last_record_push(pre_recs, records@[k as int], rows@[j].uid);
                    if j == rows@.len() - 1 {
                        assert(last_record_for(cur_recs, uid) == Some(k as int));
                        assert(cur_recs[k as int] == records@[k as int]);
                        assert(row_of_record(
                            rows@[j],
                            records@[k as int].uid->0,
                            records@[k as int].size,
                            records@[k as int].header@,
                            label_of(include_folder, *folder),
                        ));
                    } else {
                        assert(rows@[j] == orows[j]);
                        assert(orows[j].uid != uid);
                        assert(row_resolved(orows[j], old(rows)@, pre_recs, include_folder, *folder));
                        lemma_last_record_bounds(pre_recs, rows@[j].uid);
                    }
                }
            }
        }
        k = k + 1;
    }
    proof {
        assert(records@.subrange(0, n as int) =~= records@);
    }
}

/// A search of one mailbox, as a state machine: select, attempt the
/// server-side ordered search (degrading softly to an unordered search with
/// a client-side sort), fetch details chunk by chunk, and assemble rows.
pub struct MailboxSearch {
    /// The sanitized mailbox name.
    pub folder: String,
    /// The compiled query string.
    pub query: String,
    /// Whether emitted rows carry the mailbox label.
    pub include_folder: bool,
    /// The result-count limit, if any.
    pub limit: Option<usize>,
    /// Where the search stands.
    pub phase: SearchPhase,
    /// Whether the identifier order came pre-sorted from the server.
    pub pre_sorted: bool,
    /// The identifiers to fetch, in their decided order.
    pub ordered_uids: Vec<u32>,
    /// The identifier-set chunks still to be fetched.
    pub chunks: Vec<String>,
    /// The index of the next chunk to request.
    pub next_chunk: usize,
    /// The rows stored so far, unique by identifier.
    pub rows: Vec<MessageRow>,
    /// Whether a record with a missing or invalid identifier was seen.
    pub warned_invalid: bool,
}

/// A machine whose bookkeeping is consistent.
pub open spec fn search_wf(m: MailboxSearch) -> bool {
    &&& m.next_chunk <= m.chunks@.len()
    &&& unique_uids(m.rows@)
    &&& (m.phase is Fetching ==> m.chunks@.len() > 0 && m.next_chunk >= 1)
    &&& (m.pre_sorted && m.limit is Some ==> m.ordered_uids@.len() <= m.limit->0)
}

/// How one step of a per-mailbox search relates the machine before the
/// reply, the machine after it, and the issued call: the whole transition
/// table of the executor. Identity fields never change; the decided
/// identifier order, the encoded chunks, and the collected rows change only
/// where the table says so, and every emitted row is pinned to the fetched
/// records.
pub open spec fn search_step_rel(
    pre: MailboxSearch,
    reply: SessionReply,
    post: MailboxSearch,
    call: SessionCall,
) -> bool {
    &&& post.folder@ == pre.folder@
    &&& post.query@ == pre.query@
    &&& post.include_folder == pre.include_folder
    &&& post.limit == pre.limit
    &&& (pre.phase is Selecting ==> (reply matches SessionReply::SelectFailed(d) ==> post.phase
        is Stopped && post.rows@ == pre.rows@ && (call matches SessionCall::Failed(e) && (
    e matches Error::SelectFailed(f, dd) && f@ == pre.folder@ && dd@ == d@))))
    &&& (pre.phase is Selecting && reply is SelectDone ==> post.phase is Probing && post.rows@
        == pre.rows@ && call is CheckSort)
    &&& (pre.phase is Probing ==> (reply matches SessionReply::SortCapability(c) && !c
        ==> post.phase is Searching && !post.pre_sorted && post.rows@ == pre.rows@ && (
    call matches SessionCall::Search(q) && q@ == pre.query@)))
    &&& (pre.phase is Probing ==> (reply matches SessionReply::SortCapability(c) && c
        ==> post.phase is Sorting && post.rows@ == pre.rows@ && (call matches
    SessionCall::RawSort(cmd) && cmd@ == "UID SORT (REVERSE DATE) UTF-8 "@ + pre.query@)))
    &&& (pre.phase is Sorting && reply is RawFailed ==> post.phase is Searching
        && !post.pre_sorted && post.rows@ == pre.rows@ && (call matches SessionCall::Search(q)
        && q@ == pre.query@))
    &&& (pre.phase is Sorting ==> (reply matches SessionReply::RawData(d) ==> {
        if has_rejection(split_lines(d@)) {
            post.phase is Stopped && post.rows@ == pre.rows@ && (call matches
                SessionCall::Failed(e) && e matches Error::SortRejected(_))
        } else {
            let uids = sort_uids(split_lines(d@));
            let kept = match pre.limit {
                Some(n) => uids.take(if n <= uids.len() {
                    n as int
                } else {
                    uids.len() as int
                }),
                None => uids,
            };
            post.pre_sorted && post.ordered_uids@ == kept && post.rows@ == pre.rows@
                && fetch_plan_rel(post, call)
        }
    }))
    &&& (pre.phase is Searching ==> (reply matches SessionReply::SearchFailed(d) ==> post.phase
        is Stopped && post.rows@ == pre.rows@ && (call matches SessionCall::Failed(e) && (
    e matches Error::SearchFailed(dd) && dd@ == d@))))
    &&& (pre.phase is Searching ==> (reply matches SessionReply::SearchUids(u)
        ==> !post.pre_sorted && sorted_strict(post.ordered_uids@) && post.ordered_uids@.to_set()
        == u@.to_set() && post.rows@ == pre.rows@ && fetch_plan_rel(post, call)))
    &&& (pre.phase is Fetching ==> (reply matches SessionReply::FetchFailed(d) ==> post.phase
        is Stopped && post.rows@ == pre.rows@ && (call matches SessionCall::Failed(e) && (
    e matches Error::FetchFailed(dd) && dd@ == d@))))
    &&& (pre.phase is Fetching ==> (reply matches SessionReply::FetchBatch(records) ==> {
        &&& post.pre_sorted == pre.pre_sorted
        &&& post.ordered_uids@ == pre.ordered_uids@
        &&& post.chunks@ == pre.chunks@
        &&& rows_from(post.rows@, pre.rows@, records@, pre.include_folder, pre.folder)
        &&& (forall|i: int|
            0 <= i < pre.rows@.len() ==> holds_uid(post.rows@, (#[trigger] pre.rows@[i]).uid))
        &&& (forall|k: int|
            0 <= k < records@.len() && (#[trigger] records@[k]).uid is Some && records@[k].uid->0
                > 0 ==> holds_uid(post.rows@, records@[k].uid->0))
        &&& if pre.next_chunk < pre.chunks@.len() {
            post.phase is Fetching && post.next_chunk == pre.next_chunk + 1 && (call matches
                SessionCall::Fetch(c, f) && c@ == pre.chunks@[pre.next_chunk as int]@ && f@
                == "(UID FLAGS RFC822.SIZE BODY.PEEK[HEADER.FIELDS (Subject From Date)])"@)
        } else {
            post.phase is Finished && (call matches SessionCall::Finished(out) && {
                &&& pre.pre_sorted ==> out@ == select_in_order(
                    pre.ordered_uids@,
                    post.rows@,
                ) && (pre.limit matches Some(n) ==> out@.len() <= n)
                &&& !pre.pre_sorted ==> sorted_desc(out@) && (pre.limit matches Some(n)
                    ==> out@.len() <= n) && (exists|s: Seq<MessageRow>|
                    {
                        &&& #[trigger] s.to_multiset() == post.rows@.to_multiset()
                        &&& sorted_desc(s)
                        &&& out@ == (match pre.limit {
                            Some(n) => s.take(if n <= s.len() {
                                n as int
                            } else {
                                s.len() as int
                            }),
                            None => s,
                        })
                    })
            })
        }
    }))
}

/// What follows once the identifier order is decided: an empty order ends
/// the mailbox with no rows; otherwise the order is encoded into chunks by
/// the identifier-set encoder and the first chunk's fetch is issued.
pub open spec fn fetch_plan_rel(post: MailboxSearch, call: SessionCall) -> bool {
    if post.ordered_uids@.len() == 0 {
        post.phase is Finished && (call matches SessionCall::Finished(v) && v@.len() == 0)
    } else {
        &&& post.phase is Fetching
        &&& post.next_chunk == 1
        &&& (exists|rs: Seq<(u32, u32)>|
            {
                &&& #[trigger] crate::uidset::is_range_decomp(rs, post.ordered_uids@.to_set())
                &&& post.chunks@.map_values(|s: String| s@) == crate::uidset::uid_chunks(rs)
            })
        &&& (call matches SessionCall::Fetch(c, f) && c@ == post.chunks@[0]@ && f@
            == "(UID FLAGS RFC822.SIZE BODY.PEEK[HEADER.FIELDS (Subject From Date)])"@)
    }
}

/// Whether a reply answers the call the machine last issued.
pub open spec fn reply_matches(m: MailboxSearch, r: SessionReply) -> bool {
    match m.phase {
        SearchPhase::Selecting => r is SelectDone || r is SelectFailed,
        SearchPhase::Probing => r is SortCapability,
        SearchPhase::Sorting => r is RawData || r is RawFailed,
        SearchPhase::Searching => r is SearchUids || r is SearchFailed,
        SearchPhase::Fetching => r is FetchBatch || r is FetchFailed,
        SearchPhase::Finished => false,
        SearchPhase::Stopped => false,
    }
}

impl MailboxSearch {
    /// Begin a search of one mailbox: the first call selects the sanitized
    /// mailbox name.
    pub fn start(folder: &str, query: String, include_folder: bool, limit: Option<usize>) -> (r: (
        MailboxSearch,
        SessionCall,
    ))
        ensures
            search_wf(r.0),
            r.0.phase is Selecting,
            r.0.folder@ == strip_controls(folder@),
            r.0.query@ == query@,
            r.0.include_folder == include_folder,
            r.0.limit == limit,
            r.1 matches SessionCall::Select(f) && f@ == strip_controls(folder@),
    {
        let clean = sanitize(folder);
        let m = MailboxSearch {
            folder: clean.clone(),
            query,
            include_folder,
            limit,
            phase: SearchPhase::Selecting,
            pre_sorted: false,
            ordered_uids: Vec::new(),
            chunks: Vec::new(),
            next_chunk: 0,
            rows: Vec::new(),
            warned_invalid: false,
        };
        (m, SessionCall::Select(clean))
    }

    /// Answer the last call and receive the next one. An absent sort
    /// capability, or a failed ordered-search command, falls back to the
    /// unordered search without raising an error; a rejection line in the
    /// ordered-search response, and every other failure, is fatal for this
    /// mailbox.
    #[verifier::rlimit(100)]
    pub fn step(&mut self, reply: SessionReply) -> (call: SessionCall)
        requires
            search_wf(*old(self)),
            reply_matches(*old(self), reply),
        ensures
            search_wf(*final(self)),
            search_step_rel(*old(self), reply, *final(self), call),
    {
        match self.phase {
            SearchPhase::Selecting => {
                match reply {
                    SessionReply::SelectDone => {
                        self.phase = SearchPhase::Probing;
                        let call = SessionCall::CheckSort;
                        proof {
                            assert(search_step_rel(*old(self), reply, *self, call));
                        }
                        call
                    },
                    SessionReply::SelectFailed(d) => {
                        self.phase = SearchPhase::Stopped;
                        let call = SessionCall::Failed(Error::SelectFailed(self.folder.clone(), d));
                        proof {
                            assert(search_step_rel(*old(self), reply, *self, call));
                        }
                        call
                    },
                    _ => {
                        proof {
                            assert(false);
                        }
                        SessionCall::CheckSort
                    },
                }
            },
            SearchPhase::Probing => {
                match reply {
                    SessionReply::SortCapability(c) => {
                        if c {
                            self.phase = SearchPhase::Sorting;
                            let mut cmd = String::from_str("UID SORT (REVERSE DATE) UTF-8 ");
                            cmd.append(self.query.as_str());
                            let call = SessionCall::RawSort(cmd);
                            proof {
                                assert(search_step_rel(*old(self), reply, *self, call));
                            }
                            call
                        } else {
                            self.phase = SearchPhase::Searching;
                            self.pre_sorted = false;
                            let call = SessionCall::Search(self.query.clone());
                            proof {
                                assert(search_step_rel(*old(self), reply, *self, call));
                            }
                            call
                        }
                    },
                    _ => {
                        proof {
                            assert(false);
                        }
                        SessionCall::CheckSort
                    },
                }
            },
            SearchPhase::Sorting => {
                match reply {
                    SessionReply::RawFailed(_) => {
                        self.phase = SearchPhase::Searching;
                        self.pre_sorted = false;
                        let call = SessionCall::Search(self.query.clone());
                        proof {
                            assert(search_step_rel(*old(self), reply, *self, call));
                        }
                        call
                    },
                    SessionReply::RawData(d) => {
                        match parse_sort_response(d.as_slice()) {
                            Err(e) => {
                                self.phase = SearchPhase::Stopped;
                                let call = SessionCall::Failed(e);
                                proof {
                                    assert(search_step_rel(*old(self), reply, *self, call));
                                }
                                call
                            },
                            Ok(mut uids) => {
                                self.pre_sorted = true;
                                let ghost guids = uids@;
                                match self.limit {
                                    Some(n) => {
                                        uids.truncate(n);
                                        proof {
                                            if n <= guids.len() {
                                                assert(uids@ =~= guids.take(n as int));
                                            } else {
                                                assert(uids@ =~= guids);
                                                assert(guids.take(guids.len() as int) =~= guids);
                                            }
                                        }
                                    },
                                    None => {},
                                }
                                self.ordered_uids = uids;
                                let call = self.begin_fetch();
                                proof {
                                    assert(search_step_rel(*old(self), reply, *self, call));
                                }
                                call
                            },
                        }
                    },
                    _ => {
                        proof {
                            assert(false);
                        }
                        SessionCall::CheckSort
                    },
                }
            },
            SearchPhase::Searching => {
                match reply {
                    SessionReply::SearchFailed(d) => {
                        self.phase = SearchPhase::Stopped;
                        let call = SessionCall::Failed(Error::SearchFailed(d));
                        proof {
                            assert(search_step_rel(*old(self), reply, *self, call));
                        }
                        call
                    },
                    SessionReply::SearchUids(u) => {
                        self.pre_sorted = false;
                        self.ordered_uids = sorted_unique(u.as_slice());
                        let call = self.begin_fetch();
                        proof {
                            assert(search_step_rel(*old(self), reply, *self, call));
                        }
                        call
                    },
                    _ => {
                        proof {
                            assert(false);
                        }
                        SessionCall::CheckSort
                    },
                }
            },
            SearchPhase::Fetching => {
                match reply {
                    SessionReply::FetchFailed(d) => {
                        self.phase = SearchPhase::Stopped;
                        let call = SessionCall::Failed(Error::FetchFailed(d));
                        proof {
                            assert(search_step_rel(*old(self), reply, *self, call));
                        }
                        call
                    },
                    SessionReply::FetchBatch(records) => {
                        let mut warned = self.warned_invalid;
                        absorb_batch(
                            &mut self.rows,
                            records,
                            self.include_folder,
                            &self.folder,
                            &mut warned,
                        );
                        self.warned_invalid = warned;
                        if self.next_chunk < self.chunks.len() {
                            let c = self.chunks[self.next_chunk].clone();
                            self.next_chunk = self.next_chunk + 1;
                            let call = SessionCall::Fetch(c, String::from_str(
                                "(UID FLAGS RFC822.SIZE BODY.PEEK[HEADER.FIELDS (Subject From Date)])",
                            ));
                            proof {
                                assert(search_step_rel(*old(self), reply, *self, call));
                            }
                            call
                        } else {
                            self.phase = SearchPhase::Finished;
                            if self.pre_sorted {
                                let pool = clone_rows(&self.rows);
                                let out = assemble_presorted(&self.ordered_uids, pool);
                                proof {
                                    lemma_select_in_order_len(self.ordered_uids@, self.rows@);
                                }
                                let call = SessionCall::Finished(out);
                                proof {
                                    assert(search_step_rel(*old(self), reply, *self, call));
                                }
                                call
                            } else {
                                let pool = clone_rows(&self.rows);
                                let out = merge_and_limit(pool, self.limit);
                                let call = SessionCall::Finished(out);
                                proof {
                                    assert(search_step_rel(*old(self), reply, *self, call));
                                }
                                call
                            }
                        }
                    },
                    _ => {
                        proof {
                            assert(false);
                        }
                        SessionCall::CheckSort
                    },
                }
            },
            SearchPhase::Finished => {
                proof {
                    assert(false);
                }
                SessionCall::CheckSort
            },
            SearchPhase::Stopped => {
                proof {
                    assert(false);
                }
                SessionCall::CheckSort
            },
        }
    }

    /// Decide what follows once the identifier order is known: nothing to
    /// fetch means an empty result; otherwise the identifiers are encoded
    /// into chunks and the first fetch is issued.
    fn begin_fetch(&mut self) -> (call: SessionCall)
        requires
            unique_uids(old(self).rows@),
            old(self).pre_sorted && old(self).limit is Some ==> old(self).ordered_uids@.len()
                <= old(self).limit->0,
        ensures
            search_wf(*final(self)),
            final(self).folder@ == old(self).folder@,
            final(self).query@ == old(self).query@,
            final(self).include_folder == old(self).include_folder,
            final(self).limit == old(self).limit,
            final(self).pre_sorted == old(self).pre_sorted,
            final(self).ordered_uids@ == old(self).ordered_uids@,
            final(self).rows@ == old(self).rows@,
            fetch_plan_rel(*final(self), call),
    {
        if self.ordered_uids.len() == 0 {
            self.phase = SearchPhase::Finished;
            self.chunks = Vec::new();
            self.next_chunk = 0;
            SessionCall::Finished(Vec::new())
        } else {
            self.chunks = build_uid_set(self.ordered_uids.as_slice());
            proof {
                if self.chunks@.len() == 0 {
                    let rs = choose|rs: Seq<(u32, u32)>|
                        {
                            &&& #[trigger] crate::uidset::is_range_decomp(
                                rs,
                                self.ordered_uids@.to_set(),
                            )
                            &&& self.chunks@.map_values(|s: String| s@)
                                == crate::uidset::uid_chunks(rs)
                        };
                    assert(self.ordered_uids@.to_set().contains(self.ordered_uids@[0]));
                    assert(crate::uidset::covers(rs, self.ordered_uids@[0]));
                    assert(rs.len() > 0);
                    assert(crate::uidset::uid_chunks(rs).len() > 0) by {
                        lemma_pack_len(rs.skip(1), crate::uidset::range_text(rs[0]));
                    }
                    assert(self.chunks@.map_values(|s: String| s@).len() == self.chunks@.len());
                    assert(false);
                }
            }
            let c = self.chunks[0].clone();
            self.next_chunk = 1;
            self.phase = SearchPhase::Fetching;
            SessionCall::Fetch(c, String::from_str(
                "(UID FLAGS RFC822.SIZE BODY.PEEK[HEADER.FIELDS (Subject From Date)])",
            ))
        }
    }
}

/// Greedy packing always emits at least one chunk.
proof fn lemma_pack_len(rs: Seq<(u32, u32)>, cur: Seq<char>)
    ensures
        crate::uidset::pack_ranges(rs, cur).len() >= 1,
    decreases rs.len(),
{
    if rs.len() > 0 {
        let part = crate::uidset::range_text(rs[0]);
        if cur.len() + 1 + part.len() > crate::uidset::MAX_UID_SET_LENGTH {
            lemma_pack_len(rs.skip(1), part);
        } else {
            lemma_pack_len(rs.skip(1), cur + seq![','] + part);
        }
    }
}


/// The next step a whole search operation asks its caller to run.
pub enum RunCall {
    /// Enumerate all mailboxes.
    ListFolders,
    /// Run one per-mailbox exchange.
    Session(SessionCall),
    /// Terminal: the operation's rows.
    Finished(Vec<MessageRow>),
    /// Terminal: the operation failed.
    Failed(Error),
}

/// The caller's answer to the last aggregate call.
pub enum RunReply {
    /// The enumerated mailbox names.
    Folders(Vec<String>),
    /// The enumeration failed.
    ListFailed(String),
    /// The answer to a per-mailbox exchange.
    FromSession(SessionReply),
}

/// Where a whole search operation stands.
pub enum RunPhase {
    /// Waiting for the mailbox enumeration.
    Listing,
    /// A per-mailbox search is in flight.
    Running,
    /// Terminal: rows were produced.
    Finished,
    /// Terminal: the operation failed.
    Stopped,
}

/// A per-mailbox machine that is still expecting a reply.
pub open spec fn inner_active(m: MailboxSearch) -> bool {
    ||| m.phase is Selecting
    ||| m.phase is Probing
    ||| m.phase is Sorting
    ||| m.phase is Searching
    ||| m.phase is Fetching
}

/// A whole search operation: one mailbox, or every mailbox that survives
/// the denylist, with per-mailbox fault isolation and one global ordering
/// and limit applied at the end.
pub struct SearchRun {
    /// The compiled query.
    pub query: String,
    /// The overall result-count limit.
    pub limit: Option<usize>,
    /// Whether every mailbox is searched.
    pub all_folders: bool,
    /// The single target mailbox (ignored for cross-mailbox runs).
    pub target: String,
    /// Where the operation stands.
    pub phase: RunPhase,
    /// The mailboxes still to be searched, after the denylist.
    pub folders: Vec<String>,
    /// The index of the next mailbox to search.
    pub next_folder: usize,
    /// The per-mailbox machine currently in flight.
    pub inner: MailboxSearch,
    /// Rows collected from completed mailboxes.
    pub acc: Vec<MessageRow>,
    /// Per-mailbox failures recorded and skipped.
    pub warnings: Vec<Error>,
}

/// An operation whose bookkeeping is consistent.
pub open spec fn run_wf(r: SearchRun) -> bool {
    &&& r.next_folder <= r.folders@.len()
    &&& (r.phase is Running ==> search_wf(r.inner) && inner_active(r.inner))
    &&& (r.phase is Listing ==> r.acc@.len() == 0)
}

/// What moving past a completed (or skipped) mailbox does during a
/// cross-mailbox run: either the next surviving mailbox's search begins
/// with a fresh machine and its select call, or, with no mailbox left, the
/// operation finishes with the collected rows sorted by descending
/// timestamp and cut to the overall limit.
pub open spec fn run_advance(pre: SearchRun, post: SearchRun, call: RunCall) -> bool {
    &&& post.folders@ == pre.folders@
    &&& if pre.next_folder < pre.folders@.len() {
        &&& post.phase is Running
        &&& post.next_folder == pre.next_folder + 1
        &&& post.inner.phase is Selecting
        &&& post.inner.include_folder
        &&& post.inner.limit is None
        &&& post.inner.folder@ == strip_controls(pre.folders@[pre.next_folder as int]@)
        &&& post.inner.query@ == pre.query@
        &&& (call matches RunCall::Session(sc) && (sc matches SessionCall::Select(f) && f@
            == strip_controls(pre.folders@[pre.next_folder as int]@)))
    } else {
        &&& post.phase is Finished
        &&& post.next_folder == pre.next_folder
        &&& (call matches RunCall::Finished(out) && sorted_desc(out@) && (pre.limit matches Some(
            n,
        ) ==> out@.len() <= n) && (exists|s: Seq<MessageRow>|
            {
                &&& #[trigger] s.to_multiset() == post.acc@.to_multiset()
                &&& sorted_desc(s)
                &&& out@ == (match pre.limit {
                    Some(n) => s.take(if n <= s.len() {
                        n as int
                    } else {
                        s.len() as int
                    }),
                    None => s,
                })
            }))
    }
}

/// How the aggregate machine reacts to what the per-mailbox machine said:
/// a finished mailbox hands its rows to the single-mailbox caller verbatim,
/// or appends them to the accumulator and advances; a failed mailbox stops
/// a single-mailbox run with that error, or is recorded as a warning and
/// skipped; any other per-mailbox call is forwarded untouched.
pub open spec fn run_follow(
    pre: SearchRun,
    mid: MailboxSearch,
    sc: SessionCall,
    post: SearchRun,
    call: RunCall,
) -> bool {
    match sc {
        SessionCall::Finished(rows) => {
            if pre.all_folders {
                &&& post.acc@ == pre.acc@ + rows@
                &&& post.warnings@ == pre.warnings@
                &&& run_advance(pre, post, call)
            } else {
                &&& post.phase is Finished
                &&& post.inner == mid
                &&& post.acc@ == pre.acc@
                &&& (call matches RunCall::Finished(out) && out == rows)
            }
        },
        SessionCall::Failed(e) => {
            if pre.all_folders {
                &&& post.acc@ == pre.acc@
                &&& post.warnings@ == pre.warnings@.push(e)
                &&& run_advance(pre, post, call)
            } else {
                &&& post.phase is Stopped
                &&& post.inner == mid
                &&& post.acc@ == pre.acc@
                &&& (call matches RunCall::Failed(e2) && e2 == e)
            }
        },
        _ => {
            &&& post.phase is Running
            &&& post.inner == mid
            &&& post.acc@ == pre.acc@
            &&& post.warnings@ == pre.warnings@
            &&& post.folders@ == pre.folders@
            &&& post.next_folder == pre.next_folder
            &&& (call matches RunCall::Session(sc2) && sc2 == sc)
        },
    }
}

impl SearchRun {
    /// Begin a search operation: the criteria are compiled into a query
    /// (failing with its validation error), and the first call enumerates
    /// the mailboxes, which serves both the cross-mailbox walk and the
    /// existence check of a single target mailbox.
    pub fn start(criteria: &SearchCriteria) -> (r: Result<(SearchRun, RunCall), Error>)
        ensures
            r matches Err(e) ==> exists|t: int|
                0 <= t && #[trigger] crate::query::query_outcome(
                    *criteria,
                    t,
                    Result::<String, Error>::Err(e),
                ),
            r matches Ok(p) ==> {
                &&& run_wf(p.0)
                &&& p.0.phase is Listing
                &&& p.0.all_folders == criteria.all_folders
                &&& p.0.limit == criteria.limit
                &&& p.0.target@ == criteria.folder@
                &&& p.1 is ListFolders
                &&& exists|t: int|
                    0 <= t && #[trigger] crate::query::query_outcome(
                        *criteria,
                        t,
                        Result::<String, Error>::Ok(p.0.query),
                    )
            },
    {
        let result = crate::query::build_query(criteria);
        let ghost gres = result;
        let query = match result {
            Ok(q) => q,
            Err(e) => {
                return Err(e);
            },
        };
        proof {
            assert(gres == Result::<String, Error>::Ok(query));
        }
        let dummy = MailboxSearch::start("", String::new(), false, None).0;
        let run = SearchRun {
            query,
            limit: criteria.limit,
            all_folders: criteria.all_folders,
            target: criteria.folder.clone(),
            phase: RunPhase::Listing,
            folders: Vec::new(),
            next_folder: 0,
            inner: dummy,
            acc: Vec::new(),
            warnings: Vec::new(),
        };
        proof {
            let t0 = choose|t: int|
                0 <= t && #[trigger] crate::query::query_outcome(*criteria, t, gres);
            assert(crate::query::query_outcome(
                *criteria,
                t0,
                Result::<String, Error>::Ok(run.query),
            ));
        }
        Ok((run, RunCall::ListFolders))
    }

    /// Answer the last call and receive the next one. During a
    /// cross-mailbox run a failing mailbox is recorded as a warning and the
    /// walk continues: the operation never stops on one mailbox's error,
    /// and the rows already collected are kept.
    pub fn step(&mut self, reply: RunReply) -> (call: RunCall)
        requires
            run_wf(*old(self)),
            old(self).phase is Listing ==> (reply is Folders || reply is ListFailed),
            old(self).phase is Running ==> (reply matches RunReply::FromSession(sr)
                && reply_matches(old(self).inner, sr)),
            !(old(self).phase is Finished),
            !(old(self).phase is Stopped),
        ensures
            run_wf(*final(self)),
            final(self).all_folders == old(self).all_folders,
            final(self).limit == old(self).limit,
            final(self).target@ == old(self).target@,
            final(self).query@ == old(self).query@,
            old(self).phase is Listing ==> (reply matches RunReply::ListFailed(d) ==> final(self).phase is Stopped && (call matches RunCall::Failed(e) && (e matches Error::ListFailed(
                dd,
            ) && dd@ == d@))),
            old(self).phase is Listing ==> (reply matches RunReply::Folders(names) ==> {
                if old(self).all_folders {
                    &&& final(self).folders@ == names@.filter(
                        |n: String| !skip_folder_spec(lower_of(n@)),
                    )
                    &&& (final(self).folders@.len() == 0 ==> final(self).phase is Finished && (
                    call matches RunCall::Finished(v) && v@.len() == 0))
                    &&& (final(self).folders@.len() > 0 ==> final(self).phase is Running && final(self).next_folder == 1 && final(self).inner.phase is Selecting && final(self).inner.include_folder && final(self).inner.limit is None && final(self).inner.folder@ == strip_controls(final(self).folders@[0]@) && final(self).inner.query@ == old(self).query@ && (call matches RunCall::Session(sc)
                        && (sc matches SessionCall::Select(f) && f@ == strip_controls(final(self).folders@[0]@))))
                } else {
                    if exists|i: int|
                        0 <= i < names@.len() && (#[trigger] names@[i])@ == old(self).target@ {
                        final(self).phase is Running && final(self).inner.phase is Selecting
                            && !final(self).inner.include_folder && final(self).inner.limit == old(self).limit && final(self).inner.folder@
                            == strip_controls(old(self).target@) && final(self).inner.query@ == old(self).query@ && (call matches RunCall::Session(sc) && (sc matches
                        SessionCall::Select(f) && f@ == strip_controls(old(self).target@)))
                    } else {
                        final(self).phase is Stopped && (call matches RunCall::Failed(e) && (
                        e matches Error::MissingFolder(f) && f@ == old(self).target@))
                    }
                }
            }),
            old(self).phase is Running ==> (reply matches RunReply::FromSession(sr)
                ==> exists|mid: MailboxSearch, sc: SessionCall|
                {
                    &&& #[trigger] search_step_rel(old(self).inner, sr, mid, sc)
                    &&& search_wf(mid)
                    &&& run_follow(*old(self), mid, sc, *final(self), call)
                }),
            old(self).phase is Running && old(self).all_folders ==> !(final(self).phase is Stopped)
                && !(call is Failed) && old(self).acc@.is_prefix_of(final(self).acc@),
            old(self).phase is Running && !old(self).all_folders ==> ((call matches
                RunCall::Finished(out2) ==> final(self).phase is Finished) && (call is Failed
                ==> final(self).phase is Stopped) && (call is Session ==> final(self).phase
                is Running)),
            old(self).phase is Running && old(self).all_folders ==> (call matches RunCall::Finished(
                out,
            ) ==> sorted_desc(out@) && (old(self).limit matches Some(n) ==> out@.len() <= n)),
        {
        match self.phase {
            RunPhase::Listing => {
                match reply {
                    RunReply::ListFailed(d) => {
                        self.phase = RunPhase::Stopped;
                        RunCall::Failed(Error::ListFailed(d))
                    },
                    RunReply::Folders(names) => {
                        if self.all_folders {
                            self.folders = filter_folders(&names);
                            self.next_folder = 0;
                            self.advance_or_finish()
                        } else {
                            if folder_exists(&names, self.target.as_str()) {
                                let (m, c) = MailboxSearch::start(
                                    self.target.as_str(),
                                    self.query.clone(),
                                    false,
                                    self.limit,
                                );
                                self.inner = m;
                                self.phase = RunPhase::Running;
                                RunCall::Session(c)
                            } else {
                                self.phase = RunPhase::Stopped;
                                RunCall::Failed(Error::MissingFolder(self.target.clone()))
                            }
                        }
                    },
                    _ => {
                        proof {
                            assert(false);
                        }
                        RunCall::ListFolders
                    },
                }
            },
            RunPhase::Running => {
                match reply {
                    RunReply::FromSession(sr) => {
                        let ghost gsr = sr;
                        let sc = self.inner.step(sr);
                        let ghost gmid = self.inner;
                        let ghost gsc = sc;
                        match sc {
                            SessionCall::Finished(rows) => {
                                if self.all_folders {
                                    let mut extra = rows;
                                    self.acc.append(&mut extra);
                                    let call = self.advance_or_finish();
                                    proof {
                                        assert(search_step_rel(old(self).inner, gsr, gmid, gsc)
                                            && search_wf(gmid) && run_follow(
                                            *old(self),
                                            gmid,
                                            gsc,
                                            *self,
                                            call,
                                        ));
                                    }
                                    call
                                } else {
                                    self.phase = RunPhase::Finished;
                                    let call = RunCall::Finished(rows);
                                    proof {
                                        assert(search_step_rel(old(self).inner, gsr, gmid, gsc)
                                            && search_wf(gmid) && run_follow(
                                            *old(self),
                                            gmid,
                                            gsc,
                                            *self,
                                            call,
                                        ));
                                    }
                                    call
                                }
                            },
                            SessionCall::Failed(e) => {
                                if self.all_folders {
                                    self.warnings.push(e);
                                    let call = self.advance_or_finish();
                                    proof {
                                        assert(search_step_rel(old(self).inner, gsr, gmid, gsc)
                                            && search_wf(gmid) && run_follow(
                                            *old(self),
                                            gmid,
                                            gsc,
                                            *self,
                                            call,
                                        ));
                                    }
                                    call
                                } else {
                                    self.phase = RunPhase::Stopped;
                                    let call = RunCall::Failed(e);
                                    proof {
                                        assert(search_step_rel(old(self).inner, gsr, gmid, gsc)
                                            && search_wf(gmid) && run_follow(
                                            *old(self),
                                            gmid,
                                            gsc,
                                            *self,
                                            call,
                                        ));
                                    }
                                    call
                                }
                            },
                            other => {
                                let call = RunCall::Session(other);
                                proof {
                                    assert(search_step_rel(old(self).inner, gsr, gmid, gsc)
                                        && search_wf(gmid) && run_follow(
                                        *old(self),
                                        gmid,
                                        gsc,
                                        *self,
                                        call,
                                    ));
                                }
                                call
                            },
                        }
                    },
                    _ => {
                        proof {
                            assert(false);
                        }
                        RunCall::ListFolders
                    },
                }
            },
            RunPhase::Finished => {
                proof {
                    assert(false);
                }
                RunCall::ListFolders
            },
            RunPhase::Stopped => {
                proof {
                    assert(false);
                }
                RunCall::ListFolders
            },
        }
    }

    /// Move on to the next surviving mailbox, or, when none is left, emit
    /// the collected rows sorted by descending timestamp with the overall
    /// limit applied once, globally.
    fn advance_or_finish(&mut self) -> (call: RunCall)
        requires
            old(self).all_folders,
            old(self).next_folder <= old(self).folders@.len(),
        ensures
            run_wf(*final(self)),
            final(self).all_folders == old(self).all_folders,
            final(self).limit == old(self).limit,
            final(self).target@ == old(self).target@,
            final(self).query@ == old(self).query@,
            final(self).folders@ == old(self).folders@,
            final(self).acc@ == old(self).acc@,
            final(self).warnings@ == old(self).warnings@,
            !(final(self).phase is Stopped),
            !(call is Failed),
            run_advance(*old(self), *final(self), call),
            old(self).next_folder >= old(self).folders@.len() ==> (call matches RunCall::Finished(
                out,
            ) && out@.len() <= old(self).acc@.len()),
    {
        broadcast use vstd::seq_lib::group_to_multiset_ensures;

        if self.next_folder < self.folders.len() {
            let f = self.folders[self.next_folder].clone();
            let (m, c) = MailboxSearch::start(f.as_str(), self.query.clone(), true, None);
            self.inner = m;
            self.next_folder = self.next_folder + 1;
            self.phase = RunPhase::Running;
            RunCall::Session(c)
        } else {
            let pool = clone_rows(&self.acc);
            let merged = merge_and_limit(pool, self.limit);
            proof {
                let s = choose|s: Seq<MessageRow>|
                    {
                        &&& #[trigger] s.to_multiset() == self.acc@.to_multiset()
                        &&& sorted_desc(s)
                        &&& merged@ == (match self.limit {
                            Some(n) => s.take(if n <= s.len() {
                                n as int
                            } else {
                                s.len() as int
                            }),
                            None => s,
                        })
                    };
                assert(s.to_multiset().len() == self.acc@.to_multiset().len());
                assert(s.len() == self.acc@.len());
            }
            self.phase = RunPhase::Finished;
            RunCall::Finished(merged)
        }
    }
}

} // verus!
