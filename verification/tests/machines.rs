use slashmail::error::Error;
use slashmail::executor::{
    MailboxSearch, RunCall, RunReply, SearchRun, SessionCall, SessionReply,
};
use slashmail::mover::{MoveCall, MoveFallback};
use slashmail::query::SearchCriteria;
use slashmail::rows::FetchRecord;

fn criteria(all_folders: bool) -> SearchCriteria {
    SearchCriteria {
        folder: "INBOX".into(),
        all_folders,
        subject: None,
        from: None,
        to: None,
        cc: None,
        since: None,
        before: None,
        larger: None,
        limit: None,
    }
}

fn record(uid: u32, header: &str) -> FetchRecord {
    FetchRecord { uid: Some(uid), size: Some(100), header: header.as_bytes().to_vec() }
}

#[test]
fn search_falls_back_when_sort_capability_missing() {
    let (mut m, call) = MailboxSearch::start("INBOX", "ALL".to_string(), false, None);
    assert!(matches!(call, SessionCall::Select(ref f) if f == "INBOX"));
    let call = m.step(SessionReply::SelectDone);
    assert!(matches!(call, SessionCall::CheckSort));
    // No ordered-search capability: the machine degrades to the unordered
    // search instead of failing.
    let call = m.step(SessionReply::SortCapability(false));
    assert!(matches!(call, SessionCall::Search(ref q) if q == "ALL"));
    let call = m.step(SessionReply::SearchUids(vec![3, 1, 2]));
    assert!(matches!(call, SessionCall::Fetch(ref set, _) if set == "1:3"));
    let call = m.step(SessionReply::FetchBatch(vec![
        record(1, "Date: Sun, 02 Oct 2016 07:06:22 -0700\r\n"),
        record(2, "Date: Mon, 03 Oct 2016 07:06:22 -0700\r\n"),
        record(3, "Date: Sat, 01 Oct 2016 07:06:22 -0700\r\n"),
    ]));
    match call {
        SessionCall::Finished(rows) => {
            // Client-side ordering: descending timestamp.
            let uids: Vec<u32> = rows.iter().map(|r| r.uid).collect();
            assert_eq!(uids, vec![2, 1, 3]);
        },
        _ => panic!("expected a finished result"),
    }
}

#[test]
fn search_falls_back_when_sort_command_fails() {
    let (mut m, _) = MailboxSearch::start("INBOX", "ALL".to_string(), false, None);
    m.step(SessionReply::SelectDone);
    let call = m.step(SessionReply::SortCapability(true));
    assert!(matches!(call, SessionCall::RawSort(ref cmd) if cmd == "UID SORT (REVERSE DATE) UTF-8 ALL"));
    // The command itself failed: soft degradation, not an error.
    let call = m.step(SessionReply::RawFailed("connection hiccup".to_string()));
    assert!(matches!(call, SessionCall::Search(ref q) if q == "ALL"));
}

#[test]
fn search_preserves_server_sort_order() {
    let (mut m, _) = MailboxSearch::start("INBOX", "ALL".to_string(), false, None);
    m.step(SessionReply::SelectDone);
    m.step(SessionReply::SortCapability(true));
    let call = m.step(SessionReply::RawData(b"* SORT 5 3 9\r\nA1 OK done\r\n".to_vec()));
    assert!(matches!(call, SessionCall::Fetch(ref set, _) if set == "3,5,9"));
    let call = m.step(SessionReply::FetchBatch(vec![
        record(3, "Subject: a\r\n"),
        record(9, "Subject: b\r\n"),
        record(5, "Subject: c\r\n"),
    ]));
    match call {
        SessionCall::Finished(rows) => {
            let uids: Vec<u32> = rows.iter().map(|r| r.uid).collect();
            assert_eq!(uids, vec![5, 3, 9]);
        },
        _ => panic!("expected a finished result"),
    }
}

#[test]
fn search_sort_rejection_is_fatal() {
    let (mut m, _) = MailboxSearch::start("INBOX", "ALL".to_string(), false, None);
    m.step(SessionReply::SelectDone);
    m.step(SessionReply::SortCapability(true));
    let call = m.step(SessionReply::RawData(b"A1 BAD Unknown command\r\n".to_vec()));
    assert!(matches!(call, SessionCall::Failed(Error::SortRejected(_))));
}

#[test]
fn search_limit_truncates_presorted_before_fetch() {
    let (mut m, _) = MailboxSearch::start("INBOX", "ALL".to_string(), false, Some(2));
    m.step(SessionReply::SelectDone);
    m.step(SessionReply::SortCapability(true));
    let call = m.step(SessionReply::RawData(b"* SORT 9 5 3 1\r\nA1 OK\r\n".to_vec()));
    assert!(matches!(call, SessionCall::Fetch(ref set, _) if set == "5,9"));
}

#[test]
fn move_uses_atomic_primitive_when_advertised() {
    let (mut m, call) = MoveFallback::start("1:3".to_string(), "Trash".to_string(), true);
    assert!(matches!(call, MoveCall::Move(ref s, ref d) if s == "1:3" && d == "Trash"));
    let call = m.step(true, String::new());
    assert!(matches!(call, MoveCall::Done));
}

#[test]
fn move_rejection_is_not_retried() {
    let (mut m, _) = MoveFallback::start("1:3".to_string(), "Trash".to_string(), true);
    let call = m.step(false, "NO move refused".to_string());
    assert!(matches!(call, MoveCall::Failed(Error::MoveFailed(_))));
}

#[test]
fn move_fallback_issues_copy_flag_purge_in_order() {
    let (mut m, call) = MoveFallback::start("1:3".to_string(), "Trash".to_string(), false);
    assert!(matches!(call, MoveCall::Copy(ref s, ref d) if s == "1:3" && d == "Trash"));
    let call = m.step(true, String::new());
    assert!(matches!(call, MoveCall::Store(ref s, ref q) if s == "1:3" && q == "+FLAGS (\\Deleted)"));
    let call = m.step(true, String::new());
    assert!(matches!(call, MoveCall::Expunge));
    let call = m.step(true, String::new());
    assert!(matches!(call, MoveCall::Done));
}

#[test]
fn move_fallback_failure_after_copy_stops_without_undo() {
    let (mut m, _) = MoveFallback::start("7".to_string(), "Archive".to_string(), false);
    let call = m.step(true, String::new());
    assert!(matches!(call, MoveCall::Store(_, _)));
    // The flag step fails after the copy succeeded: the operation stops,
    // and the copy in the destination stands (the documented non-atomic
    // failure mode); no further command is issued.
    let call = m.step(false, "disk full".to_string());
    assert!(matches!(call, MoveCall::Failed(Error::StoreFailed(_))));
}

#[test]
fn cross_search_excludes_denylist_and_tolerates_failure() {
    let c = criteria(true);
    let (mut run, call) = SearchRun::start(&c).unwrap();
    assert!(matches!(call, RunCall::ListFolders));
    let call = run.step(RunReply::Folders(vec![
        "INBOX".to_string(),
        "Trash".to_string(),
        "[Gmail]/Spam".to_string(),
        "Work".to_string(),
    ]));
    // The denylist removed Trash and the spam mailbox; INBOX is selected
    // first.
    assert!(matches!(call, RunCall::Session(SessionCall::Select(ref f)) if f == "INBOX"));
    // INBOX cannot be selected: the failure is recorded and the walk
    // continues with the next mailbox instead of aborting.
    let call = run.step(RunReply::FromSession(SessionReply::SelectFailed(
        "gone".to_string(),
    )));
    assert!(matches!(call, RunCall::Session(SessionCall::Select(ref f)) if f == "Work"));
    // Work yields one message; its rows survive the earlier failure.
    let call = run.step(RunReply::FromSession(SessionReply::SelectDone));
    assert!(matches!(call, RunCall::Session(SessionCall::CheckSort)));
    let call = run.step(RunReply::FromSession(SessionReply::SortCapability(false)));
    assert!(matches!(call, RunCall::Session(SessionCall::Search(_))));
    let call = run.step(RunReply::FromSession(SessionReply::SearchUids(vec![4])));
    assert!(matches!(call, RunCall::Session(SessionCall::Fetch(ref set, _)) if set == "4"));
    let call = run.step(RunReply::FromSession(SessionReply::FetchBatch(vec![record(
        4,
        "Subject: kept\r\n",
    )])));
    match call {
        RunCall::Finished(rows) => {
            assert_eq!(rows.len(), 1);
            assert_eq!(rows[0].uid, 4);
            assert_eq!(rows[0].folder.as_deref(), Some("Work"));
            assert_eq!(rows[0].subject, "kept");
        },
        _ => panic!("expected a finished result"),
    }
}

#[test]
fn single_search_requires_existing_folder() {
    let c = criteria(false);
    let (mut run, call) = SearchRun::start(&c).unwrap();
    assert!(matches!(call, RunCall::ListFolders));
    let call = run.step(RunReply::Folders(vec!["Archive".to_string()]));
    assert!(matches!(call, RunCall::Failed(Error::MissingFolder(ref f)) if f == "INBOX"));
}

#[test]
fn single_search_selects_target_folder() {
    let c = criteria(false);
    let (mut run, call) = SearchRun::start(&c).unwrap();
    assert!(matches!(call, RunCall::ListFolders));
    let call = run.step(RunReply::Folders(vec![
        "Archive".to_string(),
        "INBOX".to_string(),
    ]));
    assert!(matches!(call, RunCall::Session(SessionCall::Select(ref f)) if f == "INBOX"));
}

#[test]
fn search_start_rejects_bad_criteria() {
    let mut c = criteria(false);
    c.larger = Some("abc".to_string());
    assert!(SearchRun::start(&c).is_err());
}

#[test]
fn cross_search_merges_rows_globally() {
    let c = criteria(true);
    let (mut run, _) = SearchRun::start(&c).unwrap();
    let call = run.step(RunReply::Folders(vec!["Old".to_string(), "New".to_string()]));
    assert!(matches!(call, RunCall::Session(SessionCall::Select(ref f)) if f == "Old"));
    run.step(RunReply::FromSession(SessionReply::SelectDone));
    run.step(RunReply::FromSession(SessionReply::SortCapability(false)));
    run.step(RunReply::FromSession(SessionReply::SearchUids(vec![1])));
    let call = run.step(RunReply::FromSession(SessionReply::FetchBatch(vec![record(
        1,
        "Subject: older\r\nDate: Sun, 02 Oct 2016 07:06:22 -0700\r\n",
    )])));
    // The first mailbox is done: its row is kept and the next one starts.
    assert!(matches!(call, RunCall::Session(SessionCall::Select(ref f)) if f == "New"));
    run.step(RunReply::FromSession(SessionReply::SelectDone));
    run.step(RunReply::FromSession(SessionReply::SortCapability(false)));
    run.step(RunReply::FromSession(SessionReply::SearchUids(vec![9])));
    let call = run.step(RunReply::FromSession(SessionReply::FetchBatch(vec![record(
        9,
        "Subject: newer\r\nDate: Mon, 03 Oct 2016 07:06:22 -0700\r\n",
    )])));
    match call {
        RunCall::Finished(rows) => {
            // Both mailboxes' rows survive, globally ordered by descending
            // timestamp and labeled with their owning mailbox.
            assert_eq!(rows.len(), 2);
            assert_eq!(rows[0].uid, 9);
            assert_eq!(rows[0].folder.as_deref(), Some("New"));
            assert_eq!(rows[1].uid, 1);
            assert_eq!(rows[1].folder.as_deref(), Some("Old"));
        },
        _ => panic!("expected a finished result"),
    }
}
