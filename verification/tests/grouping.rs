use slashmail::rows::{group_by_folder, merge_and_limit, MessageRow};

fn row(uid: u32, folder: Option<&str>, timestamp: i64) -> MessageRow {
    MessageRow {
        uid,
        folder: folder.map(|f| f.to_string()),
        from: String::new(),
        subject: String::new(),
        date: String::new(),
        timestamp,
        size: 0,
    }
}

#[test]
fn group_by_folder_uses_labels_and_default() {
    let rows = vec![
        row(1, Some("Work"), 0),
        row(2, None, 0),
        row(3, Some("Work"), 0),
        row(4, Some("Archive"), 0),
    ];
    let groups = group_by_folder(&rows, "INBOX");
    assert_eq!(groups.len(), 3);
    assert_eq!(groups[0].0, "Work");
    assert_eq!(groups[0].1, vec![1, 3]);
    assert_eq!(groups[1].0, "INBOX");
    assert_eq!(groups[1].1, vec![2]);
    assert_eq!(groups[2].0, "Archive");
    assert_eq!(groups[2].1, vec![4]);
}

#[test]
fn merge_and_limit_sorts_descending_and_caps() {
    let rows = vec![row(1, None, 10), row(2, None, 30), row(3, None, 20)];
    let merged = merge_and_limit(rows, Some(2));
    let uids: Vec<u32> = merged.iter().map(|r| r.uid).collect();
    assert_eq!(uids, vec![2, 3]);
}

#[test]
fn merge_without_limit_keeps_everything() {
    let rows = vec![row(1, None, 5), row(2, None, 9), row(3, None, 7)];
    let merged = merge_and_limit(rows, None);
    let uids: Vec<u32> = merged.iter().map(|r| r.uid).collect();
    assert_eq!(uids, vec![2, 3, 1]);
}
