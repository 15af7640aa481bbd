use slashmail::rows::make_row;
use slashmail::sortresp::parse_sort_response;
use slashmail::status::{parse_quota_response, parse_status_counts};

#[test]
fn parse_sort_response_basic() {
    let data = b"* SORT 5 3 1\r\nA001 OK SORT completed\r\n";
    let uids = parse_sort_response(data).unwrap();
    assert_eq!(uids, vec![5, 3, 1]);
}

#[test]
fn parse_sort_response_empty() {
    let data = b"A001 OK SORT completed\r\n";
    let uids = parse_sort_response(data).unwrap();
    assert!(uids.is_empty());
}

#[test]
fn parse_sort_response_server_error() {
    let data = b"A001 BAD Unknown command\r\n";
    assert!(parse_sort_response(data).is_err());
}

#[test]
fn parse_sort_response_multiple_lines() {
    let data = b"* SORT 9 8\r\n* SORT 2\r\nA001 OK done\r\n";
    let uids = parse_sort_response(data).unwrap();
    assert_eq!(uids, vec![9, 8, 2]);
}

#[test]
fn parse_quota_response_reads_resources() {
    let data = b"* QUOTA \"\" (STORAGE 10 512)\r\nA001 OK done\r\n";
    let rows = parse_quota_response(data);
    assert_eq!(rows.len(), 1);
    assert_eq!(rows[0].0, "STORAGE");
    assert_eq!(rows[0].1, 10);
    assert_eq!(rows[0].2, 512);
}

#[test]
fn parse_quota_response_without_quota_lines() {
    let data = b"A001 OK done\r\n";
    assert!(parse_quota_response(data).is_empty());
}

#[test]
fn parse_status_counts_reads_attributes() {
    let data = b"* STATUS INBOX (MESSAGES 142 UNSEEN 12 RECENT 3)\r\nA001 OK done\r\n";
    assert_eq!(parse_status_counts(data), (142, 12, 3));
}

#[test]
fn parse_status_counts_defaults_to_zero() {
    let data = b"* STATUS INBOX (MESSAGES 7)\r\nA001 OK done\r\n";
    assert_eq!(parse_status_counts(data), (7, 0, 0));
    assert_eq!(parse_status_counts(b"A001 OK done\r\n"), (0, 0, 0));
}

#[test]
fn make_row_reads_header_fields() {
    let header = b"Subject: Invoice\r\nFrom: alice@example.com\r\nDate: Sun, 02 Oct 2016 07:06:22 -0700\r\n";
    let row = make_row(7, Some(2048), header, None);
    assert_eq!(row.uid, 7);
    assert_eq!(row.size, 2048);
    assert_eq!(row.subject, "Invoice");
    assert_eq!(row.from, "alice@example.com");
    assert_eq!(row.timestamp, 1475417182);
    assert_eq!(row.date, "Sun, 02 Oct 2016 07:06:22");
}

#[test]
fn make_row_truncates_display_fields() {
    let long_subject = "s".repeat(80);
    let header = format!("Subject: {long_subject}\r\n");
    let row = make_row(1, None, header.as_bytes(), Some("INBOX".to_string()));
    assert_eq!(row.size, 0);
    assert_eq!(row.folder.as_deref(), Some("INBOX"));
    assert_eq!(row.subject.chars().count(), 60);
    assert!(row.subject.ends_with("..."));
    assert_eq!(row.timestamp, 0);
}
