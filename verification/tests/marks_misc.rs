use slashmail::config::is_loopback;
use slashmail::error::Error;
use slashmail::folders::folders_to_skip;
use slashmail::marks::{mark_action_desc, mark_store_ops, validate_mark_flags};
use slashmail::size::format_size;

#[test]
fn is_loopback_ipv4() {
    assert!(is_loopback("127.0.0.1"));
}

#[test]
fn is_loopback_ipv6() {
    assert!(is_loopback("::1"));
}

#[test]
fn is_loopback_localhost() {
    assert!(is_loopback("localhost"));
}

#[test]
fn is_loopback_remote_host() {
    assert!(!is_loopback("example.com"));
}

#[test]
fn is_loopback_private_ip() {
    assert!(!is_loopback("192.168.1.1"));
}

#[test]
fn format_size_zero() {
    assert_eq!(format_size(0), "0B");
}

#[test]
fn format_size_bytes() {
    assert_eq!(format_size(999), "999B");
}

#[test]
fn format_size_kilobytes() {
    assert_eq!(format_size(1024), "1K");
}

#[test]
fn format_size_kilobytes_rounds() {
    assert_eq!(format_size(1536), "2K");
}

#[test]
fn format_size_megabytes() {
    assert_eq!(format_size(1_048_576), "1.0M");
}

#[test]
fn format_size_megabytes_large() {
    assert_eq!(format_size(5_242_880), "5.0M");
}

#[test]
fn validate_mark_flags_no_flags() {
    assert!(validate_mark_flags(false, false, false, false).is_err());
}

#[test]
fn validate_mark_flags_read_and_unread() {
    assert!(validate_mark_flags(true, true, false, false).is_err());
}

#[test]
fn validate_mark_flags_flagged_and_unflagged() {
    assert!(validate_mark_flags(false, false, true, true).is_err());
}

#[test]
fn validate_mark_flags_single_flag() {
    assert!(validate_mark_flags(true, false, false, false).is_ok());
    assert!(validate_mark_flags(false, true, false, false).is_ok());
    assert!(validate_mark_flags(false, false, true, false).is_ok());
    assert!(validate_mark_flags(false, false, false, true).is_ok());
}

#[test]
fn validate_mark_flags_valid_combo() {
    assert!(validate_mark_flags(true, false, true, false).is_ok());
    assert!(validate_mark_flags(false, true, false, true).is_ok());
    assert!(validate_mark_flags(true, false, false, true).is_ok());
}

#[test]
fn validate_mark_flags_error_variants() {
    assert!(matches!(
        validate_mark_flags(false, false, false, false),
        Err(Error::NoFlagSelected)
    ));
    assert!(matches!(
        validate_mark_flags(true, true, false, false),
        Err(Error::ReadUnreadConflict)
    ));
    assert!(matches!(
        validate_mark_flags(false, false, true, true),
        Err(Error::FlaggedUnflaggedConflict)
    ));
}

#[test]
fn mark_store_ops_read() {
    assert_eq!(
        mark_store_ops(true, false, false, false),
        vec!["+FLAGS (\\Seen)"]
    );
}

#[test]
fn mark_store_ops_unread() {
    assert_eq!(
        mark_store_ops(false, true, false, false),
        vec!["-FLAGS (\\Seen)"]
    );
}

#[test]
fn mark_store_ops_flagged() {
    assert_eq!(
        mark_store_ops(false, false, true, false),
        vec!["+FLAGS (\\Flagged)"]
    );
}

#[test]
fn mark_store_ops_unflagged() {
    assert_eq!(
        mark_store_ops(false, false, false, true),
        vec!["-FLAGS (\\Flagged)"]
    );
}

#[test]
fn mark_store_ops_combo() {
    let ops = mark_store_ops(true, false, true, false);
    assert_eq!(ops, vec!["+FLAGS (\\Seen)", "+FLAGS (\\Flagged)"]);
}

#[test]
fn mark_action_desc_single() {
    assert_eq!(mark_action_desc(true, false, false, false), "mark read");
    assert_eq!(mark_action_desc(false, true, false, false), "mark unread");
    assert_eq!(mark_action_desc(false, false, true, false), "flag");
    assert_eq!(mark_action_desc(false, false, false, true), "unflag");
}

#[test]
fn mark_action_desc_combo() {
    assert_eq!(
        mark_action_desc(true, false, true, false),
        "mark read + flag"
    );
}

#[test]
fn folders_to_skip_filters_correctly() {
    assert!(folders_to_skip("Trash"));
    assert!(folders_to_skip("Spam"));
    assert!(folders_to_skip("Junk"));
    assert!(folders_to_skip("[Gmail]/All Mail"));
    assert!(folders_to_skip("[Gmail]/Spam"));
    assert!(folders_to_skip("[Gmail]/Trash"));
    assert!(!folders_to_skip("INBOX"));
    assert!(!folders_to_skip("Archive"));
    assert!(!folders_to_skip("Sent"));
}
