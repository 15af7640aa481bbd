use slashmail::date::{days_in_month, epoch_to_date, format_imap_date, parse_date};
use slashmail::query::{build_query, SearchCriteria};
use slashmail::size::parse_size;
use slashmail::text::{imap_quote, sanitize, truncate_str};

fn criteria() -> SearchCriteria {
    SearchCriteria {
        folder: "INBOX".into(),
        all_folders: false,
        subject: None,
        from: None,
        to: None,
        cc: None,
        since: None,
        before: None,
        larger: None,
        limit: None,
    }
}

#[test]
fn sanitize_removes_control_chars() {
    assert_eq!(sanitize("hello"), "hello");
    assert_eq!(sanitize("he\nllo"), "hello");
    assert_eq!(sanitize("he\rllo"), "hello");
    assert_eq!(sanitize("he\r\nllo"), "hello");
    assert_eq!(sanitize("he\x00llo"), "hello");
    assert_eq!(sanitize(""), "");
}

#[test]
fn sanitize_preserves_unicode() {
    assert_eq!(sanitize("héllo wörld"), "héllo wörld");
}

#[test]
fn imap_quote_wraps_in_quotes() {
    assert_eq!(imap_quote("hello"), "\"hello\"");
}

#[test]
fn imap_quote_escapes_backslash() {
    assert_eq!(imap_quote("he\\llo"), "\"he\\\\llo\"");
}

#[test]
fn imap_quote_escapes_double_quote() {
    assert_eq!(imap_quote("he\"llo"), "\"he\\\"llo\"");
}

#[test]
fn imap_quote_strips_control_chars() {
    assert_eq!(imap_quote("he\nllo"), "\"hello\"");
}

#[test]
fn imap_quote_handles_mixed_specials() {
    assert_eq!(imap_quote("a\\b\"c\nd"), "\"a\\\\b\\\"cd\"");
}

#[test]
fn parse_date_converts_iso_to_imap() {
    assert_eq!(parse_date("2025-01-01").unwrap(), "1-Jan-2025");
    assert_eq!(parse_date("2025-01-31").unwrap(), "31-Jan-2025");
    assert_eq!(parse_date("2024-12-31").unwrap(), "31-Dec-2024");
    assert_eq!(parse_date("2025-06-15").unwrap(), "15-Jun-2025");
}

#[test]
fn parse_date_rejects_invalid_formats() {
    assert!(parse_date("1-Jan-2025").is_err());
    assert!(parse_date("Jan-1-2025").is_err());
    assert!(parse_date("").is_err());
    assert!(parse_date("2025-13-01").is_err());
    assert!(parse_date("2025-00-01").is_err());
    assert!(parse_date("2025-01-00").is_err());
    assert!(parse_date("2025-01-32").is_err());
}

#[test]
fn parse_date_relative_returns_valid_imap_date() {
    // Exact values depend on "now"; check the shape of each result instead.
    let re = regex::Regex::new(
        r"^\d{1,2}-(Jan|Feb|Mar|Apr|May|Jun|Jul|Aug|Sep|Oct|Nov|Dec)-\d{4}$",
    )
    .unwrap();
    for input in ["7d", "14d", "2w", "1m", "3m", "6m", "1y", "2y"] {
        let result = parse_date(input).unwrap();
        assert!(
            re.is_match(&result),
            "'{input}' produced invalid IMAP date: '{result}'"
        );
    }
}

#[test]
fn parse_date_relative_zero_days_is_today() {
    let result = parse_date("0d").unwrap();
    let now = std::time::SystemTime::now()
        .duration_since(std::time::UNIX_EPOCH)
        .unwrap()
        .as_secs() as i64;
    let (y, m, d) = epoch_to_date(now);
    let expected = format_imap_date(d, m, y).unwrap();
    assert_eq!(result, expected);
}

#[test]
fn epoch_to_date_known_values() {
    // 2025-01-01 00:00:00 UTC
    assert_eq!(epoch_to_date(1_735_689_600), (2025, 1, 1));
    // Unix epoch
    assert_eq!(epoch_to_date(0), (1970, 1, 1));
    // 2000-02-29 (leap year)
    assert_eq!(epoch_to_date(951_782_400), (2000, 2, 29));
}

#[test]
fn days_in_month_leap_year() {
    assert_eq!(days_in_month(2024, 2), 29);
    assert_eq!(days_in_month(2023, 2), 28);
    assert_eq!(days_in_month(2000, 2), 29); // century leap
    assert_eq!(days_in_month(1900, 2), 28); // century non-leap
}

#[test]
fn parse_date_relative_month_clamps_day() {
    assert!(parse_date("1m").is_ok());
    assert!(parse_date("12m").is_ok());
    assert!(parse_date("24m").is_ok());
}

#[test]
fn parse_date_relative_large_values() {
    assert!(parse_date("365d").is_ok());
    assert!(parse_date("52w").is_ok());
    assert!(parse_date("120m").is_ok());
    assert!(parse_date("50y").is_ok());
}

#[test]
fn parse_date_relative_rejects_invalid_unit() {
    assert!(parse_date("7x").is_err());
    assert!(parse_date("3h").is_err());
    assert!(parse_date("d").is_err());
    assert!(parse_date("7").is_err());
}

#[test]
fn parse_size_plain_bytes() {
    assert_eq!(parse_size("1024").unwrap(), 1024);
    assert_eq!(parse_size("0").unwrap(), 0);
}

#[test]
fn parse_size_kilobytes() {
    assert_eq!(parse_size("1K").unwrap(), 1024);
    assert_eq!(parse_size("1k").unwrap(), 1024);
    assert_eq!(parse_size("10K").unwrap(), 10240);
}

#[test]
fn parse_size_megabytes() {
    assert_eq!(parse_size("1M").unwrap(), 1_048_576);
    assert_eq!(parse_size("1m").unwrap(), 1_048_576);
    assert_eq!(parse_size("5M").unwrap(), 5_242_880);
}

#[test]
fn parse_size_invalid_errors() {
    assert!(parse_size("abc").is_err());
    assert!(parse_size("").is_err());
}

#[test]
fn parse_size_overflow_errors() {
    assert!(parse_size("18446744073709551615M").is_err());
}

#[test]
fn truncate_str_short_unchanged() {
    assert_eq!(truncate_str("hello", 10), "hello");
}

#[test]
fn truncate_str_exact_length_unchanged() {
    assert_eq!(truncate_str("hello", 5), "hello");
}

#[test]
fn truncate_str_long_adds_ellipsis() {
    assert_eq!(truncate_str("hello world", 8), "hello...");
}

#[test]
fn truncate_str_empty() {
    assert_eq!(truncate_str("", 10), "");
}

#[test]
fn build_query_no_criteria_returns_all() {
    let c = criteria();
    assert_eq!(build_query(&c).unwrap(), "ALL");
}

#[test]
fn build_query_subject_only() {
    let mut c = criteria();
    c.subject = Some("test".into());
    assert_eq!(build_query(&c).unwrap(), "SUBJECT \"test\"");
}

#[test]
fn build_query_combined_fields() {
    let mut c = criteria();
    c.subject = Some("invoice".into());
    c.from = Some("user@example.com".into());
    assert_eq!(
        build_query(&c).unwrap(),
        "SUBJECT \"invoice\" FROM \"user@example.com\""
    );
}

#[test]
fn build_query_date_range() {
    let mut c = criteria();
    c.since = Some("2025-01-01".into());
    c.before = Some("2025-12-31".into());
    assert_eq!(
        build_query(&c).unwrap(),
        "SINCE 1-Jan-2025 BEFORE 31-Dec-2025"
    );
}

#[test]
fn build_query_size_filter() {
    let mut c = criteria();
    c.larger = Some("1M".into());
    assert_eq!(build_query(&c).unwrap(), "LARGER 1048576");
}

#[test]
fn build_query_recipient_fields() {
    let mut c = criteria();
    c.to = Some("alice@example.com".into());
    c.cc = Some("bob@example.com".into());
    assert_eq!(
        build_query(&c).unwrap(),
        "TO \"alice@example.com\" CC \"bob@example.com\""
    );
}

#[test]
fn build_query_invalid_date_errors() {
    let mut c = criteria();
    c.since = Some("not-a-date".into());
    assert!(build_query(&c).is_err());
}

#[test]
fn build_query_invalid_size_errors() {
    let mut c = criteria();
    c.larger = Some("abc".into());
    assert!(build_query(&c).is_err());
}
