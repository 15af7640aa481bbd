//! Error taxonomy of the engine.
//!
//! Validation errors (a malformed date or size) are raised before anything is
//! sent to the server; protocol errors report a command the server rejected or
//! an exchange that failed. Capability gaps are never surfaced as errors: they
//! trigger fallbacks inside the engine.

use vstd::prelude::*;

verus! {

/// An error of the query-and-mutation engine.
///
/// Each variant carries the offending input or the collaborator's detail text,
/// so a caller can report what failed and on what.
#[derive(Debug)]
pub enum Error {
    /// A date filter that matches neither `YYYY-MM-DD` nor the relative
    /// shorthand, or whose fields are out of range.
    BadDate(String),
    /// A date computed from relative shorthand fell outside the printable
    /// range (month or day out of bounds).
    BadComputedDate(i64, i64, i64),
    /// A size filter that is empty or not a number.
    BadSize(String),
    /// A size filter whose multiplication by the suffix factor overflows.
    SizeOverflow(String),
    /// The server answered the ordered-search command with a rejection line.
    SortRejected(Vec<u8>),
    /// A mailbox could not be selected.
    SelectFailed(String, String),
    /// The unordered search command failed.
    SearchFailed(String),
    /// A detail-fetch command failed.
    FetchFailed(String),
    /// The mailbox enumeration command failed.
    ListFailed(String),
    /// The named mailbox does not exist on the server.
    MissingFolder(String),
    /// The atomic move primitive was advertised but the command failed.
    MoveFailed(String),
    /// The copy step of the non-atomic move fallback failed.
    CopyFailed(String),
    /// A flag-update command failed.
    StoreFailed(String),
    /// The purge step of the non-atomic move fallback failed.
    ExpungeFailed(String),
    /// No flag operation was selected for a mark request.
    NoFlagSelected,
    /// A mark request asked to both set and clear the seen flag.
    ReadUnreadConflict,
    /// A mark request asked to both set and clear the flagged flag.
    FlaggedUnflaggedConflict,
}

impl Error {
    /// A human-readable account of the error, for callers that print it.
    pub fn message(&self) -> String {
        let mut m = String::new();
        match self {
            Error::BadDate(s) => {
                m.append("Invalid date '");
                m.append(s.as_str());
                m.append("' (expected YYYY-MM-DD or relative like 7d, 2w, 3m, 1y)");
            },
            Error::BadComputedDate(_, _, _) => {
                m.append("Invalid computed date");
            },
            Error::BadSize(s) => {
                m.append("Invalid size '");
                m.append(s.as_str());
                m.append("' (expected bytes, or value with K/M suffix such as 10K or 5M)");
            },
            Error::SizeOverflow(s) => {
                m.append("Size '");
                m.append(s.as_str());
                m.append("' is too large");
            },
            Error::SortRejected(_) => {
                m.append("SORT command rejected by server");
            },
            Error::SelectFailed(folder, detail) => {
                m.append("Failed to select folder '");
                m.append(folder.as_str());
                m.append("': ");
                m.append(detail.as_str());
            },
            Error::SearchFailed(detail) => {
                m.append("IMAP SEARCH failed: ");
                m.append(detail.as_str());
            },
            Error::FetchFailed(detail) => {
                m.append("IMAP FETCH failed: ");
                m.append(detail.as_str());
            },
            Error::ListFailed(detail) => {
                m.append("Failed to list folders: ");
                m.append(detail.as_str());
            },
            Error::MissingFolder(folder) => {
                m.append("Folder '");
                m.append(folder.as_str());
                m.append("' does not exist");
            },
            Error::MoveFailed(detail) => {
                m.append("UID MOVE failed: ");
                m.append(detail.as_str());
            },
            Error::CopyFailed(detail) => {
                m.append("UID COPY failed: ");
                m.append(detail.as_str());
            },
            Error::StoreFailed(detail) => {
                m.append("UID STORE failed: ");
                m.append(detail.as_str());
            },
            Error::ExpungeFailed(detail) => {
                m.append("EXPUNGE failed: ");
                m.append(detail.as_str());
            },
            Error::NoFlagSelected => {
                m.append("Specify at least one flag: --read, --unread, --flagged, --unflagged");
            },
            Error::ReadUnreadConflict => {
                m.append("Cannot use --read and --unread together");
            },
            Error::FlaggedUnflaggedConflict => {
                m.append("Cannot use --flagged and --unflagged together");
            },
        }
        m
    }
}

} // verus!
