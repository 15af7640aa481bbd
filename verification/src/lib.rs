//! An IMAP query-and-batch-mutation engine: it compiles user-level search
//! criteria into protocol search commands, encodes identifier sets into
//! wire-legal range expressions, decides between an atomic move and its
//! copy-flag-purge fallback from advertised capabilities, and drives search
//! and mutation as explicit state machines whose protocol exchanges are
//! performed by the caller.

pub mod config;
pub mod date;
pub mod error;
pub mod executor;
pub mod folders;
pub mod marks;
pub mod mover;
pub mod num;
pub mod query;
pub mod rows;
pub mod size;
pub mod sortresp;
pub mod status;
pub mod text;
pub mod uidset;
