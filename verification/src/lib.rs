//! Offline operation-log reconciliation and sync dispatch.
//!
//! A disconnected client accumulates create/update/delete operations against
//! remote resources in newline-delimited log files.  This crate holds the
//! verified core of the client: parsing one textual record into an operation
//! (`record`), collapsing a log into its minimal conflict-free form
//! (`reduce`), mapping locally minted identifiers to server-assigned ones
//! (`identity`), and the decision logic of the bounded-concurrency replay of
//! a reduced log against the remote service (`dispatch`).  All file and
//! network traffic lives outside this crate; callers hand in plain lines and
//! carry out the planned calls.

pub mod dispatch;
pub mod identity;
pub mod record;
pub mod reduce;

pub use record::parse_line;
