//! Client-side record aggregation and pagination engine for a blockchain
//! explorer front end.
//!
//! The engine works on record collections that have already been fetched and
//! deserialized by an external collaborator. It offers:
//!
//! - page-range computation over an in-memory record set ([`ranges`]),
//! - a clamped page-window query plus a stateful pagination controller
//!   ([`window`], [`pager`]),
//! - a merge of two independently fetched record streams into one
//!   time-ordered feed ([`merge`]),
//! - a bounded top-N-plus-remainder aggregation for summary charts
//!   ([`aggregate`]).
//!
//! Transport, query construction and rendering are outside this crate: every
//! function here is pure or operates on caller-owned in-memory values.

use vstd::prelude::*;

pub mod aggregate;
pub mod merge;
pub mod pager;
pub mod ranges;
pub mod sorting;
pub mod window;

verus! {

/// An invalid scalar argument: a zero page size or a zero top-entry count.
///
/// Data-shape issues (empty sources, absent records, out-of-range page
/// indexes) are never errors; only contract violations on scalar parameters
/// are signalled.
#[derive(Clone, Copy, Debug, PartialEq, Eq, Structural)]
pub enum CoreError {
    InvalidArgument,
}

} // verus!
