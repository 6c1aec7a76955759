//! Per-owner journal storage with a bounded address index.
//!
//! Each owner controls a set of journal entries. Every entry lives at a
//! deterministically derived storage address, a per-owner index tracks the
//! addresses of the owner's live entries under a hard capacity ceiling, and a
//! per-owner counter mints strictly increasing entry ids. The [`journal::Journal`]
//! type ties the pieces together and offers the three mutating operations:
//! create, update and delete.

pub mod address;
pub mod counter;
pub mod errors;
pub mod index;
pub mod journal;
pub mod store;

use vstd::prelude::*;

verus! {

/// The hard ceiling on how many live entries one owner's index may hold.
pub const INDEX_CAPACITY: usize = 200;

/// The longest title an entry may carry, in characters.
pub const TITLE_MAX: usize = 100;

/// The longest message an entry may carry, in characters.
pub const MESSAGE_MAX: usize = 1000;

/// Bytes of the fixed per-record header the storage substrate reserves.
pub const RECORD_HEADER_SPACE: u64 = 8;

/// Total storage footprint of one entry record: header, owner key, id,
/// and the two length-prefixed bounded strings.
pub const ENTRY_SPACE: u64 = RECORD_HEADER_SPACE + 32 + 8 + (4 + 100) + (4 + 1000);

/// Total storage footprint of one index record: header, owner key,
/// length prefix, and room for the capacity's worth of addresses.
pub const INDEX_SPACE: u64 = RECORD_HEADER_SPACE + 32 + 4 + 200 * 32;

/// Total storage footprint of one id-counter record: header, owner key, counter.
pub const COUNTER_SPACE: u64 = RECORD_HEADER_SPACE + 32 + 8;

} // verus!
