//! ChronosDB: the verified core of a transactional storage engine.
//!
//! The crate holds the page formats, the slotted-page record store, the MVCC
//! visibility rules, the transaction manager, the write-ahead-log record
//! format and the recovery rules. File and device access lives outside.
use vstd::prelude::*;

pub mod engine;
pub mod recovery;
pub mod storage;
pub mod transaction;

verus! {

/// Identifier of a fixed-size page in a database file.
pub type PageId = u64;

/// Size in bytes of every page.
pub const PAGE_SIZE: usize = 4096;

} // verus!
