//! Wire framing for a gossip-based storage node: incremental completeness
//! checking and structural parsing of protocol frames over a byte buffer.
use vstd::prelude::*;

pub mod cursor;
pub mod grammar;
pub mod frame;
pub mod laws;
pub mod page;
pub mod buffer;

verus! {

/// Marker of a line-delimited sample; both passes read a line that it starts
/// as an error line (`grammar::ERROR_MARK`).
pub const SAMPLE_MARK: u8 = 45;

/// Marker of CRDT replication data between nodes; no frame starts with it yet.
pub const REPLICATE_MARK: u8 = 35;

/// Marker of a line-delimited gossip command; both passes read a line that it
/// starts as a simple string (`grammar::SIMPLE_MARK`).
pub const COMMAND_MARK: u8 = 43;

/// Marker of a length-prefixed binary frame.
pub const VARIANT_LENGTH_MARK: u8 = 64;

/// Size of the receive buffer.
pub const READ_BUF_SIZE: usize = 4096;

/// Size of one storage page.
pub const BMB_PAGE_SIZE: u16 = 16384;

} // verus!

pub use cursor::{Cursor, Error};
pub use frame::Frame;
