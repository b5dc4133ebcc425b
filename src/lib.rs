//! A continuous double-auction market: an integer cash and share ledger, a book
//! of resting offers with a time to live, the coordinator that matches and
//! settles orders, and the primary issuance of share lots.
use vstd::prelude::*;

pub mod entities;
pub mod market;
pub mod trade_house;
pub mod transaction;

verus! {

/// Number of agents that a fresh simulation starts with.
pub const NUM_OF_AGENTS: u64 = 10_000;

/// Number of companies that a fresh simulation starts with.
pub const NUM_OF_COMPANIES: u64 = 100;

/// The lowest limit price, in cash units, that the simulation driver submits.
pub const MIN_STRIKE_PRICE: u64 = 5;

/// Number of ticks an offer rests in the book before it expires.
pub const OFFER_LIFETIME: u64 = 10;

/// Capacity of an agent's preference timeline.
pub const TIMELINE_SIZE_LIMIT: usize = 1000;

/// Failure to write a snapshot.
#[derive(Debug, PartialEq, Eq, Structural)]
pub enum SerializationError {
    FailedToCreateFile,
    FailedToSerialize,
    FailedToWrite,
}

/// Failure to read a snapshot.
#[derive(Debug, PartialEq, Eq, Structural)]
pub enum DeserializationError {
    FileNotFound,
    FailedToSerialize,
    FailedToReadFile,
}

/// Failure to append a log line to a file.
#[derive(Debug, PartialEq, Eq, Structural)]
pub enum FileSaveError {
    FailedToOpenFile,
    FailedToWriteFile,
    FailedToCreateFile,
}

/// Failures of the market's operations; none of them leaves a partial update.
#[derive(Debug, Clone, Copy, PartialEq, Eq, Structural)]
pub enum SimulationError {
    /// The agent is not in the ledger.
    AgentNotFound(u64),
    /// Not enough cash or shares, or the amount cannot be held.
    Unspendable,
    /// A queried aggregate is absent.
    NoData,
    /// An issuance compression cannot be computed exactly.
    UnDoable,
}

/// The larger of two values.
pub fn max(a: u64, b: u64) -> (r: u64)
    ensures
        r == if a > b { a } else { b },
{
    if a > b {
        a
    } else {
        b
    }
}

/// The smaller of two values.
pub fn min(a: u64, b: u64) -> (r: u64)
    ensures
        r == if a < b { a } else { b },
{
    if a < b {
        a
    } else {
        b
    }
}

} // verus!
