//! Write-ahead-log coordinates and projection generations.

use crate::text::{bracketed, decimal, numbered_text};
use vstd::prelude::*;

verus! {

/// Position in the `PostgreSQL` write-ahead log.
#[derive(Clone, Copy, Debug, Hash, PartialEq, Eq, PartialOrd, Ord, Structural)]
pub struct LogSequenceNumber(pub u64);

impl LogSequenceNumber {
    /// The position before every log record.
    pub fn zero() -> (lsn: Self)
        ensures
            lsn == LogSequenceNumber(0),
    {
        LogSequenceNumber(0)
    }

    /// Wraps a raw log position.
    pub fn new(value: u64) -> (lsn: Self)
        ensures
            lsn == LogSequenceNumber(value),
    {
        LogSequenceNumber(value)
    }

    /// The raw log position.
    pub fn get(self) -> (value: u64)
        ensures
            value == self.0,
    {
        self.0
    }

    /// The later of two positions.
    pub open spec fn later_of(self, other: LogSequenceNumber) -> LogSequenceNumber {
        if other.0 > self.0 {
            other
        } else {
            self
        }
    }

    /// The later of two positions.
    pub fn later(self, other: LogSequenceNumber) -> (lsn: LogSequenceNumber)
        ensures
            lsn == self.later_of(other),
    {
        if other.0 > self.0 {
            other
        } else {
            self
        }
    }
}

impl Default for LogSequenceNumber {
    fn default() -> (lsn: Self)
        ensures
            lsn == LogSequenceNumber(0),
    {
        LogSequenceNumber(0)
    }
}

/// Identity of one projection generation; zero is the unpublished generation.
#[derive(Clone, Copy, Debug, Hash, PartialEq, Eq, PartialOrd, Ord, Structural)]
pub struct GenerationId(pub u64);

impl GenerationId {
    /// The generation that no reader may observe.
    pub fn unpublished() -> (id: Self)
        ensures
            id == GenerationId(0),
    {
        GenerationId(0)
    }

    /// Wraps a raw generation number.
    pub fn new(value: u64) -> (id: Self)
        ensures
            id == GenerationId(value),
    {
        GenerationId(value)
    }

    /// The raw generation number.
    pub fn get(self) -> (value: u64)
        ensures
            value == self.0,
    {
        self.0
    }
}

impl Default for GenerationId {
    fn default() -> (id: Self)
        ensures
            id == GenerationId(0),
    {
        GenerationId(0)
    }
}

/// The text of a log position inside a diagnostic.
pub open spec fn lsn_name(lsn: LogSequenceNumber) -> Seq<char> {
    bracketed("LogSequenceNumber"@, decimal(lsn.0 as int))
}

/// The text of a log position inside a diagnostic.
pub fn lsn_text(lsn: LogSequenceNumber) -> (text: String)
    ensures
        text@ == lsn_name(lsn),
{
    numbered_text("LogSequenceNumber", lsn.0)
}

/// The later of two positions is one of them and lies before neither.
pub proof fn law_later_position_is_the_greater_one(
    left: LogSequenceNumber,
    right: LogSequenceNumber,
)
    ensures
        left.later_of(right) == left || left.later_of(right) == right,
        left.0 <= left.later_of(right).0,
        right.0 <= left.later_of(right).0,
{
}

} // verus!
