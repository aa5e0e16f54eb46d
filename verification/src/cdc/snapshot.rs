//! The boundary between a consistent snapshot and the log that is replayed behind it.

use super::lsn::LogSequenceNumber;
use super::pg_lsn::{parsed_position, position_of};
use crate::text::{byte_len, joined, joined3};
use vstd::prelude::*;
use vstd::string::*;
use vstd::utf8::encode_utf8;

verus! {

/// Why a snapshot cannot be opened.
#[derive(Debug, PartialEq, Eq)]
pub enum SnapshotError {
    /// What the database answered in place of a result.
    Postgres(String),
    EmptySlotName,
    SlotNotFound(String),
    SlotHasNoRestartLsn(String),
    InvalidLsn(String),
}

/// Contents of a `SnapshotError`.
#[verifier::ext_equal]
pub enum SnapshotErrorView {
    Postgres(Seq<char>),
    EmptySlotName,
    SlotNotFound(Seq<char>),
    SlotHasNoRestartLsn(Seq<char>),
    InvalidLsn(Seq<char>),
}

impl View for SnapshotError {
    type V = SnapshotErrorView;

    open spec fn view(&self) -> SnapshotErrorView {
        match *self {
            SnapshotError::Postgres(text) => SnapshotErrorView::Postgres(text@),
            SnapshotError::EmptySlotName => SnapshotErrorView::EmptySlotName,
            SnapshotError::SlotNotFound(slot) => SnapshotErrorView::SlotNotFound(slot@),
            SnapshotError::SlotHasNoRestartLsn(slot) => {
                SnapshotErrorView::SlotHasNoRestartLsn(slot@)
            },
            SnapshotError::InvalidLsn(text) => SnapshotErrorView::InvalidLsn(text@),
        }
    }
}

/// Contents of a `SnapshotBoundary`.
#[verifier::ext_equal]
pub struct BoundaryView {
    pub replay_from_lsn: LogSequenceNumber,
    pub snapshot_lsn: LogSequenceNumber,
    pub snapshot_id: Seq<char>,
}

/// Overlap of a snapshot and the log. The replay position is captured from the slot before the
/// snapshot is opened, so replay may repeat changes but never leaves a gap.
#[derive(Debug, PartialEq, Eq)]
pub struct SnapshotBoundary {
    replay_from_lsn: LogSequenceNumber,
    snapshot_lsn: LogSequenceNumber,
    snapshot_id: String,
}

impl View for SnapshotBoundary {
    type V = BoundaryView;

    closed spec fn view(&self) -> BoundaryView {
        BoundaryView {
            replay_from_lsn: self.replay_from_lsn,
            snapshot_lsn: self.snapshot_lsn,
            snapshot_id: self.snapshot_id@,
        }
    }
}

impl Clone for SnapshotBoundary {
    fn clone(&self) -> (copy: Self)
        ensures
            copy@ == self@,
    {
        SnapshotBoundary {
            replay_from_lsn: self.replay_from_lsn,
            snapshot_lsn: self.snapshot_lsn,
            snapshot_id: self.snapshot_id.clone(),
        }
    }
}

impl SnapshotBoundary {
    /// The position from which the log is replayed after the snapshot.
    pub fn replay_from_lsn(&self) -> (lsn: LogSequenceNumber)
        ensures
            lsn == self@.replay_from_lsn,
    {
        self.replay_from_lsn
    }

    /// The position observed inside the snapshot.
    pub fn snapshot_lsn(&self) -> (lsn: LogSequenceNumber)
        ensures
            lsn == self@.snapshot_lsn,
    {
        self.snapshot_lsn
    }

    /// The database's identifier of the snapshot.
    pub fn snapshot_id(&self) -> (id: &str)
        ensures
            id@ == self@.snapshot_id,
    {
        self.snapshot_id.as_str()
    }

    /// The boundary of a snapshot that reports this identifier and this position, opened after
    /// `replay_from_lsn` was captured.
    pub fn observed(
        replay_from_lsn: LogSequenceNumber,
        snapshot_id: String,
        snapshot_lsn_text: &str,
    ) -> (result: Result<Self, SnapshotError>)
        ensures
            match result {
                Ok(boundary) => position_of(snapshot_lsn_text@) is Some && boundary@ == (
                BoundaryView {
                    replay_from_lsn,
                    snapshot_lsn: LogSequenceNumber(position_of(snapshot_lsn_text@)->0),
                    snapshot_id: snapshot_id@,
                }),
                Err(error) => position_of(snapshot_lsn_text@) is None && error@
                    == SnapshotErrorView::InvalidLsn(snapshot_lsn_text@),
            },
    {
        let snapshot_lsn = parse_pg_lsn(snapshot_lsn_text)?;
        Ok(SnapshotBoundary { replay_from_lsn, snapshot_lsn, snapshot_id })
    }
}

/// The position that `PostgreSQL`'s text means.
pub fn parse_pg_lsn(value: &str) -> (result: Result<LogSequenceNumber, SnapshotError>)
    ensures
        match result {
            Ok(lsn) => position_of(value@) == Some(lsn.0),
            Err(error) => position_of(value@) is None && error@ == SnapshotErrorView::InvalidLsn(
                value@,
            ),
        },
{
    match parsed_position(value) {
        Some(position) => Ok(LogSequenceNumber(position)),
        None => Err(SnapshotError::InvalidLsn(value.to_owned())),
    }
}

/// Whether a slot name is empty.
pub fn empty_name(slot: &str) -> (empty: bool)
    ensures
        empty == (slot@.len() == 0),
{
    let len: usize = byte_len(slot);
    proof {
        vstd::utf8::encode_utf8_decode_utf8(slot@);
        if slot@.len() == 0 {
            assert(encode_utf8(slot@).len() == 0);
        } else if len == 0 {
            assert(encode_utf8(slot@) =~= Seq::empty());
            assert(vstd::utf8::decode_utf8(encode_utf8(slot@)).len() == 0);
        }
    }
    len == 0
}

/// Refuses a slot without a name, before the database is asked.
pub fn check_slot_name(slot: &str) -> (result: Result<(), SnapshotError>)
    ensures
        match result {
            Ok(_) => slot@.len() > 0,
            Err(error) => slot@.len() == 0 && error@ == SnapshotErrorView::EmptySlotName,
        },
{
    if empty_name(slot) {
        Err(SnapshotError::EmptySlotName)
    } else {
        Ok(())
    }
}

/// The position from which to replay, out of the row of the slot. `row` is absent where the
/// database knows no such logical slot; its value is absent where the slot has no position.
pub fn replay_start(slot: &str, row: Option<Option<String>>) -> (result: Result<
    LogSequenceNumber,
    SnapshotError,
>)
    ensures
        match row {
            None => result matches Err(error) && error@ == SnapshotErrorView::SlotNotFound(slot@),
            Some(None) => result matches Err(error) && error@
                == SnapshotErrorView::SlotHasNoRestartLsn(slot@),
            Some(Some(text)) => match result {
                Ok(lsn) => position_of(text@) == Some(lsn.0),
                Err(error) => position_of(text@) is None && error@
                    == SnapshotErrorView::InvalidLsn(text@),
            },
        },
{
    match row {
        None => Err(SnapshotError::SlotNotFound(slot.to_owned())),
        Some(None) => Err(SnapshotError::SlotHasNoRestartLsn(slot.to_owned())),
        Some(Some(text)) => parse_pg_lsn(text.as_str()),
    }
}

impl SnapshotErrorView {
    /// The diagnostic text of this error.
    pub open spec fn message(self) -> Seq<char> {
        match self {
            SnapshotErrorView::Postgres(text) => "PostgreSQL snapshot error: "@ + text,
            SnapshotErrorView::EmptySlotName => "logical replication slot name is empty"@,
            SnapshotErrorView::SlotNotFound(slot) => {
                "logical replication slot '"@ + slot + "' was not found"@
            },
            SnapshotErrorView::SlotHasNoRestartLsn(slot) => {
                "logical replication slot '"@ + slot + "' has no restart LSN"@
            },
            SnapshotErrorView::InvalidLsn(text) => "invalid PostgreSQL LSN '"@ + text + "'"@,
        }
    }
}

impl SnapshotError {
    /// The diagnostic text of this error.
    pub fn message(&self) -> (text: String)
        ensures
            text@ == self@.message(),
    {
        match self {
            SnapshotError::Postgres(text) => joined("PostgreSQL snapshot error: ", text.as_str()),
            SnapshotError::EmptySlotName => "logical replication slot name is empty".to_owned(),
            SnapshotError::SlotNotFound(slot) => {
                joined3("logical replication slot '", slot.as_str(), "' was not found")
            },
            SnapshotError::SlotHasNoRestartLsn(slot) => {
                joined3("logical replication slot '", slot.as_str(), "' has no restart LSN")
            },
            SnapshotError::InvalidLsn(text) => {
                joined3("invalid PostgreSQL LSN '", text.as_str(), "'")
            },
        }
    }
}

} // verus!
