//! Bootstrapping a projection: a bounded ordered snapshot, gap-free replay behind it, and
//! validation before anything becomes ready.

use super::lsn::{lsn_name, lsn_text, GenerationId, LogSequenceNumber};
use super::wire::same_bytes;
use crate::text::{
    bracketed, byte_len, decimal, decimal_text, numbered_text, same_text, with_field,
    with_field_text, with_fields, with_fields_text,
};
use vstd::prelude::*;
use vstd::string::*;
use vstd::utf8::{is_ascii_chars, is_ascii_chars_encode_utf8};

verus! {

/// Longest name of a snapshot.
pub const MAX_SNAPSHOT_ID_BYTES: usize = 128;

/// Most tables of a snapshot.
pub const MAX_SNAPSHOT_TABLES: usize = 1_024;

/// Longest key of a snapshot row.
pub const MAX_SNAPSHOT_KEY_BYTES: usize = 4_096;

/// Longest value of a snapshot row.
pub const MAX_SNAPSHOT_VALUE_BYTES: usize = 16_777_216;

/// Most rows of a snapshot.
pub const MAX_SNAPSHOT_ROWS: u64 = 1_000_000_000;

/// Where a bootstrap stands.
#[derive(Clone, Copy, Debug, PartialEq, Eq, Structural)]
pub enum BootstrapPhase {
    Empty,
    Snapshotting,
    ReplayingWal,
    Validating,
    Ready,
    Failed,
}

impl Default for BootstrapPhase {
    fn default() -> (phase: Self)
        ensures
            phase == BootstrapPhase::Empty,
    {
        BootstrapPhase::Empty
    }
}

/// Why a bootstrap or a snapshot refuses a step.
#[derive(Clone, Copy, Debug, PartialEq, Eq, Structural)]
pub enum BootstrapError {
    InvalidSnapshotId,
    InvalidSnapshotLsn,
    InvalidVersion,
    InvalidTableSet,
    InvalidGeneration,
    InvalidPhase { expected: BootstrapPhase, actual: BootstrapPhase },
    SnapshotMismatch,
    ProgressOverflow,
    ProgressRegression,
    WalGap { expected: LogSequenceNumber, actual: LogSequenceNumber },
    InvalidWalProgress,
    CatchupIncomplete { high_water: LogSequenceNumber, applied: LogSequenceNumber },
    ValidationMissing,
    InvalidSnapshotRow,
    SnapshotKeyTooLarge(usize),
    SnapshotValueTooLarge(usize),
    SnapshotRowLimitExceeded,
    UnexpectedSnapshotTable { expected: u32, actual: u32 },
    SnapshotKeyOrder { table_id: u32 },
    ConflictingSnapshotRow { table_id: u32 },
    SnapshotAlreadyComplete,
    SnapshotIncomplete,
    SnapshotAborted,
    /// Durable state ends before the snapshot that it has to continue.
    RecoveredBeforeBaseline { baseline: LogSequenceNumber, recovered: LogSequenceNumber },
}

// ---------------------------------------------------------------------------------------------
// Snapshot descriptor
// ---------------------------------------------------------------------------------------------

/// Contents of a `SnapshotDescriptor`.
#[verifier::ext_equal]
pub struct DescriptorView {
    pub snapshot_id: Seq<char>,
    pub consistent_lsn: LogSequenceNumber,
    pub schema_version: u16,
    pub projection_version: u16,
    pub tables: Seq<u32>,
}

/// Whether table numbers are positive and strictly ascend.
pub open spec fn tables_ascend(tables: Seq<u32>) -> bool {
    &&& forall|i: int| 0 <= i < tables.len() ==> #[trigger] tables[i] > 0
    &&& forall|i: int, j: int|
        0 <= i < j < tables.len() ==> #[trigger] tables[i] < #[trigger] tables[j]
}

impl DescriptorView {
    /// Why the parts do not describe a snapshot, if so.
    pub open spec fn error(self) -> Option<BootstrapError> {
        if self.snapshot_id.len() == 0 || self.snapshot_id.len() > MAX_SNAPSHOT_ID_BYTES
            || !is_ascii_chars(self.snapshot_id) {
            Some(BootstrapError::InvalidSnapshotId)
        } else if self.consistent_lsn.0 == 0 {
            Some(BootstrapError::InvalidSnapshotLsn)
        } else if self.schema_version == 0 || self.projection_version == 0 {
            Some(BootstrapError::InvalidVersion)
        } else if self.tables.len() == 0 || self.tables.len() > MAX_SNAPSHOT_TABLES
            || !tables_ascend(self.tables) {
            Some(BootstrapError::InvalidTableSet)
        } else {
            None
        }
    }
}

/// Identity and extent of one consistent snapshot.
#[derive(Debug, PartialEq, Eq)]
pub struct SnapshotDescriptor {
    snapshot_id: String,
    consistent_lsn: LogSequenceNumber,
    schema_version: u16,
    projection_version: u16,
    tables: Vec<u32>,
}

impl View for SnapshotDescriptor {
    type V = DescriptorView;

    closed spec fn view(&self) -> DescriptorView {
        DescriptorView {
            snapshot_id: self.snapshot_id@,
            consistent_lsn: self.consistent_lsn,
            schema_version: self.schema_version,
            projection_version: self.projection_version,
            tables: self.tables@,
        }
    }
}

impl Clone for SnapshotDescriptor {
    fn clone(&self) -> (copy: Self)
        ensures
            copy@ == self@,
    {
        proof {
            use_type_invariant(self);
        }
        SnapshotDescriptor {
            snapshot_id: self.snapshot_id.clone(),
            consistent_lsn: self.consistent_lsn,
            schema_version: self.schema_version,
            projection_version: self.projection_version,
            tables: vstd::slice::slice_to_vec(self.tables.as_slice()),
        }
    }
}

fn check_tables(tables: &Vec<u32>) -> (ascend: bool)
    ensures
        ascend == tables_ascend(tables@),
{
    let mut previous: u32 = 0;
    let mut index: usize = 0;
    while index < tables.len()
        invariant
            index <= tables@.len(),
            index == 0 ==> previous == 0,
            index > 0 ==> previous == tables@[index - 1],
            tables_ascend(tables@.take(index as int)),
        decreases tables@.len() - index,
    {
        let ghost done = tables@.take(index as int);
        let ghost now = tables@.take(index + 1);
        let table: u32 = tables[index];
        if table <= previous {
            proof {
                if index > 0 {
                    assert(tables@[index - 1] >= tables@[index as int]);
                } else {
                    assert(tables@[0] == 0);
                }
            }
            return false;
        }
        assert forall|i: int| 0 <= i < now.len() implies #[trigger] now[i] > 0 by {
            if i < index {
                assert(done[i] > 0);
            }
        }
        assert forall|i: int, j: int| 0 <= i < j < now.len() implies #[trigger] now[i]
            < #[trigger] now[j] by {
            if j < index {
                assert(done[i] < done[j]);
            } else if i < index - 1 {
                assert(done[i] < done[index - 1]);
            }
        }
        previous = table;
        index = index + 1;
    }
    assert(tables@.take(index as int) =~= tables@);
    true
}

impl SnapshotDescriptor {
    #[verifier::type_invariant]
    spec fn described(self) -> bool {
        self@.error() is None
    }

    /// A descriptor from its parts.
    pub fn try_new(
        snapshot_id: &str,
        consistent_lsn: LogSequenceNumber,
        schema_version: u16,
        projection_version: u16,
        tables: Vec<u32>,
    ) -> (result: Result<Self, BootstrapError>)
        ensures
            ({
                let parts = DescriptorView {
                    snapshot_id: snapshot_id@,
                    consistent_lsn,
                    schema_version,
                    projection_version,
                    tables: tables@,
                };
                match result {
                    Ok(descriptor) => parts.error() is None && descriptor@ == parts,
                    Err(error) => parts.error() == Some(error),
                }
            }),
    {
        proof {
            if is_ascii_chars(snapshot_id@) {
                is_ascii_chars_encode_utf8(snapshot_id@);
            }
        }
        if !snapshot_id.is_ascii() {
            return Err(BootstrapError::InvalidSnapshotId);
        }
        let id_len: usize = byte_len(snapshot_id);
        if id_len == 0 || id_len > MAX_SNAPSHOT_ID_BYTES {
            return Err(BootstrapError::InvalidSnapshotId);
        }
        if consistent_lsn.0 == 0 {
            return Err(BootstrapError::InvalidSnapshotLsn);
        }
        if schema_version == 0 || projection_version == 0 {
            return Err(BootstrapError::InvalidVersion);
        }
        if tables.len() == 0 || tables.len() > MAX_SNAPSHOT_TABLES || !check_tables(&tables) {
            return Err(BootstrapError::InvalidTableSet);
        }
        Ok(
            SnapshotDescriptor {
                snapshot_id: snapshot_id.to_owned(),
                consistent_lsn,
                schema_version,
                projection_version,
                tables,
            },
        )
    }

    /// The name of the snapshot.
    pub fn snapshot_id(&self) -> (id: &str)
        ensures
            id@ == self@.snapshot_id,
    {
        self.snapshot_id.as_str()
    }

    /// The log position that the snapshot is consistent with.
    pub fn consistent_lsn(&self) -> (lsn: LogSequenceNumber)
        ensures
            lsn == self@.consistent_lsn,
    {
        self.consistent_lsn
    }

    /// The version of the schema.
    pub fn schema_version(&self) -> (version: u16)
        ensures
            version == self@.schema_version,
    {
        self.schema_version
    }

    /// The version of the projection.
    pub fn projection_version(&self) -> (version: u16)
        ensures
            version == self@.projection_version,
    {
        self.projection_version
    }

    /// The tables in ascending order.
    pub fn tables(&self) -> (tables: &[u32])
        ensures
            tables@ == self@.tables,
            self@.error() is None,
    {
        proof {
            use_type_invariant(self);
        }
        self.tables.as_slice()
    }
}

// ---------------------------------------------------------------------------------------------
// Bootstrap state
// ---------------------------------------------------------------------------------------------

/// How far a bootstrap has come.
#[derive(Clone, Copy, Debug, PartialEq, Eq, Structural)]
pub struct BootstrapProgress {
    pub rows_read: u64,
    pub durable_lsn: LogSequenceNumber,
    pub applied_lsn: LogSequenceNumber,
    pub replayed_lsn: LogSequenceNumber,
    pub generation_candidate: GenerationId,
}

/// No progress at all.
pub open spec fn no_progress() -> BootstrapProgress {
    BootstrapProgress {
        rows_read: 0,
        durable_lsn: LogSequenceNumber(0),
        applied_lsn: LogSequenceNumber(0),
        replayed_lsn: LogSequenceNumber(0),
        generation_candidate: GenerationId(0),
    }
}

impl Default for BootstrapProgress {
    fn default() -> (progress: Self)
        ensures
            progress == no_progress(),
    {
        BootstrapProgress {
            rows_read: 0,
            durable_lsn: LogSequenceNumber::zero(),
            applied_lsn: LogSequenceNumber::zero(),
            replayed_lsn: LogSequenceNumber::zero(),
            generation_candidate: GenerationId::unpublished(),
        }
    }
}

impl BootstrapProgress {
    /// The number of snapshot rows read.
    pub fn rows_read(self) -> (rows: u64)
        ensures
            rows == self.rows_read,
    {
        self.rows_read
    }

    /// The position up to which everything is durable.
    pub fn durable_lsn(self) -> (lsn: LogSequenceNumber)
        ensures
            lsn == self.durable_lsn,
    {
        self.durable_lsn
    }

    /// The position up to which everything is applied.
    pub fn applied_lsn(self) -> (lsn: LogSequenceNumber)
        ensures
            lsn == self.applied_lsn,
    {
        self.applied_lsn
    }

    /// The position up to which the log was replayed.
    pub fn replayed_lsn(self) -> (lsn: LogSequenceNumber)
        ensures
            lsn == self.replayed_lsn,
    {
        self.replayed_lsn
    }

    /// The generation that is being built.
    pub fn generation_candidate(self) -> (generation: GenerationId)
        ensures
            generation == self.generation_candidate,
    {
        self.generation_candidate
    }
}

/// State of a bootstrap.
#[verifier::ext_equal]
pub struct BootstrapView {
    pub phase: BootstrapPhase,
    pub descriptor: Option<DescriptorView>,
    pub progress: BootstrapProgress,
    pub validation_high_water: Option<LogSequenceNumber>,
}

/// What a step returns and the state behind it.
pub type BootstrapStep = (BootstrapView, Result<(), BootstrapError>);

impl BootstrapView {
    /// The state before anything happened.
    pub open spec fn empty() -> BootstrapView {
        BootstrapView {
            phase: BootstrapPhase::Empty,
            descriptor: None,
            progress: no_progress(),
            validation_high_water: None,
        }
    }

    /// Why a step of this phase on this snapshot is refused, if so.
    pub open spec fn gate(self, expected: BootstrapPhase, snapshot_id: Seq<char>) -> Option<
        BootstrapError,
    > {
        if self.phase != expected {
            Some(BootstrapError::InvalidPhase { expected, actual: self.phase })
        } else if !(self.descriptor matches Some(descriptor) && descriptor.snapshot_id
            == snapshot_id) {
            Some(BootstrapError::SnapshotMismatch)
        } else {
            None
        }
    }

    /// The state after a snapshot began.
    pub open spec fn begun(
        self,
        descriptor: DescriptorView,
        generation: GenerationId,
    ) -> BootstrapStep {
        if self.phase != BootstrapPhase::Empty {
            (
                self,
                Err(
                    BootstrapError::InvalidPhase {
                        expected: BootstrapPhase::Empty,
                        actual: self.phase,
                    },
                ),
            )
        } else if generation.0 == 0 {
            (self, Err(BootstrapError::InvalidGeneration))
        } else {
            (
                BootstrapView {
                    phase: BootstrapPhase::Snapshotting,
                    descriptor: Some(descriptor),
                    progress: BootstrapProgress {
                        generation_candidate: generation,
                        ..self.progress
                    },
                    ..self
                },
                Ok(()),
            )
        }
    }

    /// The state after more snapshot rows.
    pub open spec fn with_rows(self, snapshot_id: Seq<char>, rows: u64) -> BootstrapStep {
        match self.gate(BootstrapPhase::Snapshotting, snapshot_id) {
            Some(error) => (self, Err(error)),
            None => if self.progress.rows_read + rows > u64::MAX {
                (self, Err(BootstrapError::ProgressOverflow))
            } else if self.progress.rows_read + rows > MAX_SNAPSHOT_ROWS {
                (self, Err(BootstrapError::SnapshotRowLimitExceeded))
            } else {
                (
                    BootstrapView {
                        progress: BootstrapProgress {
                            rows_read: (self.progress.rows_read + rows) as u64,
                            ..self.progress
                        },
                        ..self
                    },
                    Ok(()),
                )
            },
        }
    }

    /// The state after the snapshot was read to its end.
    pub open spec fn snapshot_finished(self, snapshot_id: Seq<char>) -> BootstrapStep {
        match self.gate(BootstrapPhase::Snapshotting, snapshot_id) {
            Some(error) => (self, Err(error)),
            None => {
                let lsn = self.descriptor->Some_0.consistent_lsn;
                (
                    BootstrapView {
                        phase: BootstrapPhase::ReplayingWal,
                        progress: BootstrapProgress {
                            replayed_lsn: lsn,
                            durable_lsn: lsn,
                            applied_lsn: lsn,
                            ..self.progress
                        },
                        ..self
                    },
                    Ok(()),
                )
            },
        }
    }

    /// The state after a stretch of the log was replayed.
    pub open spec fn replayed(
        self,
        snapshot_id: Seq<char>,
        start: LogSequenceNumber,
        end: LogSequenceNumber,
        durable: LogSequenceNumber,
        applied: LogSequenceNumber,
    ) -> BootstrapStep {
        match self.gate(BootstrapPhase::ReplayingWal, snapshot_id) {
            Some(error) => (self, Err(error)),
            None => if start != self.progress.replayed_lsn {
                (
                    self,
                    Err(
                        BootstrapError::WalGap {
                            expected: self.progress.replayed_lsn,
                            actual: start,
                        },
                    ),
                )
            } else if end.0 < self.progress.replayed_lsn.0 || durable.0
                < self.progress.durable_lsn.0 || applied.0 < self.progress.applied_lsn.0 {
                (self, Err(BootstrapError::ProgressRegression))
            } else if durable.0 > end.0 || applied.0 > durable.0 {
                (self, Err(BootstrapError::InvalidWalProgress))
            } else {
                (
                    BootstrapView {
                        progress: BootstrapProgress {
                            replayed_lsn: end,
                            durable_lsn: durable,
                            applied_lsn: applied,
                            ..self.progress
                        },
                        ..self
                    },
                    Ok(()),
                )
            },
        }
    }

    /// The state after validation began.
    pub open spec fn validating(
        self,
        snapshot_id: Seq<char>,
        high_water: LogSequenceNumber,
    ) -> BootstrapStep {
        match self.gate(BootstrapPhase::ReplayingWal, snapshot_id) {
            Some(error) => (self, Err(error)),
            None => if self.progress.replayed_lsn.0 < high_water.0 || self.progress.durable_lsn.0
                < high_water.0 || self.progress.applied_lsn.0 < high_water.0 {
                (
                    self,
                    Err(
                        BootstrapError::CatchupIncomplete {
                            high_water,
                            applied: self.progress.applied_lsn,
                        },
                    ),
                )
            } else {
                (
                    BootstrapView {
                        phase: BootstrapPhase::Validating,
                        validation_high_water: Some(high_water),
                        ..self
                    },
                    Ok(()),
                )
            },
        }
    }

    /// The state after validation succeeded.
    pub open spec fn made_ready(self, snapshot_id: Seq<char>) -> BootstrapStep {
        match self.gate(BootstrapPhase::Validating, snapshot_id) {
            Some(error) => (self, Err(error)),
            None => if self.validation_high_water is None {
                (self, Err(BootstrapError::ValidationMissing))
            } else {
                (BootstrapView { phase: BootstrapPhase::Ready, ..self }, Ok(()))
            },
        }
    }

    /// The state after the bootstrap was given up.
    pub open spec fn failed(self) -> BootstrapView {
        BootstrapView { phase: BootstrapPhase::Failed, ..self }
    }

    /// What holds of every bootstrap: what is applied is durable, what is durable was replayed,
    /// and past the snapshot nothing lies before it. A validated or ready one has applied
    /// everything up to its high-water mark.
    pub open spec fn wf(self) -> bool {
        &&& self.progress.applied_lsn.0 <= self.progress.durable_lsn.0
            <= self.progress.replayed_lsn.0
        &&& self.progress.rows_read <= MAX_SNAPSHOT_ROWS
        &&& self.phase == BootstrapPhase::ReplayingWal || self.phase == BootstrapPhase::Validating
            || self.phase == BootstrapPhase::Ready ==> {
            &&& self.descriptor matches Some(descriptor)
            &&& descriptor.consistent_lsn.0 <= self.progress.applied_lsn.0
        }
        &&& self.phase == BootstrapPhase::Validating || self.phase == BootstrapPhase::Ready ==> {
            &&& self.validation_high_water matches Some(high_water)
            &&& high_water.0 <= self.progress.applied_lsn.0
        }
    }
}

/// The state machine of a bootstrap.
#[derive(Debug, PartialEq, Eq)]
pub struct BootstrapState {
    phase: BootstrapPhase,
    descriptor: Option<SnapshotDescriptor>,
    progress: BootstrapProgress,
    validation_high_water: Option<LogSequenceNumber>,
}

impl View for BootstrapState {
    type V = BootstrapView;

    closed spec fn view(&self) -> BootstrapView {
        BootstrapView {
            phase: self.phase,
            descriptor: match self.descriptor {
                Some(descriptor) => Some(descriptor@),
                None => None,
            },
            progress: self.progress,
            validation_high_water: self.validation_high_water,
        }
    }
}

impl Clone for BootstrapState {
    fn clone(&self) -> (copy: Self)
        ensures
            copy@ == self@,
    {
        BootstrapState {
            phase: self.phase,
            descriptor: match &self.descriptor {
                Some(descriptor) => Some(descriptor.clone()),
                None => None,
            },
            progress: self.progress,
            validation_high_water: self.validation_high_water,
        }
    }
}

impl Default for BootstrapState {
    fn default() -> (state: Self)
        ensures
            state@ == BootstrapView::empty(),
    {
        BootstrapState::empty()
    }
}

impl BootstrapState {
    /// The state before anything happened.
    pub fn empty() -> (state: Self)
        ensures
            state@ == BootstrapView::empty(),
    {
        BootstrapState {
            phase: BootstrapPhase::Empty,
            descriptor: None,
            progress: BootstrapProgress::default(),
            validation_high_water: None,
        }
    }

    /// Where the bootstrap stands.
    pub fn phase(&self) -> (phase: BootstrapPhase)
        ensures
            phase == self@.phase,
    {
        self.phase
    }

    /// How far the bootstrap has come.
    pub fn progress(&self) -> (progress: BootstrapProgress)
        ensures
            progress == self@.progress,
    {
        self.progress
    }

    /// The snapshot in hand.
    pub fn descriptor(&self) -> (descriptor: Option<&SnapshotDescriptor>)
        ensures
            match descriptor {
                Some(descriptor) => self@.descriptor == Some(descriptor@),
                None => self@.descriptor is None,
            },
    {
        self.descriptor.as_ref()
    }

    /// Begins a snapshot for a generation.
    pub fn begin_snapshot(
        &mut self,
        descriptor: SnapshotDescriptor,
        generation_candidate: GenerationId,
    ) -> (result: Result<(), BootstrapError>)
        ensures
            (final(self)@, result) == old(self)@.begun(descriptor@, generation_candidate),
    {
        self.require_phase(BootstrapPhase::Empty)?;
        if generation_candidate.0 == 0 {
            return Err(BootstrapError::InvalidGeneration);
        }
        self.progress.generation_candidate = generation_candidate;
        self.descriptor = Some(descriptor);
        self.phase = BootstrapPhase::Snapshotting;
        Ok(())
    }

    /// Counts snapshot rows.
    pub fn record_snapshot_rows(&mut self, snapshot_id: &str, rows: u64) -> (result: Result<
        (),
        BootstrapError,
    >)
        ensures
            (final(self)@, result) == old(self)@.with_rows(snapshot_id@, rows),
    {
        self.require_phase(BootstrapPhase::Snapshotting)?;
        self.require_snapshot(snapshot_id)?;
        let next: u64 = match self.progress.rows_read.checked_add(rows) {
            Some(next) => next,
            None => return Err(BootstrapError::ProgressOverflow),
        };
        if next > MAX_SNAPSHOT_ROWS {
            return Err(BootstrapError::SnapshotRowLimitExceeded);
        }
        self.progress.rows_read = next;
        Ok(())
    }

    /// Ends the snapshot; replay continues from the position it is consistent with.
    pub fn finish_snapshot(&mut self, snapshot_id: &str) -> (result: Result<(), BootstrapError>)
        ensures
            (final(self)@, result) == old(self)@.snapshot_finished(snapshot_id@),
    {
        self.require_phase(BootstrapPhase::Snapshotting)?;
        let consistent_lsn = self.require_snapshot(snapshot_id)?;
        self.progress.replayed_lsn = consistent_lsn;
        self.progress.durable_lsn = consistent_lsn;
        self.progress.applied_lsn = consistent_lsn;
        self.phase = BootstrapPhase::ReplayingWal;
        Ok(())
    }

    /// Takes note of a stretch of the log, which has to start where the last one ended.
    pub fn replay_wal(
        &mut self,
        snapshot_id: &str,
        start_lsn: LogSequenceNumber,
        end_lsn: LogSequenceNumber,
        durable_lsn: LogSequenceNumber,
        applied_lsn: LogSequenceNumber,
    ) -> (result: Result<(), BootstrapError>)
        ensures
            (final(self)@, result) == old(self)@.replayed(
                snapshot_id@,
                start_lsn,
                end_lsn,
                durable_lsn,
                applied_lsn,
            ),
    {
        self.require_phase(BootstrapPhase::ReplayingWal)?;
        self.require_snapshot(snapshot_id)?;
        if start_lsn != self.progress.replayed_lsn {
            return Err(
                BootstrapError::WalGap {
                    expected: self.progress.replayed_lsn,
                    actual: start_lsn,
                },
            );
        }
        if end_lsn.0 < start_lsn.0 || durable_lsn.0 < self.progress.durable_lsn.0 || applied_lsn.0
            < self.progress.applied_lsn.0 {
            return Err(BootstrapError::ProgressRegression);
        }
        if durable_lsn.0 > end_lsn.0 || applied_lsn.0 > durable_lsn.0 {
            return Err(BootstrapError::InvalidWalProgress);
        }
        self.progress.replayed_lsn = end_lsn;
        self.progress.durable_lsn = durable_lsn;
        self.progress.applied_lsn = applied_lsn;
        Ok(())
    }

    /// Begins validation, once everything up to `high_water` is applied.
    pub fn begin_validation(&mut self, snapshot_id: &str, high_water: LogSequenceNumber) -> (result:
        Result<(), BootstrapError>)
        ensures
            (final(self)@, result) == old(self)@.validating(snapshot_id@, high_water),
    {
        self.require_phase(BootstrapPhase::ReplayingWal)?;
        self.require_snapshot(snapshot_id)?;
        if self.progress.replayed_lsn.0 < high_water.0 || self.progress.durable_lsn.0 < high_water.0
            || self.progress.applied_lsn.0 < high_water.0 {
            return Err(
                BootstrapError::CatchupIncomplete {
                    high_water,
                    applied: self.progress.applied_lsn,
                },
            );
        }
        self.validation_high_water = Some(high_water);
        self.phase = BootstrapPhase::Validating;
        Ok(())
    }

    /// Ends validation with success.
    pub fn mark_ready(&mut self, snapshot_id: &str) -> (result: Result<(), BootstrapError>)
        ensures
            (final(self)@, result) == old(self)@.made_ready(snapshot_id@),
    {
        self.require_phase(BootstrapPhase::Validating)?;
        self.require_snapshot(snapshot_id)?;
        if self.validation_high_water.is_none() {
            return Err(BootstrapError::ValidationMissing);
        }
        self.phase = BootstrapPhase::Ready;
        Ok(())
    }

    /// Gives the bootstrap up.
    pub fn fail(&mut self)
        ensures
            final(self)@ == old(self)@.failed(),
    {
        self.phase = BootstrapPhase::Failed;
    }

    fn require_phase(&self, expected: BootstrapPhase) -> (result: Result<(), BootstrapError>)
        ensures
            result == (if self@.phase == expected {
                Ok::<(), BootstrapError>(())
            } else {
                Err(BootstrapError::InvalidPhase { expected, actual: self@.phase })
            }),
    {
        if self.phase == expected {
            Ok(())
        } else {
            Err(BootstrapError::InvalidPhase { expected, actual: self.phase })
        }
    }

    fn require_snapshot(&self, snapshot_id: &str) -> (result: Result<
        LogSequenceNumber,
        BootstrapError,
    >)
        ensures
            result == (match self@.descriptor {
                Some(descriptor) => if descriptor.snapshot_id == snapshot_id@ {
                    Ok::<LogSequenceNumber, BootstrapError>(descriptor.consistent_lsn)
                } else {
                    Err(BootstrapError::SnapshotMismatch)
                },
                None => Err(BootstrapError::SnapshotMismatch),
            }),
    {
        match &self.descriptor {
            Some(descriptor) => {
                if same_text(descriptor.snapshot_id(), snapshot_id) {
                    Ok(descriptor.consistent_lsn())
                } else {
                    Err(BootstrapError::SnapshotMismatch)
                }
            },
            None => Err(BootstrapError::SnapshotMismatch),
        }
    }
}

/// Every step keeps the positions in order and past the snapshot.
pub proof fn law_bootstrap_stays_well_formed(
    state: BootstrapView,
    descriptor: DescriptorView,
    generation: GenerationId,
    snapshot_id: Seq<char>,
    rows: u64,
    start: LogSequenceNumber,
    end: LogSequenceNumber,
    durable: LogSequenceNumber,
    applied: LogSequenceNumber,
    high_water: LogSequenceNumber,
)
    requires
        state.wf(),
    ensures
        BootstrapView::empty().wf(),
        state.begun(descriptor, generation).0.wf(),
        state.with_rows(snapshot_id, rows).0.wf(),
        state.snapshot_finished(snapshot_id).0.wf(),
        state.replayed(snapshot_id, start, end, durable, applied).0.wf(),
        state.validating(snapshot_id, high_water).0.wf(),
        state.made_ready(snapshot_id).0.wf(),
        state.failed().wf(),
{
}

/// A bootstrap becomes ready only out of validation, which begins only out of replay, which begins
/// only out of the snapshot.
pub proof fn law_ready_only_after_snapshot_replay_and_validation(
    state: BootstrapView,
    descriptor: DescriptorView,
    generation: GenerationId,
    snapshot_id: Seq<char>,
    rows: u64,
    start: LogSequenceNumber,
    end: LogSequenceNumber,
    durable: LogSequenceNumber,
    applied: LogSequenceNumber,
    high_water: LogSequenceNumber,
)
    ensures
        state.made_ready(snapshot_id).1 is Ok ==> state.phase == BootstrapPhase::Validating
            && state.validation_high_water is Some,
        state.validating(snapshot_id, high_water).1 is Ok ==> state.phase
            == BootstrapPhase::ReplayingWal && high_water.0 <= state.progress.applied_lsn.0,
        state.snapshot_finished(snapshot_id).1 is Ok ==> state.phase
            == BootstrapPhase::Snapshotting,
        state.begun(descriptor, generation).1 is Ok ==> state.phase == BootstrapPhase::Empty,
        state.with_rows(snapshot_id, rows).0.phase == state.phase,
        state.replayed(snapshot_id, start, end, durable, applied).0.phase == state.phase,
{
}

/// Replay is gap-free and never runs backwards, and a refused step changes nothing.
pub proof fn law_replay_is_gap_free_and_monotone(
    state: BootstrapView,
    snapshot_id: Seq<char>,
    start: LogSequenceNumber,
    end: LogSequenceNumber,
    durable: LogSequenceNumber,
    applied: LogSequenceNumber,
)
    ensures
        ({
            let (next, result) = state.replayed(snapshot_id, start, end, durable, applied);
            &&& result is Ok ==> {
                &&& start == state.progress.replayed_lsn
                &&& state.progress.replayed_lsn.0 <= next.progress.replayed_lsn.0
                &&& state.progress.durable_lsn.0 <= next.progress.durable_lsn.0
                &&& state.progress.applied_lsn.0 <= next.progress.applied_lsn.0
                &&& next.progress.replayed_lsn == end
            }
            &&& result is Err ==> next == state
        }),
{
}

// ---------------------------------------------------------------------------------------------
// Snapshot rows
// ---------------------------------------------------------------------------------------------

/// How two keys compare.
#[derive(Clone, Copy, Debug, PartialEq, Eq, Structural)]
pub enum KeyOrder {
    Before,
    Same,
    Behind,
}

/// How `left` stands to `right` in byte-wise lexicographic order.
pub open spec fn key_order(left: Seq<u8>, right: Seq<u8>) -> KeyOrder
    decreases left.len(),
{
    if left.len() == 0 {
        if right.len() == 0 {
            KeyOrder::Same
        } else {
            KeyOrder::Before
        }
    } else if right.len() == 0 {
        KeyOrder::Behind
    } else if left[0] < right[0] {
        KeyOrder::Before
    } else if left[0] > right[0] {
        KeyOrder::Behind
    } else {
        key_order(left.drop_first(), right.drop_first())
    }
}

fn compare_keys(left: &[u8], right: &[u8]) -> (order: KeyOrder)
    ensures
        order == key_order(left@, right@),
{
    let mut index: usize = 0;
    assert(left@.skip(0) =~= left@);
    assert(right@.skip(0) =~= right@);
    while index < left.len() && index < right.len()
        invariant
            index <= left@.len(),
            index <= right@.len(),
            key_order(left@, right@) == key_order(
                left@.skip(index as int),
                right@.skip(index as int),
            ),
        decreases left@.len() - index,
    {
        assert(left@.skip(index as int).drop_first() =~= left@.skip(index + 1));
        assert(right@.skip(index as int).drop_first() =~= right@.skip(index + 1));
        if left[index] < right[index] {
            return KeyOrder::Before;
        }
        if left[index] > right[index] {
            return KeyOrder::Behind;
        }
        index = index + 1;
    }
    if index < right.len() {
        KeyOrder::Before
    } else if index < left.len() {
        KeyOrder::Behind
    } else {
        KeyOrder::Same
    }
}

/// Keys compare as the same exactly where they are the same, and swapping two keys turns their
/// order round.
pub proof fn law_key_order_is_exact(left: Seq<u8>, right: Seq<u8>)
    ensures
        key_order(left, right) == KeyOrder::Same <==> left == right,
        key_order(left, right) == KeyOrder::Before <==> key_order(right, left) == KeyOrder::Behind,
    decreases left.len(),
{
    if left.len() > 0 && right.len() > 0 {
        law_key_order_is_exact(left.drop_first(), right.drop_first());
        if left[0] == right[0] && left.drop_first() == right.drop_first() {
            assert(left =~= seq![left[0]] + left.drop_first());
            assert(right =~= seq![right[0]] + right.drop_first());
        }
    } else if left.len() == 0 && right.len() == 0 {
        assert(left =~= right);
    }
}

/// Contents of a `SnapshotRow`.
#[verifier::ext_equal]
pub struct RowView {
    pub table_id: u32,
    pub key: Seq<u8>,
    pub value: Seq<u8>,
}

impl RowView {
    /// Why the parts do not make a row, if so.
    pub open spec fn error(self) -> Option<BootstrapError> {
        if self.table_id == 0 || self.key.len() == 0 {
            Some(BootstrapError::InvalidSnapshotRow)
        } else if self.key.len() > MAX_SNAPSHOT_KEY_BYTES {
            Some(BootstrapError::SnapshotKeyTooLarge(self.key.len() as usize))
        } else if self.value.len() > MAX_SNAPSHOT_VALUE_BYTES {
            Some(BootstrapError::SnapshotValueTooLarge(self.value.len() as usize))
        } else {
            None
        }
    }
}

/// One bounded row of a snapshot.
#[derive(Debug, PartialEq, Eq)]
pub struct SnapshotRow {
    table_id: u32,
    key: Vec<u8>,
    value: Vec<u8>,
}

impl View for SnapshotRow {
    type V = RowView;

    closed spec fn view(&self) -> RowView {
        RowView { table_id: self.table_id, key: self.key@, value: self.value@ }
    }
}

impl Clone for SnapshotRow {
    fn clone(&self) -> (copy: Self)
        ensures
            copy@ == self@,
    {
        proof {
            use_type_invariant(self);
        }
        SnapshotRow {
            table_id: self.table_id,
            key: vstd::slice::slice_to_vec(self.key.as_slice()),
            value: vstd::slice::slice_to_vec(self.value.as_slice()),
        }
    }
}

impl SnapshotRow {
    #[verifier::type_invariant]
    spec fn bounded(self) -> bool {
        self@.error() is None
    }

    /// A row from its parts.
    pub fn try_new(table_id: u32, key: Vec<u8>, value: Vec<u8>) -> (result: Result<
        Self,
        BootstrapError,
    >)
        ensures
            ({
                let parts = RowView { table_id, key: key@, value: value@ };
                match result {
                    Ok(row) => parts.error() is None && row@ == parts,
                    Err(error) => parts.error() == Some(error),
                }
            }),
    {
        if table_id == 0 || key.len() == 0 {
            return Err(BootstrapError::InvalidSnapshotRow);
        }
        if key.len() > MAX_SNAPSHOT_KEY_BYTES {
            return Err(BootstrapError::SnapshotKeyTooLarge(key.len()));
        }
        if value.len() > MAX_SNAPSHOT_VALUE_BYTES {
            return Err(BootstrapError::SnapshotValueTooLarge(value.len()));
        }
        Ok(SnapshotRow { table_id, key, value })
    }

    /// The table of the row.
    pub fn table_id(&self) -> (table_id: u32)
        ensures
            table_id == self@.table_id,
    {
        self.table_id
    }

    /// The key of the row.
    pub fn key(&self) -> (key: &[u8])
        ensures
            key@ == self@.key,
    {
        self.key.as_slice()
    }

    /// The value of the row.
    pub fn value(&self) -> (value: &[u8])
        ensures
            value@ == self@.value,
    {
        self.value.as_slice()
    }
}

/// Whether a row was new.
#[derive(Clone, Copy, Debug, PartialEq, Eq, Structural)]
pub enum SnapshotAppend {
    Applied,
    Duplicate,
}

/// State of a `SnapshotSink`.
#[verifier::ext_equal]
pub struct SinkView {
    pub descriptor: DescriptorView,
    pub table_index: nat,
    pub last_row: Option<RowView>,
    pub row_count: u64,
    pub aborted: bool,
}

impl SinkView {
    /// A sink before its first row.
    pub open spec fn begun(descriptor: DescriptorView) -> SinkView {
        SinkView { descriptor, table_index: 0, last_row: None, row_count: 0, aborted: false }
    }

    /// Why the sink takes nothing for this table, if so.
    pub open spec fn gate(self, table_id: u32) -> Option<BootstrapError> {
        if self.aborted {
            Some(BootstrapError::SnapshotAborted)
        } else if self.table_index >= self.descriptor.tables.len() {
            Some(BootstrapError::SnapshotAlreadyComplete)
        } else if self.descriptor.tables[self.table_index as int] != table_id {
            Some(
                BootstrapError::UnexpectedSnapshotTable {
                    expected: self.descriptor.tables[self.table_index as int],
                    actual: table_id,
                },
            )
        } else {
            None
        }
    }

    /// The state after a row was taken.
    pub open spec fn taken(self, row: RowView) -> SinkView {
        SinkView { last_row: Some(row), row_count: (self.row_count + 1) as u64, ..self }
    }

    /// The state after a row, and whether it was new.
    pub open spec fn appended(self, row: RowView) -> (
        SinkView,
        Result<SnapshotAppend, BootstrapError>,
    ) {
        let order = match self.last_row {
            Some(previous) => key_order(row.key, previous.key),
            None => KeyOrder::Behind,
        };
        if self.gate(row.table_id) is Some {
            (self, Err(self.gate(row.table_id)->Some_0))
        } else if order == KeyOrder::Before {
            (self, Err(BootstrapError::SnapshotKeyOrder { table_id: row.table_id }))
        } else if order == KeyOrder::Same {
            if row.value == self.last_row->Some_0.value {
                (self, Ok(SnapshotAppend::Duplicate))
            } else {
                (self, Err(BootstrapError::ConflictingSnapshotRow { table_id: row.table_id }))
            }
        } else if self.row_count >= MAX_SNAPSHOT_ROWS {
            (self, Err(BootstrapError::SnapshotRowLimitExceeded))
        } else {
            (self.taken(row), Ok(SnapshotAppend::Applied))
        }
    }

    /// The state after a table was completed.
    pub open spec fn completed(self, table_id: u32) -> (SinkView, Result<(), BootstrapError>) {
        match self.gate(table_id) {
            Some(error) => (self, Err(error)),
            None => (
                SinkView { table_index: self.table_index + 1, last_row: None, ..self },
                Ok(()),
            ),
        }
    }

    /// What a finished snapshot leads to.
    pub open spec fn finished(self) -> Result<SnapshotCompletion, BootstrapError> {
        if self.aborted {
            Err(BootstrapError::SnapshotAborted)
        } else if self.table_index != self.descriptor.tables.len() {
            Err(BootstrapError::SnapshotIncomplete)
        } else {
            Ok(
                SnapshotCompletion {
                    replay_after_lsn: self.descriptor.consistent_lsn,
                    row_count: self.row_count,
                },
            )
        }
    }
}

/// Takes the rows of a snapshot table by table, each in ascending order of keys.
#[derive(Debug, PartialEq, Eq)]
pub struct SnapshotSink {
    descriptor: SnapshotDescriptor,
    table_index: usize,
    last_row: Option<SnapshotRow>,
    row_count: u64,
    aborted: bool,
}

impl View for SnapshotSink {
    type V = SinkView;

    closed spec fn view(&self) -> SinkView {
        SinkView {
            descriptor: self.descriptor@,
            table_index: self.table_index as nat,
            last_row: match self.last_row {
                Some(row) => Some(row@),
                None => None,
            },
            row_count: self.row_count,
            aborted: self.aborted,
        }
    }
}

impl Clone for SnapshotSink {
    fn clone(&self) -> (copy: Self)
        ensures
            copy@ == self@,
    {
        SnapshotSink {
            descriptor: self.descriptor.clone(),
            table_index: self.table_index,
            last_row: match &self.last_row {
                Some(row) => Some(row.clone()),
                None => None,
            },
            row_count: self.row_count,
            aborted: self.aborted,
        }
    }
}

impl SnapshotSink {
    /// A sink for the snapshot that `descriptor` describes.
    pub fn begin(descriptor: SnapshotDescriptor) -> (result: Result<Self, BootstrapError>)
        ensures
            result matches Ok(sink) && sink@ == SinkView::begun(descriptor@),
    {
        if descriptor.tables().len() == 0 {
            return Err(BootstrapError::InvalidTableSet);
        }
        Ok(
            SnapshotSink {
                descriptor,
                table_index: 0,
                last_row: None,
                row_count: 0,
                aborted: false,
            },
        )
    }

    /// Takes one row.
    pub fn append(&mut self, row: SnapshotRow) -> (result: Result<SnapshotAppend, BootstrapError>)
        ensures
            (final(self)@, result) == old(self)@.appended(row@),
    {
        self.ensure_table(row.table_id)?;
        if let Some(previous) = &self.last_row {
            match compare_keys(row.key.as_slice(), previous.key.as_slice()) {
                KeyOrder::Before => {
                    return Err(BootstrapError::SnapshotKeyOrder { table_id: row.table_id });
                },
                KeyOrder::Same => {
                    if same_bytes(row.value.as_slice(), previous.value.as_slice()) {
                        return Ok(SnapshotAppend::Duplicate);
                    }
                    return Err(BootstrapError::ConflictingSnapshotRow { table_id: row.table_id });
                },
                KeyOrder::Behind => {},
            }
        }
        if self.row_count >= MAX_SNAPSHOT_ROWS {
            return Err(BootstrapError::SnapshotRowLimitExceeded);
        }
        self.row_count = self.row_count + 1;
        self.last_row = Some(row);
        Ok(SnapshotAppend::Applied)
    }

    /// Ends the rows of a table.
    pub fn complete_table(&mut self, table_id: u32) -> (result: Result<(), BootstrapError>)
        ensures
            (final(self)@, result) == old(self)@.completed(table_id),
    {
        self.ensure_table(table_id)?;
        let count: usize = self.descriptor.tables().len();
        assert(self.table_index < count);
        self.table_index = self.table_index + 1;
        self.last_row = None;
        Ok(())
    }

    /// Ends the snapshot.
    pub fn finish(self) -> (result: Result<SnapshotCompletion, BootstrapError>)
        ensures
            result == self@.finished(),
    {
        if self.aborted {
            return Err(BootstrapError::SnapshotAborted);
        }
        if self.table_index != self.descriptor.tables().len() {
            return Err(BootstrapError::SnapshotIncomplete);
        }
        Ok(
            SnapshotCompletion {
                replay_after_lsn: self.descriptor.consistent_lsn(),
                row_count: self.row_count,
            },
        )
    }

    /// Gives the snapshot up.
    pub fn abort(&mut self)
        ensures
            final(self)@ == (SinkView { aborted: true, last_row: None, ..old(self)@ }),
    {
        self.aborted = true;
        self.last_row = None;
    }

    fn ensure_table(&self, table_id: u32) -> (result: Result<(), BootstrapError>)
        ensures
            result == (match self@.gate(table_id) {
                Some(error) => Err::<(), BootstrapError>(error),
                None => Ok(()),
            }),
    {
        if self.aborted {
            return Err(BootstrapError::SnapshotAborted);
        }
        let tables = self.descriptor.tables();
        if self.table_index >= tables.len() {
            return Err(BootstrapError::SnapshotAlreadyComplete);
        }
        let expected: u32 = tables[self.table_index];
        if table_id != expected {
            return Err(
                BootstrapError::UnexpectedSnapshotTable { expected, actual: table_id },
            );
        }
        Ok(())
    }
}

/// What a finished snapshot leads to.
#[derive(Clone, Copy, Debug, PartialEq, Eq, Structural)]
pub struct SnapshotCompletion {
    pub replay_after_lsn: LogSequenceNumber,
    pub row_count: u64,
}

impl SnapshotCompletion {
    /// The position behind which replay starts.
    pub fn replay_after_lsn(self) -> (lsn: LogSequenceNumber)
        ensures
            lsn == self.replay_after_lsn,
    {
        self.replay_after_lsn
    }

    /// The number of rows taken.
    pub fn row_count(self) -> (rows: u64)
        ensures
            rows == self.row_count,
    {
        self.row_count
    }
}

/// Rows of a table come in strictly ascending order of keys, and are counted once: taking the
/// row that was taken last again changes nothing.
pub proof fn law_snapshot_rows_ascend_and_are_idempotent(sink: SinkView, row: RowView)
    ensures
        sink.appended(row).1 == Ok::<SnapshotAppend, BootstrapError>(SnapshotAppend::Applied) ==> {
            &&& sink.last_row matches Some(previous) ==> key_order(row.key, previous.key)
                == KeyOrder::Behind
            &&& sink.appended(row).0.row_count == sink.row_count + 1
            &&& sink.appended(row).0.last_row == Some(row)
            &&& sink.appended(row).0.appended(row) == (sink.appended(row).0, Ok::<
                SnapshotAppend,
                BootstrapError,
            >(SnapshotAppend::Duplicate))
        },
        sink.appended(row).1 != Ok::<SnapshotAppend, BootstrapError>(SnapshotAppend::Applied)
            ==> sink.appended(row).0 == sink,
{
    law_key_order_is_exact(row.key, row.key);
}

/// An aborted snapshot takes nothing more and never finishes.
pub proof fn law_aborted_snapshot_never_finishes(sink: SinkView, row: RowView, table_id: u32)
    requires
        sink.aborted,
    ensures
        sink.finished() == Err::<SnapshotCompletion, BootstrapError>(
            BootstrapError::SnapshotAborted,
        ),
        sink.appended(row) == (sink, Err::<SnapshotAppend, BootstrapError>(
            BootstrapError::SnapshotAborted,
        )),
        sink.completed(table_id) == (sink, Err::<(), BootstrapError>(
            BootstrapError::SnapshotAborted,
        )),
{
}

/// A snapshot finishes only when every table was completed, in order.
pub proof fn law_snapshot_finishes_only_when_complete(sink: SinkView, table_id: u32)
    ensures
        sink.finished() is Ok ==> sink.table_index == sink.descriptor.tables.len(),
        sink.completed(table_id).1 is Ok ==> sink.descriptor.tables[sink.table_index as int]
            == table_id && sink.completed(table_id).0.table_index == sink.table_index + 1,
{
}

impl BootstrapPhase {
    /// The name of the phase.
    pub open spec fn spec_name(self) -> Seq<char> {
        match self {
            BootstrapPhase::Empty => "Empty"@,
            BootstrapPhase::Snapshotting => "Snapshotting"@,
            BootstrapPhase::ReplayingWal => "ReplayingWal"@,
            BootstrapPhase::Validating => "Validating"@,
            BootstrapPhase::Ready => "Ready"@,
            BootstrapPhase::Failed => "Failed"@,
        }
    }

    /// The name of the phase.
    pub fn name(&self) -> (name: &'static str)
        ensures
            name@ == self.spec_name(),
    {
        match self {
            BootstrapPhase::Empty => "Empty",
            BootstrapPhase::Snapshotting => "Snapshotting",
            BootstrapPhase::ReplayingWal => "ReplayingWal",
            BootstrapPhase::Validating => "Validating",
            BootstrapPhase::Ready => "Ready",
            BootstrapPhase::Failed => "Failed",
        }
    }
}

impl BootstrapError {
    /// The diagnostic text of this error.
    pub open spec fn spec_message(self) -> Seq<char> {
        match self {
            BootstrapError::InvalidSnapshotId => "InvalidSnapshotId"@,
            BootstrapError::InvalidSnapshotLsn => "InvalidSnapshotLsn"@,
            BootstrapError::InvalidVersion => "InvalidVersion"@,
            BootstrapError::InvalidTableSet => "InvalidTableSet"@,
            BootstrapError::InvalidGeneration => "InvalidGeneration"@,
            BootstrapError::InvalidPhase { expected, actual } => with_fields(
                "InvalidPhase"@,
                "expected"@,
                expected.spec_name(),
                "actual"@,
                actual.spec_name(),
            ),
            BootstrapError::SnapshotMismatch => "SnapshotMismatch"@,
            BootstrapError::ProgressOverflow => "ProgressOverflow"@,
            BootstrapError::ProgressRegression => "ProgressRegression"@,
            BootstrapError::WalGap { expected, actual } => with_fields(
                "WalGap"@,
                "expected"@,
                lsn_name(expected),
                "actual"@,
                lsn_name(actual),
            ),
            BootstrapError::InvalidWalProgress => "InvalidWalProgress"@,
            BootstrapError::CatchupIncomplete { high_water, applied } => with_fields(
                "CatchupIncomplete"@,
                "high_water"@,
                lsn_name(high_water),
                "applied"@,
                lsn_name(applied),
            ),
            BootstrapError::ValidationMissing => "ValidationMissing"@,
            BootstrapError::InvalidSnapshotRow => "InvalidSnapshotRow"@,
            BootstrapError::SnapshotKeyTooLarge(size) => {
                bracketed("SnapshotKeyTooLarge"@, decimal(size as int))
            },
            BootstrapError::SnapshotValueTooLarge(size) => {
                bracketed("SnapshotValueTooLarge"@, decimal(size as int))
            },
            BootstrapError::SnapshotRowLimitExceeded => "SnapshotRowLimitExceeded"@,
            BootstrapError::UnexpectedSnapshotTable { expected, actual } => with_fields(
                "UnexpectedSnapshotTable"@,
                "expected"@,
                decimal(expected as int),
                "actual"@,
                decimal(actual as int),
            ),
            BootstrapError::SnapshotKeyOrder { table_id } => with_field(
                "SnapshotKeyOrder"@,
                "table_id"@,
                decimal(table_id as int),
            ),
            BootstrapError::ConflictingSnapshotRow { table_id } => with_field(
                "ConflictingSnapshotRow"@,
                "table_id"@,
                decimal(table_id as int),
            ),
            BootstrapError::SnapshotAlreadyComplete => "SnapshotAlreadyComplete"@,
            BootstrapError::SnapshotIncomplete => "SnapshotIncomplete"@,
            BootstrapError::SnapshotAborted => "SnapshotAborted"@,
            BootstrapError::RecoveredBeforeBaseline { baseline, recovered } => with_fields(
                "RecoveredBeforeBaseline"@,
                "baseline"@,
                lsn_name(baseline),
                "recovered"@,
                lsn_name(recovered),
            ),
        }
    }

    /// The diagnostic text of this error.
    pub fn message(&self) -> (text: String)
        ensures
            text@ == self.spec_message(),
    {
        match self {
            BootstrapError::InvalidSnapshotId => "InvalidSnapshotId".to_owned(),
            BootstrapError::InvalidSnapshotLsn => "InvalidSnapshotLsn".to_owned(),
            BootstrapError::InvalidVersion => "InvalidVersion".to_owned(),
            BootstrapError::InvalidTableSet => "InvalidTableSet".to_owned(),
            BootstrapError::InvalidGeneration => "InvalidGeneration".to_owned(),
            BootstrapError::InvalidPhase { expected, actual } => with_fields_text(
                "InvalidPhase",
                "expected",
                expected.name(),
                "actual",
                actual.name(),
            ),
            BootstrapError::SnapshotMismatch => "SnapshotMismatch".to_owned(),
            BootstrapError::ProgressOverflow => "ProgressOverflow".to_owned(),
            BootstrapError::ProgressRegression => "ProgressRegression".to_owned(),
            BootstrapError::WalGap { expected, actual } => with_fields_text(
                "WalGap",
                "expected",
                lsn_text(*expected).as_str(),
                "actual",
                lsn_text(*actual).as_str(),
            ),
            BootstrapError::InvalidWalProgress => "InvalidWalProgress".to_owned(),
            BootstrapError::CatchupIncomplete { high_water, applied } => with_fields_text(
                "CatchupIncomplete",
                "high_water",
                lsn_text(*high_water).as_str(),
                "applied",
                lsn_text(*applied).as_str(),
            ),
            BootstrapError::ValidationMissing => "ValidationMissing".to_owned(),
            BootstrapError::InvalidSnapshotRow => "InvalidSnapshotRow".to_owned(),
            BootstrapError::SnapshotKeyTooLarge(size) => {
                numbered_text("SnapshotKeyTooLarge", *size as u64)
            },
            BootstrapError::SnapshotValueTooLarge(size) => {
                numbered_text("SnapshotValueTooLarge", *size as u64)
            },
            BootstrapError::SnapshotRowLimitExceeded => "SnapshotRowLimitExceeded".to_owned(),
            BootstrapError::UnexpectedSnapshotTable { expected, actual } => with_fields_text(
                "UnexpectedSnapshotTable",
                "expected",
                decimal_text(*expected as u64).as_str(),
                "actual",
                decimal_text(*actual as u64).as_str(),
            ),
            BootstrapError::SnapshotKeyOrder { table_id } => with_field_text(
                "SnapshotKeyOrder",
                "table_id",
                decimal_text(*table_id as u64).as_str(),
            ),
            BootstrapError::ConflictingSnapshotRow { table_id } => with_field_text(
                "ConflictingSnapshotRow",
                "table_id",
                decimal_text(*table_id as u64).as_str(),
            ),
            BootstrapError::SnapshotAlreadyComplete => "SnapshotAlreadyComplete".to_owned(),
            BootstrapError::SnapshotIncomplete => "SnapshotIncomplete".to_owned(),
            BootstrapError::SnapshotAborted => "SnapshotAborted".to_owned(),
            BootstrapError::RecoveredBeforeBaseline { baseline, recovered } => with_fields_text(
                "RecoveredBeforeBaseline",
                "baseline",
                lsn_text(*baseline).as_str(),
                "recovered",
                lsn_text(*recovered).as_str(),
            ),
        }
    }
}

/// Whether a bootstrap is in this phase of this snapshot.
pub open spec fn stands_in(
    state: BootstrapView,
    phase: BootstrapPhase,
    snapshot_id: Seq<char>,
) -> bool {
    state.phase == phase && (state.descriptor matches Some(descriptor) && descriptor.snapshot_id
        == snapshot_id)
}

/// A snapshot begins exactly in an empty bootstrap and for a real generation, and takes on both.
pub proof fn law_bootstrap_begins_exactly_once(
    state: BootstrapView,
    descriptor: DescriptorView,
    generation: GenerationId,
)
    ensures
        ({
            let (next, result) = state.begun(descriptor, generation);
            &&& result is Ok <==> state.phase == BootstrapPhase::Empty && generation.0 != 0
            &&& result is Err ==> next == state
            &&& result is Ok ==> {
                &&& next.phase == BootstrapPhase::Snapshotting
                &&& next.descriptor == Some(descriptor)
                &&& next.progress.generation_candidate == generation
                &&& next.progress.rows_read == state.progress.rows_read
                &&& next.progress.replayed_lsn == state.progress.replayed_lsn
            }
            &&& result == Err::<(), BootstrapError>(BootstrapError::InvalidGeneration)
                ==> generation.0 == 0
        }),
{
}

/// Rows are counted exactly while their snapshot is being read and as long as they are within
/// the limit, and every one of them is. The end of the snapshot is accepted exactly while it is
/// being read, and puts every position at the snapshot.
pub proof fn law_snapshot_phase_counts_every_row(
    state: BootstrapView,
    snapshot_id: Seq<char>,
    rows: u64,
)
    ensures
        ({
            let (next, result) = state.with_rows(snapshot_id, rows);
            &&& result is Ok <==> stands_in(state, BootstrapPhase::Snapshotting, snapshot_id)
                && state.progress.rows_read + rows <= 1_000_000_000
            &&& result is Ok ==> {
                &&& next.progress.rows_read == state.progress.rows_read + rows
                &&& next.phase == state.phase
                &&& next.descriptor == state.descriptor
                &&& next.progress.replayed_lsn == state.progress.replayed_lsn
                &&& next.progress.durable_lsn == state.progress.durable_lsn
                &&& next.progress.applied_lsn == state.progress.applied_lsn
                &&& next.progress.generation_candidate == state.progress.generation_candidate
            }
            &&& result is Err ==> next == state
        }),
        ({
            let (next, result) = state.snapshot_finished(snapshot_id);
            &&& result is Ok <==> stands_in(state, BootstrapPhase::Snapshotting, snapshot_id)
            &&& result is Ok ==> {
                &&& next.phase == BootstrapPhase::ReplayingWal
                &&& next.descriptor == state.descriptor
                &&& next.progress.replayed_lsn == state.descriptor->Some_0.consistent_lsn
                &&& next.progress.durable_lsn == state.descriptor->Some_0.consistent_lsn
                &&& next.progress.applied_lsn == state.descriptor->Some_0.consistent_lsn
                &&& next.progress.rows_read == state.progress.rows_read
                &&& next.progress.generation_candidate == state.progress.generation_candidate
            }
            &&& result is Err ==> next == state
        }),
{
}

/// A stretch of the log is taken exactly if it starts where the last one ended, nothing goes
/// back, nothing is applied that is not durable and nothing is durable that was not replayed.
/// All three positions move to those of the stretch.
pub proof fn law_replay_takes_every_sound_stretch(
    state: BootstrapView,
    snapshot_id: Seq<char>,
    start: LogSequenceNumber,
    end: LogSequenceNumber,
    durable: LogSequenceNumber,
    applied: LogSequenceNumber,
)
    ensures
        ({
            let (next, result) = state.replayed(snapshot_id, start, end, durable, applied);
            &&& result is Ok <==> {
                &&& stands_in(state, BootstrapPhase::ReplayingWal, snapshot_id)
                &&& start.0 == state.progress.replayed_lsn.0
                &&& state.progress.replayed_lsn.0 <= end.0
                &&& state.progress.durable_lsn.0 <= durable.0
                &&& state.progress.applied_lsn.0 <= applied.0
                &&& applied.0 <= durable.0 <= end.0
            }
            &&& result is Ok ==> {
                &&& next.progress.replayed_lsn == end
                &&& next.progress.durable_lsn == durable
                &&& next.progress.applied_lsn == applied
                &&& next.progress.rows_read == state.progress.rows_read
                &&& next.progress.generation_candidate == state.progress.generation_candidate
                &&& next.descriptor == state.descriptor
            }
            &&& result matches Err(BootstrapError::WalGap { expected, actual }) ==> {
                &&& expected == state.progress.replayed_lsn
                &&& actual == start
                &&& expected.0 != actual.0
            }
        }),
{
}

/// Validation begins exactly if everything up to the high-water mark was replayed, is durable and
/// is applied. A validated bootstrap becomes ready, and a ready one has lost nothing.
pub proof fn law_caught_up_bootstrap_becomes_ready(
    state: BootstrapView,
    snapshot_id: Seq<char>,
    high_water: LogSequenceNumber,
)
    ensures
        ({
            let (next, result) = state.validating(snapshot_id, high_water);
            &&& result is Ok <==> {
                &&& stands_in(state, BootstrapPhase::ReplayingWal, snapshot_id)
                &&& high_water.0 <= state.progress.replayed_lsn.0
                &&& high_water.0 <= state.progress.durable_lsn.0
                &&& high_water.0 <= state.progress.applied_lsn.0
            }
            &&& result is Err ==> next == state
            &&& result is Ok ==> {
                &&& next.phase == BootstrapPhase::Validating
                &&& next.validation_high_water == Some(high_water)
                &&& next.progress == state.progress
                &&& next.made_ready(snapshot_id).1 is Ok
                &&& next.made_ready(snapshot_id).0.phase == BootstrapPhase::Ready
                &&& next.made_ready(snapshot_id).0.progress == state.progress
                &&& next.made_ready(snapshot_id).0.descriptor == state.descriptor
                &&& next.made_ready(snapshot_id).0.validation_high_water == Some(high_water)
            }
        }),
        state.made_ready(snapshot_id).1 is Ok <==> stands_in(
            state,
            BootstrapPhase::Validating,
            snapshot_id,
        ) && state.validation_high_water is Some,
        state.failed().phase == BootstrapPhase::Failed,
        state.failed().progress == state.progress,
{
}

/// A step out of its phase is refused with both phases, and one for another snapshot as such.
pub proof fn law_misplaced_step_is_refused_truly(
    state: BootstrapView,
    expected: BootstrapPhase,
    snapshot_id: Seq<char>,
)
    ensures
        state.gate(expected, snapshot_id) is None <==> stands_in(state, expected, snapshot_id),
        state.phase != expected ==> state.gate(expected, snapshot_id) == Some(
            BootstrapError::InvalidPhase { expected, actual: state.phase },
        ),
        state.phase == expected && !stands_in(state, expected, snapshot_id) ==> state.gate(
            expected,
            snapshot_id,
        ) == Some(BootstrapError::SnapshotMismatch),
{
}

/// A snapshot is described exactly by a short ASCII name, a position, two versions and a number
/// of tables, none of them zero, the tables in ascending order. A row is one exactly if its table
/// and its key are there and its key and its value are within the limits.
pub proof fn law_descriptor_and_row_are_taken_exactly_if_sound(
    descriptor: DescriptorView,
    row: RowView,
)
    ensures
        descriptor.error() is None <==> {
            &&& 0 < descriptor.snapshot_id.len() <= 128
            &&& is_ascii_chars(descriptor.snapshot_id)
            &&& descriptor.consistent_lsn.0 > 0
            &&& descriptor.schema_version > 0
            &&& descriptor.projection_version > 0
            &&& 0 < descriptor.tables.len() <= 1_024
            &&& descriptor.tables[0] > 0
            &&& forall|i: int, j: int|
                0 <= i < j < descriptor.tables.len() ==> #[trigger] descriptor.tables[i]
                    < #[trigger] descriptor.tables[j]
        },
        row.error() is None <==> {
            &&& row.table_id > 0
            &&& 0 < row.key.len() <= 4_096
            &&& row.value.len() <= 16_777_216
        },
        row.error() matches Some(BootstrapError::SnapshotKeyTooLarge(len)) ==> row.key.len()
            <= usize::MAX ==> len == row.key.len() && 4_096 < len,
        row.error() matches Some(BootstrapError::SnapshotValueTooLarge(len)) ==> row.value.len()
            <= usize::MAX ==> len == row.value.len() && 16_777_216 < len,
{
    let tables = descriptor.tables;
    if tables.len() > 0 && tables[0] > 0 && (forall|i: int, j: int|
        0 <= i < j < tables.len() ==> #[trigger] tables[i] < #[trigger] tables[j]) {
        assert forall|i: int| 0 <= i < tables.len() implies #[trigger] tables[i] > 0 by {
            if i > 0 {
                assert(tables[0] < tables[i]);
            }
        }
        assert(tables_ascend(tables));
    }
}

/// Keys compare at the first byte in which they differ, and a key comes before every longer key
/// that begins with it.
pub proof fn law_keys_are_in_lexicographic_order(
    common: Seq<u8>,
    left: Seq<u8>,
    right: Seq<u8>,
)
    ensures
        left.len() > 0 && right.len() > 0 && left[0] < right[0] ==> key_order(
            common + left,
            common + right,
        ) == KeyOrder::Before,
        left.len() > 0 && right.len() > 0 && left[0] > right[0] ==> key_order(
            common + left,
            common + right,
        ) == KeyOrder::Behind,
        right.len() > 0 ==> key_order(common, common + right) == KeyOrder::Before,
        left.len() > 0 ==> key_order(common + left, common) == KeyOrder::Behind,
        key_order(common, common) == KeyOrder::Same,
    decreases common.len(),
{
    if common.len() > 0 {
        law_keys_are_in_lexicographic_order(common.drop_first(), left, right);
        assert((common + left).drop_first() =~= common.drop_first() + left);
        assert((common + right).drop_first() =~= common.drop_first() + right);
    } else {
        assert(common + left =~= left);
        assert(common + right =~= right);
    }
}

/// The sink after a run of rows.
pub open spec fn after_rows(sink: SinkView, rows: Seq<RowView>) -> SinkView
    decreases rows.len(),
{
    if rows.len() == 0 {
        sink
    } else {
        after_rows(sink, rows.drop_last()).appended(rows.last()).0
    }
}

/// Every row of the current table whose key lies behind the one before it is taken and counted,
/// and completing the table opens the next one in the order of the descriptor. The snapshot
/// finishes behind the last table, with the number of rows taken.
pub proof fn law_snapshot_takes_every_row_of_every_table(sink: SinkView, rows: Seq<RowView>)
    requires
        !sink.aborted,
        sink.table_index < sink.descriptor.tables.len(),
        sink.last_row is None,
        sink.row_count + rows.len() <= 1_000_000_000,
        forall|i: int|
            0 <= i < rows.len() ==> (#[trigger] rows[i]).table_id
                == sink.descriptor.tables[sink.table_index as int],
        forall|i: int, j: int|
            0 <= i && i + 1 == j && j < rows.len() ==> key_order(
                (#[trigger] rows[j]).key,
                (#[trigger] rows[i]).key,
            ) == KeyOrder::Behind,
    ensures
        ({
            let filled = after_rows(sink, rows);
            let table = sink.descriptor.tables[sink.table_index as int];
            let next = filled.completed(table).0;
            &&& filled.row_count == sink.row_count + rows.len()
            &&& filled.descriptor == sink.descriptor
            &&& filled.table_index == sink.table_index
            &&& !filled.aborted
            &&& rows.len() > 0 ==> filled.last_row == Some(rows.last())
            &&& rows.len() == 0 ==> filled.last_row is None
            &&& filled.completed(table).1 is Ok
            &&& next.row_count == filled.row_count
            &&& next.last_row is None
            &&& next.descriptor == sink.descriptor
            &&& !next.aborted
            &&& next.table_index == sink.table_index + 1
            &&& next.table_index == sink.descriptor.tables.len() ==> next.finished() == Ok::<
                SnapshotCompletion,
                BootstrapError,
            >(
                SnapshotCompletion {
                    replay_after_lsn: sink.descriptor.consistent_lsn,
                    row_count: (sink.row_count + rows.len()) as u64,
                },
            )
            &&& next.table_index < sink.descriptor.tables.len() ==> next.finished() == Err::<
                SnapshotCompletion,
                BootstrapError,
            >(BootstrapError::SnapshotIncomplete)
        }),
    decreases rows.len(),
{
    if rows.len() > 0 {
        let before = rows.drop_last();
        assert forall|i: int| 0 <= i < before.len() implies (#[trigger] before[i]).table_id
            == sink.descriptor.tables[sink.table_index as int] by {
            assert(before[i] == rows[i]);
        }
        assert forall|i: int, j: int|
            0 <= i && i + 1 == j && j < before.len() implies key_order(
            (#[trigger] before[j]).key,
            (#[trigger] before[i]).key,
        ) == KeyOrder::Behind by {
            assert(before[j] == rows[j] && before[i] == rows[i]);
        }
        law_snapshot_takes_every_row_of_every_table(sink, before);
        let last = rows.len() - 1;
        assert(rows.last() == rows[last]);
        if last > 0 {
            assert(before.last() == rows[last - 1]);
        }
    }
}

/// Each refusal of a row is true: the sink was aborted or complete, the row is of another table
/// than the current one, its key lies before the last one, or it is the last key with another
/// value. The same row again is no refusal.
pub proof fn law_refused_row_is_refused_truly(sink: SinkView, row: RowView)
    ensures
        sink.appended(row).1 matches Err(error) ==> match error {
            BootstrapError::SnapshotAborted => sink.aborted,
            BootstrapError::SnapshotAlreadyComplete => sink.descriptor.tables.len()
                <= sink.table_index,
            BootstrapError::UnexpectedSnapshotTable { expected, actual } => {
                &&& sink.table_index < sink.descriptor.tables.len()
                &&& expected == sink.descriptor.tables[sink.table_index as int]
                &&& actual == row.table_id
                &&& expected != actual
            },
            BootstrapError::SnapshotKeyOrder { table_id } => {
                &&& table_id == row.table_id
                &&& sink.last_row matches Some(previous)
                &&& key_order(row.key, previous.key) == KeyOrder::Before
            },
            BootstrapError::ConflictingSnapshotRow { table_id } => {
                &&& table_id == row.table_id
                &&& sink.last_row matches Some(previous)
                &&& row.key == previous.key
                &&& row.value != previous.value
            },
            BootstrapError::SnapshotRowLimitExceeded => sink.row_count >= 1_000_000_000,
            _ => false,
        },
        !sink.aborted && sink.table_index < sink.descriptor.tables.len() && row.table_id
            == sink.descriptor.tables[sink.table_index as int] && (sink.last_row matches Some(
            previous,
        ) && previous.key == row.key && previous.value == row.value) ==> sink.appended(row).1
            == Ok::<SnapshotAppend, BootstrapError>(SnapshotAppend::Duplicate),
{
    if let Some(previous) = sink.last_row {
        law_key_order_is_exact(row.key, previous.key);
    }
}

/// A bootstrap starts empty, and a snapshot starts at its first table with no row taken.
pub proof fn law_bootstrap_and_snapshot_start_with_nothing(descriptor: DescriptorView)
    ensures
        BootstrapView::empty().phase == BootstrapPhase::Empty,
        BootstrapView::empty().descriptor is None,
        BootstrapView::empty().progress.rows_read == 0,
        BootstrapView::empty().progress.replayed_lsn.0 == 0,
        BootstrapView::empty().progress.durable_lsn.0 == 0,
        BootstrapView::empty().progress.applied_lsn.0 == 0,
        BootstrapView::empty().validation_high_water is None,
        SinkView::begun(descriptor).descriptor == descriptor,
        SinkView::begun(descriptor).table_index == 0,
        SinkView::begun(descriptor).last_row is None,
        SinkView::begun(descriptor).row_count == 0,
        !SinkView::begun(descriptor).aborted,
{
}

} // verus!
