//! Live replication: acknowledgement, recovery, drivers, and the bootstrap below them.

use std::cell::{Cell, RefCell};
use std::convert::Infallible;
use std::rc::Rc;
use veyra::cdc::bootstrap::{
    BootstrapError, BootstrapPhase, BootstrapState, SnapshotAppend, SnapshotDescriptor,
    SnapshotRow, SnapshotSink,
};
use veyra::cdc::checkpoint::{
    complete_len, AppliedCheckpoint, AppliedState, CheckpointAdvance, CheckpointError,
};
use veyra::cdc::event::CdcEvent;
use veyra::cdc::journal::{Journal, JournalAppend, JournalError, ReplayDecision};
use veyra::cdc::live::{
    self, CheckpointApplyError, LiveEventOutcome, LiveReplicationDriver, LiveReplicationError,
    LiveReplicationState, LiveRunSummary, LiveStep, RecoveryStep,
};
use veyra::cdc::lsn::{GenerationId, LogSequenceNumber};
use veyra::cdc::pgoutput::PgOutputError;
use veyra::cdc::processor::{DurableTransactionProcessor, ProcessorError};
use veyra::cdc::stream::StreamError;
use veyra::cdc::transaction::{ChangeKind, RowChange, TransactionBatch, TransactionBuildError};
use veyra::text::Diagnostic;

#[derive(Clone, Copy, Debug, Eq, PartialEq)]
struct ApplyFailure;

/// A file held in memory, shared by whoever opened it.
#[derive(Clone, Default)]
struct Disk {
    bytes: Rc<RefCell<Vec<u8>>>,
    full: bool,
    missing: bool,
}

impl Disk {
    fn new() -> Self {
        Self::default()
    }

    fn full() -> Self {
        Self {
            full: true,
            ..Self::default()
        }
    }

    fn of(bytes: Vec<u8>) -> Self {
        Self {
            bytes: Rc::new(RefCell::new(bytes)),
            ..Self::default()
        }
    }

    fn missing() -> Self {
        Self {
            missing: true,
            ..Self::default()
        }
    }

    fn opened(&self) -> Result<Vec<u8>, String> {
        if self.missing {
            return Err("no such directory".to_owned());
        }
        Ok(self.read())
    }

    fn read(&self) -> Vec<u8> {
        self.bytes.borrow().clone()
    }

    fn len(&self) -> usize {
        self.bytes.borrow().len()
    }

    fn append(&self, bytes: &[u8]) -> Result<(), String> {
        if self.full {
            return Err("no space left on device".to_owned());
        }
        self.bytes.borrow_mut().extend_from_slice(bytes);
        Ok(())
    }

    fn truncate(&self, len: u64) {
        self.bytes
            .borrow_mut()
            .truncate(usize::try_from(len).unwrap_or(usize::MAX));
    }
}

struct JournalFile {
    journal: Journal,
    disk: Disk,
}

impl JournalFile {
    fn open(disk: &Disk) -> Result<Self, JournalError> {
        let (journal, cut) = Journal::open(&disk.read())?;
        if let Some(len) = cut {
            disk.truncate(len);
        }
        Ok(Self {
            journal,
            disk: disk.clone(),
        })
    }

    fn append(&mut self, batch: &TransactionBatch) -> Result<ReplayDecision, JournalError> {
        match self.journal.append(batch)? {
            JournalAppend::Duplicate => Ok(ReplayDecision::Duplicate),
            JournalAppend::Write(record) => {
                self.disk.append(&record).map_err(JournalError::Io)?;
                self.journal.confirm(batch);
                Ok(ReplayDecision::Apply)
            }
        }
    }
}

struct CheckpointFile {
    checkpoint: AppliedCheckpoint,
    disk: Disk,
}

impl CheckpointFile {
    fn open(disk: &Disk) -> Result<Self, CheckpointError> {
        let checkpoint = AppliedCheckpoint::open(&disk.opened().map_err(CheckpointError::Io)?)?;
        disk.truncate(complete_len(disk.len() as u64));
        Ok(Self {
            checkpoint,
            disk: disk.clone(),
        })
    }

    fn advance(&mut self, batch: &TransactionBatch) -> Result<CheckpointAdvance, CheckpointError> {
        match self.checkpoint.advance(batch)? {
            None => Ok(CheckpointAdvance::Duplicate),
            Some(record) => {
                self.disk.append(&record).map_err(CheckpointError::Io)?;
                self.checkpoint.confirm(batch);
                Ok(CheckpointAdvance::Advanced)
            }
        }
    }

    fn state(&self) -> AppliedState {
        self.checkpoint.state()
    }
}

struct Processor {
    processor: DurableTransactionProcessor,
    disk: Disk,
}

impl Processor {
    fn open(disk: &Disk) -> Result<Self, JournalError> {
        let (processor, cut) = DurableTransactionProcessor::open(&disk.opened().map_err(JournalError::Io)?)?;
        if let Some(len) = cut {
            disk.truncate(len);
        }
        Ok(Self {
            processor,
            disk: disk.clone(),
        })
    }

    fn is_poisoned(&self) -> bool {
        self.processor.is_poisoned()
    }
}

fn process_replication_event<E>(
    processor: &mut Processor,
    checkpoint: &mut CheckpointFile,
    state: &mut LiveReplicationState,
    event: CdcEvent,
    apply: &mut dyn FnMut(&TransactionBatch) -> Result<(), E>,
) -> Result<LiveEventOutcome, LiveReplicationError<E>> {
    let mut step = live::process_replication_event(
        &mut processor.processor,
        &checkpoint.checkpoint,
        state,
        event,
    )?;
    loop {
        step = match step {
            LiveStep::Done(outcome) => return Ok(outcome),
            LiveStep::WriteJournal(record) => {
                let written = processor.disk.append(&record);
                live::journal_written(
                    &mut processor.processor,
                    &checkpoint.checkpoint,
                    state,
                    written,
                )?
            }
            LiveStep::Project => {
                let applied = match processor.processor.batch_to_apply() {
                    Some(batch) => apply(batch),
                    None => unreachable!("a committed transaction waits to be applied"),
                };
                live::projection_applied(
                    &mut processor.processor,
                    &checkpoint.checkpoint,
                    state,
                    applied,
                )?
            }
            LiveStep::WriteCheckpoint(record) => {
                let written = checkpoint.disk.append(&record);
                live::checkpoint_written(
                    &mut processor.processor,
                    &mut checkpoint.checkpoint,
                    state,
                    written,
                )?
            }
        };
    }
}

fn recover_checkpointed<E>(
    processor: &mut Processor,
    checkpoint: &mut CheckpointFile,
    apply: &mut dyn FnMut(&TransactionBatch) -> Result<(), E>,
) -> Result<LogSequenceNumber, LiveReplicationError<E>> {
    let (mut recovery, step) = live::recover_checkpointed(
        &mut processor.processor,
        &checkpoint.checkpoint,
        Ok(processor.disk.read()),
    );
    let mut step = step?;
    loop {
        step = match step {
            RecoveryStep::Done(lsn) => return Ok(lsn),
            RecoveryStep::Project => {
                let applied = match processor.processor.batch_to_replay() {
                    Some(batch) => apply(batch),
                    None => unreachable!("a durable transaction waits to be replayed"),
                };
                live::projection_replayed(
                    &mut processor.processor,
                    &checkpoint.checkpoint,
                    &mut recovery,
                    applied,
                )?
            }
            RecoveryStep::WriteCheckpoint(record) => {
                let written = checkpoint.disk.append(&record);
                live::checkpoint_replayed(
                    &mut processor.processor,
                    &mut checkpoint.checkpoint,
                    &mut recovery,
                    written,
                )?
            }
        };
    }
}

struct Driver {
    driver: LiveReplicationDriver,
    journal: Disk,
    checkpoint: Disk,
}

fn recovered<E>(
    journal: &Disk,
    checkpoint: &Disk,
    apply: &mut dyn FnMut(&TransactionBatch) -> Result<(), E>,
) -> Result<(Processor, CheckpointFile, LogSequenceNumber), LiveReplicationError<E>> {
    let mut processor = Processor::open(journal).map_err(LiveReplicationError::Journal)?;
    let mut checkpoint =
        CheckpointFile::open(checkpoint).map_err(LiveReplicationError::Checkpoint)?;
    let lsn = recover_checkpointed(&mut processor, &mut checkpoint, apply)?;
    Ok((processor, checkpoint, lsn))
}

impl Driver {
    fn open<E>(
        journal: &Disk,
        checkpoint: &Disk,
        apply: &mut dyn FnMut(&TransactionBatch) -> Result<(), E>,
    ) -> Result<Self, LiveReplicationError<E>> {
        let (opened, checkpointed, lsn) = recovered(journal, checkpoint, apply)?;
        Ok(Self {
            driver: LiveReplicationDriver::open(opened.processor, checkpointed.checkpoint, lsn),
            journal: journal.clone(),
            checkpoint: checkpoint.clone(),
        })
    }

    fn open_from_baseline<E>(
        journal: &Disk,
        checkpoint: &Disk,
        baseline: LogSequenceNumber,
        apply: &mut dyn FnMut(&TransactionBatch) -> Result<(), E>,
    ) -> Result<Self, LiveReplicationError<E>> {
        let (opened, checkpointed, lsn) = recovered(journal, checkpoint, apply)?;
        Ok(Self {
            driver: LiveReplicationDriver::open_from_baseline(
                opened.processor,
                checkpointed.checkpoint,
                lsn,
                baseline,
            )?,
            journal: journal.clone(),
            checkpoint: checkpoint.clone(),
        })
    }

    fn process<E>(
        &mut self,
        event: CdcEvent,
        apply: &mut dyn FnMut(&TransactionBatch) -> Result<(), E>,
    ) -> Result<LiveEventOutcome, LiveReplicationError<E>> {
        let mut step = self.driver.process(event)?;
        loop {
            step = match step {
                LiveStep::Done(outcome) => return Ok(outcome),
                LiveStep::WriteJournal(record) => {
                    let written = self.journal.append(&record);
                    self.driver.journal_written(written)?
                }
                LiveStep::Project => {
                    let applied = match self.driver.batch_to_apply() {
                        Some(batch) => apply(batch),
                        None => unreachable!("a committed transaction waits to be applied"),
                    };
                    self.driver.projection_applied(applied)?
                }
                LiveStep::WriteCheckpoint(record) => {
                    let written = self.checkpoint.append(&record);
                    self.driver.checkpoint_written(written)?
                }
            };
        }
    }

    fn resume_lsn(&self) -> LogSequenceNumber {
        self.driver.resume_lsn()
    }

    fn summary(&self) -> LiveRunSummary {
        self.driver.summary()
    }
}

fn lsn(value: u64) -> LogSequenceNumber {
    LogSequenceNumber::new(value)
}

fn relation(relation_id: u32) -> Vec<u8> {
    let mut bytes = vec![b'R'];
    bytes.extend_from_slice(&relation_id.to_be_bytes());
    bytes.extend_from_slice(b"public\0inventory\0");
    bytes.push(b'd');
    bytes.extend_from_slice(&0_u16.to_be_bytes());
    bytes
}

fn insert(relation_id: u32, value: &[u8]) -> Vec<u8> {
    let mut bytes = vec![b'I'];
    bytes.extend_from_slice(&relation_id.to_be_bytes());
    bytes.push(b'N');
    bytes.extend_from_slice(&1_u16.to_be_bytes());
    bytes.push(b't');
    bytes.extend_from_slice(&u32::try_from(value.len()).unwrap_or_default().to_be_bytes());
    bytes.extend_from_slice(value);
    bytes
}

fn raw_commit(commit_lsn: u64, end_lsn: u64) -> Vec<u8> {
    let mut bytes = vec![b'C', 0];
    bytes.extend_from_slice(&commit_lsn.to_be_bytes());
    bytes.extend_from_slice(&end_lsn.to_be_bytes());
    bytes.extend_from_slice(&0_i64.to_be_bytes());
    bytes
}

fn keepalive(wal_end: u64, reply_requested: bool) -> CdcEvent {
    CdcEvent::KeepAlive {
        wal_end: lsn(wal_end),
        server_time_micros: 0,
        reply_requested,
    }
}

fn begin(final_lsn: u64, xid: u32) -> CdcEvent {
    CdcEvent::Begin {
        final_lsn: lsn(final_lsn),
        xid,
        commit_time_micros: 0,
    }
}

fn xlog(wal_start: u64, wal_end: u64, data: Vec<u8>) -> CdcEvent {
    CdcEvent::XLogData {
        wal_start: lsn(wal_start),
        wal_end: lsn(wal_end),
        server_time_micros: 0,
        data,
    }
}

fn commit(commit_lsn: u64, end_lsn: u64) -> CdcEvent {
    CdcEvent::Commit {
        lsn: lsn(commit_lsn),
        end_lsn: lsn(end_lsn),
        commit_time_micros: 0,
    }
}

fn message(position: u64, prefix: &str) -> CdcEvent {
    CdcEvent::Message {
        transactional: false,
        lsn: lsn(position),
        prefix: prefix.to_owned(),
        content: Vec::new(),
    }
}

fn stopped(reached: u64) -> CdcEvent {
    CdcEvent::StoppedAt {
        reached: lsn(reached),
    }
}

fn open_both(journal: &Disk, checkpoint: &Disk) -> (Processor, CheckpointFile) {
    (
        Processor::open(journal).unwrap_or_else(|_| unreachable!()),
        CheckpointFile::open(checkpoint).unwrap_or_else(|_| unreachable!()),
    )
}

fn feed_transaction<F>(
    processor: &mut Processor,
    checkpoint: &mut CheckpointFile,
    state: &mut LiveReplicationState,
    apply: &mut F,
) -> Result<LiveEventOutcome, LiveReplicationError<ApplyFailure>>
where
    F: FnMut(&TransactionBatch) -> Result<(), ApplyFailure>,
{
    process_replication_event(processor, checkpoint, state, begin(20, 7), apply)?;
    process_replication_event(
        processor,
        checkpoint,
        state,
        xlog(19, 0, relation(42)),
        apply,
    )?;
    process_replication_event(
        processor,
        checkpoint,
        state,
        xlog(20, 0, insert(42, b"t")),
        apply,
    )?;
    process_replication_event(processor, checkpoint, state, commit(20, 21), apply)
}

fn ack_requires_all_three() {
    let (mut processor, mut checkpoint) = open_both(&Disk::new(), &Disk::new());
    let mut state = LiveReplicationState::default();
    let applied = Cell::new(0_u32);
    let mut apply = |_batch: &TransactionBatch| -> Result<(), ApplyFailure> {
        applied.set(applied.get().saturating_add(1));
        Ok(())
    };

    assert_eq!(
        process_replication_event(
            &mut processor,
            &mut checkpoint,
            &mut state,
            keepalive(9, true),
            &mut apply,
        ),
        Ok(LiveEventOutcome::Continue)
    );
    assert_eq!(
        feed_transaction(&mut processor, &mut checkpoint, &mut state, &mut apply),
        Ok(LiveEventOutcome::Acknowledge(lsn(21)))
    );
    assert_eq!(applied.get(), 1);
    assert_eq!(checkpoint.state().end_lsn().get(), 21);
    assert_eq!(state.progress().durable_lsn.get(), 21);
    assert_eq!(state.progress().applied_lsn.get(), 21);
}

fn redelivery_is_not_applied_twice() {
    let (mut processor, mut checkpoint) = open_both(&Disk::new(), &Disk::new());
    let mut state = LiveReplicationState::default();
    let applied = Cell::new(0_u32);
    let mut apply = |_batch: &TransactionBatch| -> Result<(), ApplyFailure> {
        applied.set(applied.get().saturating_add(1));
        Ok(())
    };
    assert!(feed_transaction(&mut processor, &mut checkpoint, &mut state, &mut apply).is_ok());
    assert!(feed_transaction(&mut processor, &mut checkpoint, &mut state, &mut apply).is_ok());
    assert_eq!(applied.get(), 1);
    assert_eq!(checkpoint.state().commit_lsn().get(), 20);
}

fn restart_skips_what_is_checkpointed() {
    let journal = Disk::new();
    let checkpoint_disk = Disk::new();
    {
        let (mut processor, mut checkpoint) = open_both(&journal, &checkpoint_disk);
        let mut state = LiveReplicationState::default();
        let mut apply = |_batch: &TransactionBatch| -> Result<(), ApplyFailure> { Ok(()) };
        assert!(feed_transaction(&mut processor, &mut checkpoint, &mut state, &mut apply).is_ok());
    }
    let (mut processor, mut checkpoint) = open_both(&journal, &checkpoint_disk);
    let applied = Cell::new(0_u32);
    let mut apply = |_batch: &TransactionBatch| -> Result<(), ApplyFailure> {
        applied.set(applied.get().saturating_add(1));
        Ok(())
    };
    assert_eq!(
        recover_checkpointed(&mut processor, &mut checkpoint, &mut apply),
        Ok(lsn(21))
    );
    assert_eq!(applied.get(), 0);
}

fn malformed_payload_changes_nothing() {
    let (mut processor, mut checkpoint) = open_both(&Disk::new(), &Disk::new());
    let mut state = LiveReplicationState::default();
    let applied = Cell::new(false);
    let mut apply = |_batch: &TransactionBatch| -> Result<(), ApplyFailure> {
        applied.set(true);
        Ok(())
    };
    assert!(matches!(
        process_replication_event(
            &mut processor,
            &mut checkpoint,
            &mut state,
            xlog(1, 2, vec![0xff]),
            &mut apply,
        ),
        Err(LiveReplicationError::Processor(ProcessorError::Decode(_)))
    ));
    assert!(!applied.get());
    assert_eq!(checkpoint.state(), AppliedState::default());
}

fn stop_and_message_are_refused() {
    let (mut processor, mut checkpoint) = open_both(&Disk::new(), &Disk::new());
    let mut state = LiveReplicationState::default();
    let mut apply = |_batch: &TransactionBatch| -> Result<(), ApplyFailure> { Ok(()) };
    assert!(process_replication_event(
        &mut processor,
        &mut checkpoint,
        &mut state,
        begin(30, 8),
        &mut apply,
    )
    .is_ok());
    assert!(matches!(
        process_replication_event(
            &mut processor,
            &mut checkpoint,
            &mut state,
            stopped(30),
            &mut apply,
        ),
        Err(LiveReplicationError::StoppedMidTransaction(lsn)) if lsn.get() == 30
    ));
    assert!(matches!(
        process_replication_event(
            &mut processor,
            &mut checkpoint,
            &mut LiveReplicationState::default(),
            message(31, "unknown"),
            &mut apply,
        ),
        Err(LiveReplicationError::UnsupportedLogicalMessage(prefix)) if prefix == "unknown"
    ));
}

fn clean_stop_keeps_progress() {
    let (mut processor, mut checkpoint) = open_both(&Disk::new(), &Disk::new());
    let mut state = LiveReplicationState::recovered(lsn(5));
    let mut apply = |_batch: &TransactionBatch| -> Result<(), ApplyFailure> { Ok(()) };
    assert_eq!(
        process_replication_event(
            &mut processor,
            &mut checkpoint,
            &mut state,
            stopped(8),
            &mut apply,
        ),
        Ok(LiveEventOutcome::Stop(lsn(8)))
    );
    assert_eq!(state.progress().received_lsn.get(), 8);
    assert_eq!(state.progress().applied_lsn.get(), 5);
}

#[test]
fn live_ack_requires_journal_apply_and_checkpoint_durability() {
    ack_requires_all_three();
}

#[test]
fn live_tests_ack_requires_journal_apply_and_checkpoint_durability() {
    ack_requires_all_three();
}

#[test]
fn live_duplicate_redelivery_does_not_reapply_checkpointed_transaction() {
    redelivery_is_not_applied_twice();
}

#[test]
fn live_tests_duplicate_redelivery_does_not_reapply_checkpointed_transaction() {
    redelivery_is_not_applied_twice();
}

#[test]
fn live_restart_recovery_skips_already_checkpointed_apply() {
    restart_skips_what_is_checkpointed();
}

#[test]
fn live_tests_restart_recovery_skips_already_checkpointed_apply() {
    restart_skips_what_is_checkpointed();
}

#[test]
fn live_malformed_raw_payload_yields_no_ack_or_checkpoint() {
    malformed_payload_changes_nothing();
}

#[test]
fn live_tests_malformed_raw_payload_yields_no_ack_or_checkpoint() {
    malformed_payload_changes_nothing();
}

#[test]
fn live_mid_transaction_stop_and_logical_message_fail_closed() {
    stop_and_message_are_refused();
}

#[test]
fn live_tests_mid_transaction_stop_and_logical_message_fail_closed() {
    stop_and_message_are_refused();
}

#[test]
fn live_clean_stop_preserves_applied_progress() {
    clean_stop_keeps_progress();
}

#[test]
fn live_tests_clean_stop_preserves_applied_progress() {
    clean_stop_keeps_progress();
}

#[test]
fn live_error_display_is_stable() {
    assert_eq!(
        LiveReplicationError::<String>::UnexpectedBoundaryOutcome.message(),
        "unexpected transaction-boundary processing outcome"
    );
}

#[test]
fn live_tests_error_display_is_stable() {
    assert_eq!(
        LiveReplicationError::<String>::UnexpectedBoundaryOutcome.message(),
        "unexpected transaction-boundary processing outcome"
    );
}

#[test]
fn processor_and_live_public_boundaries_are_exercised() {
    let (mut processor, mut checkpoint) = open_both(&Disk::new(), &Disk::new());
    assert!(format!("{:?}", processor.processor).contains("DurableTransactionProcessor"));

    let processor_errors = [
        ProcessorError::<String>::Decode(PgOutputError::UnknownMessage(0xff)),
        ProcessorError::Stream(StreamError::UnknownRelation(7)),
        ProcessorError::Apply("apply failed".to_owned()),
        ProcessorError::Poisoned,
    ];
    for error in processor_errors {
        assert!(!error.message().is_empty());
    }

    let mut state = LiveReplicationState::default();
    assert!(!state.transaction_open());
    assert_eq!(state.progress().applied_lsn, LogSequenceNumber::zero());
    let mut apply = |_batch: &TransactionBatch| -> Result<(), ApplyFailure> { Ok(()) };

    assert_eq!(
        process_replication_event(
            &mut processor,
            &mut checkpoint,
            &mut state,
            keepalive(5, false),
            &mut apply,
        ),
        Ok(LiveEventOutcome::Continue)
    );
    assert_eq!(state.progress().received_lsn.get(), 5);

    let errors = [
        LiveReplicationError::<String>::Checkpoint(CheckpointError::LengthOverflow),
        LiveReplicationError::Processor(ProcessorError::Apply(CheckpointApplyError::Apply(
            "apply failed".to_owned(),
        ))),
        LiveReplicationError::UnsupportedLogicalMessage("x".to_owned()),
        LiveReplicationError::StoppedMidTransaction(lsn(1)),
        LiveReplicationError::UnexpectedBoundaryOutcome,
    ];
    for error in errors {
        assert!(!error.message().is_empty());
    }

    assert_eq!(
        recover_checkpointed(&mut processor, &mut checkpoint, &mut apply),
        Ok(LogSequenceNumber::zero())
    );
}

// ---------------------------------------------------------------------------------------------
// Recovery
// ---------------------------------------------------------------------------------------------

fn batch(xid: u32, relation_id: u32, commit: u64, end: u64, value: u8) -> TransactionBatch {
    TransactionBatch::try_new(
        xid,
        lsn(commit),
        lsn(commit),
        lsn(end),
        vec![RowChange::new(
            relation_id,
            ChangeKind::Insert,
            None,
            Some(vec![value]),
        )],
    )
    .unwrap_or_else(|_| unreachable!())
}

fn edge(commit: u64, end: u64, value: u8) -> TransactionBatch {
    batch(7, 11, commit, end, value)
}

fn region(commit: u64, end: u64, value: u8) -> TransactionBatch {
    batch(1, 7, commit, end, value)
}

fn write_journal(batches: &[TransactionBatch]) -> Disk {
    let disk = Disk::new();
    let mut journal = JournalFile::open(&disk).unwrap_or_else(|_| unreachable!());
    for batch in batches {
        assert!(matches!(journal.append(batch), Ok(ReplayDecision::Apply)));
    }
    disk
}

fn write_checkpoint(batch: &TransactionBatch) -> Disk {
    let disk = Disk::new();
    let mut checkpoint = CheckpointFile::open(&disk).unwrap_or_else(|_| unreachable!());
    assert!(matches!(
        checkpoint.advance(batch),
        Ok(CheckpointAdvance::Advanced)
    ));
    disk
}

#[test]
fn checkpoint_recovery_skips_older_records_and_matches_the_target() {
    let first = edge(10, 11, 1);
    let second = edge(20, 21, 2);
    let (mut processor, mut checkpoint) = open_both(
        &write_journal(&[first, second.clone()]),
        &write_checkpoint(&second),
    );
    let applied = Cell::new(0_u32);
    let mut apply = |_batch: &TransactionBatch| -> Result<(), ApplyFailure> {
        applied.set(applied.get().saturating_add(1));
        Ok(())
    };

    assert_eq!(
        recover_checkpointed(&mut processor, &mut checkpoint, &mut apply),
        Ok(lsn(21))
    );
    assert_eq!(applied.get(), 0);
}

#[test]
fn checkpoint_recovery_rejects_missing_and_conflicting_durable_records() {
    let first = edge(10, 11, 1);
    let second = edge(20, 21, 2);
    let mut apply = |_batch: &TransactionBatch| -> Result<(), ApplyFailure> { Ok(()) };

    let (mut processor, mut checkpoint) = open_both(
        &write_journal(&[first.clone(), second.clone()]),
        &write_checkpoint(&edge(15, 16, 3)),
    );
    assert!(matches!(
        recover_checkpointed(&mut processor, &mut checkpoint, &mut apply),
        Err(LiveReplicationError::Processor(ProcessorError::Apply(
            CheckpointApplyError::Checkpoint(CheckpointError::MissingFromJournal(missing))
        ))) if missing == lsn(15)
    ));

    let (mut processor, mut checkpoint) =
        open_both(&write_journal(&[]), &write_checkpoint(&edge(15, 16, 4)));
    assert!(matches!(
        recover_checkpointed(&mut processor, &mut checkpoint, &mut apply),
        Err(LiveReplicationError::Checkpoint(
            CheckpointError::MissingFromJournal(missing)
        )) if missing == lsn(15)
    ));

    let (mut processor, mut checkpoint) = open_both(
        &write_journal(&[first, second]),
        &write_checkpoint(&edge(20, 21, 99)),
    );
    assert!(matches!(
        recover_checkpointed(&mut processor, &mut checkpoint, &mut apply),
        Err(LiveReplicationError::Processor(ProcessorError::Apply(
            CheckpointApplyError::Checkpoint(CheckpointError::DurableMismatch(at))
        ))) if at == lsn(20)
    ));
}

#[test]
fn recovery_distinguishes_older_exact_future_and_missing_checkpoint_positions() {
    let (mut processor, mut checkpoint) = open_both(
        &write_journal(&[region(10, 11, 1), region(20, 21, 2)]),
        &write_checkpoint(&region(15, 16, 9)),
    );
    let applied = Cell::new(0_u32);
    let mut apply = |_batch: &TransactionBatch| -> Result<(), ApplyFailure> {
        applied.set(applied.get() + 1);
        Ok(())
    };
    assert!(matches!(
        recover_checkpointed(&mut processor, &mut checkpoint, &mut apply),
        Err(LiveReplicationError::Processor(ProcessorError::Apply(
            CheckpointApplyError::Checkpoint(CheckpointError::MissingFromJournal(lsn))
        ))) if lsn.get() == 15
    ));
    assert_eq!(
        applied.get(),
        0,
        "nothing after an unproven checkpoint may apply"
    );

    let (mut processor, mut checkpoint) = open_both(
        &write_journal(&[region(10, 11, 1), region(20, 21, 2)]),
        &write_checkpoint(&region(30, 31, 3)),
    );
    let mut apply = |_batch: &TransactionBatch| -> Result<(), ApplyFailure> { Ok(()) };
    assert!(matches!(
        recover_checkpointed(&mut processor, &mut checkpoint, &mut apply),
        Err(LiveReplicationError::Checkpoint(
            CheckpointError::MissingFromJournal(lsn)
        )) if lsn.get() == 30
    ));
}

#[test]
fn checkpoint_fingerprint_mismatch_is_never_treated_as_duplicate() {
    let (mut processor, mut checkpoint) = open_both(
        &write_journal(&[region(10, 11, 1)]),
        &write_checkpoint(&region(10, 11, 2)),
    );
    let mut apply = |_batch: &TransactionBatch| -> Result<(), ApplyFailure> { Ok(()) };
    assert!(matches!(
        recover_checkpointed(&mut processor, &mut checkpoint, &mut apply),
        Err(LiveReplicationError::Processor(ProcessorError::Apply(
            CheckpointApplyError::Checkpoint(CheckpointError::DurableMismatch(lsn))
        ))) if lsn.get() == 10
    ));
}

#[test]
fn an_exact_checkpoint_skips_old_records_then_applies_only_newer_transactions() {
    let (mut processor, mut checkpoint) = open_both(
        &write_journal(&[region(10, 11, 1), region(20, 21, 2), region(30, 31, 3)]),
        &write_checkpoint(&region(20, 21, 2)),
    );
    let mut applied = Vec::new();
    let mut apply = |batch: &TransactionBatch| -> Result<(), ApplyFailure> {
        applied.push(batch.commit_lsn().get());
        Ok(())
    };
    assert_eq!(
        recover_checkpointed(&mut processor, &mut checkpoint, &mut apply),
        Ok(lsn(31))
    );
    assert_eq!(applied, vec![30]);
    assert_eq!(checkpoint.state().commit_lsn().get(), 30);
}

#[test]
fn recovery_stops_at_a_checkpoint_that_cannot_be_written() {
    let (mut processor, mut checkpoint) =
        open_both(&write_journal(&[region(10, 11, 1)]), &Disk::full());
    let mut apply = |_batch: &TransactionBatch| -> Result<(), ApplyFailure> { Ok(()) };
    assert!(matches!(
        recover_checkpointed(&mut processor, &mut checkpoint, &mut apply),
        Err(LiveReplicationError::Processor(ProcessorError::Apply(
            CheckpointApplyError::Checkpoint(CheckpointError::Io(_))
        )))
    ));
    assert!(processor.is_poisoned());
    assert_eq!(checkpoint.state(), AppliedState::default());
}

// ---------------------------------------------------------------------------------------------
// Progress
// ---------------------------------------------------------------------------------------------

#[test]
fn keepalive_regression_does_not_move_received_progress_backwards() {
    let (mut processor, mut checkpoint) = open_both(&Disk::new(), &Disk::new());
    let mut state = LiveReplicationState::recovered(lsn(50));
    let mut apply = |_batch: &TransactionBatch| -> Result<(), ApplyFailure> { Ok(()) };
    assert!(!state.transaction_open());
    assert_eq!(
        process_replication_event(
            &mut processor,
            &mut checkpoint,
            &mut state,
            keepalive(40, false),
            &mut apply,
        ),
        Ok(LiveEventOutcome::Continue)
    );
    assert_eq!(state.progress().received_lsn.get(), 50);
    assert_eq!(state.progress().durable_lsn.get(), 50);
    assert_eq!(state.progress().applied_lsn.get(), 50);
}

#[test]
fn keepalive_and_clean_stop_never_regress_received_progress() {
    let (mut processor, mut checkpoint) = open_both(&Disk::new(), &Disk::new());
    let mut state = LiveReplicationState::recovered(lsn(50));
    let mut apply = |_batch: &TransactionBatch| -> Result<(), Infallible> { Ok(()) };

    assert_eq!(
        process_replication_event(
            &mut processor,
            &mut checkpoint,
            &mut state,
            keepalive(40, false),
            &mut apply,
        ),
        Ok(LiveEventOutcome::Continue)
    );
    assert_eq!(state.progress().received_lsn, lsn(50));

    assert!(process_replication_event(
        &mut processor,
        &mut checkpoint,
        &mut state,
        keepalive(60, true),
        &mut apply,
    )
    .is_ok());
    assert_eq!(state.progress().received_lsn, lsn(60));

    assert_eq!(
        process_replication_event(
            &mut processor,
            &mut checkpoint,
            &mut state,
            stopped(55),
            &mut apply,
        ),
        Ok(LiveEventOutcome::Stop(lsn(55)))
    );
    assert_eq!(state.progress().received_lsn, lsn(60));
}

#[test]
fn acknowledgement_never_moves_recovered_progress_backwards() {
    let (mut processor, mut checkpoint) = open_both(&Disk::new(), &Disk::new());
    let mut state = LiveReplicationState::recovered(lsn(50));
    let mut apply = |_batch: &TransactionBatch| -> Result<(), Infallible> { Ok(()) };

    for event in [
        begin(20, 7),
        xlog(19, 20, relation(42)),
        xlog(20, 20, insert(42, b"x")),
    ] {
        assert!(process_replication_event(
            &mut processor,
            &mut checkpoint,
            &mut state,
            event,
            &mut apply,
        )
        .is_ok());
    }
    assert_eq!(
        process_replication_event(
            &mut processor,
            &mut checkpoint,
            &mut state,
            commit(20, 21),
            &mut apply,
        ),
        Ok(LiveEventOutcome::Acknowledge(lsn(21)))
    );

    let progress = state.progress();
    assert_eq!(progress.received_lsn, lsn(50));
    assert_eq!(progress.durable_lsn, lsn(50));
    assert_eq!(progress.applied_lsn, lsn(50));
}

#[test]
fn raw_xlog_commit_acknowledges_only_after_apply_and_updates_all_progress() {
    let (mut processor, mut checkpoint) = open_both(&Disk::new(), &Disk::new());
    let mut state = LiveReplicationState::default();
    let applied = Cell::new(0_u32);
    let mut apply = |_batch: &TransactionBatch| -> Result<(), ApplyFailure> {
        applied.set(applied.get().saturating_add(1));
        Ok(())
    };

    for event in [
        begin(20, 7),
        xlog(20, 0, relation(11)),
        xlog(20, 0, insert(11, b"x")),
    ] {
        assert_eq!(
            process_replication_event(
                &mut processor,
                &mut checkpoint,
                &mut state,
                event,
                &mut apply,
            ),
            Ok(LiveEventOutcome::Continue)
        );
    }
    assert_eq!(
        process_replication_event(
            &mut processor,
            &mut checkpoint,
            &mut state,
            xlog(20, 0, raw_commit(20, 21)),
            &mut apply,
        ),
        Ok(LiveEventOutcome::Acknowledge(lsn(21)))
    );
    assert_eq!(applied.get(), 1);
    assert!(!state.transaction_open());
    assert_eq!(state.progress().received_lsn, lsn(21));
    assert_eq!(state.progress().durable_lsn, lsn(21));
    assert_eq!(state.progress().applied_lsn, lsn(21));

    assert_eq!(
        process_replication_event(
            &mut processor,
            &mut checkpoint,
            &mut state,
            keepalive(5, false),
            &mut apply,
        ),
        Ok(LiveEventOutcome::Continue)
    );
    assert_eq!(state.progress().received_lsn, lsn(21));
}

#[test]
fn commit_apply_failure_produces_no_ack_and_poisoned_processor() {
    let (mut processor, mut checkpoint) = open_both(&Disk::new(), &Disk::new());
    let mut state = LiveReplicationState::default();
    let mut prepare = |_batch: &TransactionBatch| -> Result<(), ApplyFailure> { Ok(()) };
    for event in [
        begin(20, 7),
        xlog(20, 20, relation(11)),
        xlog(20, 20, insert(11, b"x")),
    ] {
        assert!(process_replication_event(
            &mut processor,
            &mut checkpoint,
            &mut state,
            event,
            &mut prepare,
        )
        .is_ok());
    }

    let mut fail = |_batch: &TransactionBatch| -> Result<(), ApplyFailure> { Err(ApplyFailure) };
    assert!(matches!(
        process_replication_event(
            &mut processor,
            &mut checkpoint,
            &mut state,
            commit(20, 21),
            &mut fail,
        ),
        Err(LiveReplicationError::Processor(ProcessorError::Apply(
            CheckpointApplyError::Apply(ApplyFailure)
        )))
    ));
    assert!(processor.is_poisoned());
    assert_eq!(checkpoint.state().commit_lsn(), LogSequenceNumber::zero());
    assert_eq!(state.progress().applied_lsn, LogSequenceNumber::zero());
}

#[test]
fn nested_begin_and_commit_without_begin_poison_the_processor() {
    let (mut processor, mut checkpoint) = open_both(&Disk::new(), &Disk::new());
    let mut state = LiveReplicationState::default();
    let mut apply = |_batch: &TransactionBatch| -> Result<(), Infallible> { Ok(()) };

    assert_eq!(
        process_replication_event(
            &mut processor,
            &mut checkpoint,
            &mut state,
            begin(10, 1),
            &mut apply,
        ),
        Ok(LiveEventOutcome::Continue)
    );
    assert!(matches!(
        process_replication_event(
            &mut processor,
            &mut checkpoint,
            &mut state,
            begin(11, 2),
            &mut apply,
        ),
        Err(LiveReplicationError::Processor(ProcessorError::Stream(
            StreamError::Transaction(TransactionBuildError::NestedTransaction)
        )))
    ));
    assert!(processor.is_poisoned());

    let (mut processor, mut checkpoint) = open_both(&Disk::new(), &Disk::new());
    let mut state = LiveReplicationState::default();
    assert!(matches!(
        process_replication_event(
            &mut processor,
            &mut checkpoint,
            &mut state,
            commit(20, 21),
            &mut apply,
        ),
        Err(LiveReplicationError::Processor(ProcessorError::Stream(
            StreamError::Transaction(TransactionBuildError::CommitWithoutBegin)
        )))
    ));
    assert!(processor.is_poisoned());
}

#[test]
fn checkpoint_durability_failure_surfaces_through_live_apply_chain() {
    let (mut processor, mut checkpoint) = open_both(&Disk::new(), &Disk::full());
    let mut state = LiveReplicationState::default();
    let mut apply = |_batch: &TransactionBatch| -> Result<(), Infallible> { Ok(()) };

    assert_eq!(
        process_replication_event(
            &mut processor,
            &mut checkpoint,
            &mut state,
            begin(30, 3),
            &mut apply,
        ),
        Ok(LiveEventOutcome::Continue)
    );
    assert!(matches!(
        process_replication_event(
            &mut processor,
            &mut checkpoint,
            &mut state,
            commit(30, 31),
            &mut apply,
        ),
        Err(LiveReplicationError::Processor(ProcessorError::Apply(
            CheckpointApplyError::Checkpoint(CheckpointError::Io(_))
        )))
    ));
    assert!(processor.is_poisoned());
    assert_eq!(state.progress().applied_lsn.get(), 0);
}

#[test]
fn checkpoint_apply_and_live_errors_expose_stable_context() {
    let apply = CheckpointApplyError::Apply("apply failed".to_owned());
    let checkpoint =
        CheckpointApplyError::<String>::Checkpoint(CheckpointError::MissingFromJournal(lsn(7)));
    assert_eq!(apply.message(), "projection apply: apply failed");
    assert!(checkpoint.message().contains("applied checkpoint"));

    let errors = [
        LiveReplicationError::<String>::Journal(JournalError::UnexpectedEof),
        LiveReplicationError::Checkpoint(CheckpointError::CorruptRecord),
        LiveReplicationError::Processor(ProcessorError::Journal(JournalError::UnexpectedEof)),
        LiveReplicationError::UnsupportedLogicalMessage("prefix".to_owned()),
        LiveReplicationError::StoppedMidTransaction(lsn(8)),
        LiveReplicationError::UnexpectedBoundaryOutcome,
    ];
    for error in errors {
        assert!(!error.message().is_empty());
    }
}

#[test]
fn quoted_prefix_is_escaped_in_the_diagnostic() {
    let plain = LiveReplicationError::<String>::UnsupportedLogicalMessage("a".to_owned());
    assert!(plain.message().contains("\"a\""));
    let quoted = LiveReplicationError::<String>::UnsupportedLogicalMessage("a\"b\n".to_owned());
    assert!(quoted.message().contains("\"a\\\"b\\n\""));
}

// ---------------------------------------------------------------------------------------------
// The driver
// ---------------------------------------------------------------------------------------------

#[test]
fn driver_recovers_processes_acknowledges_stops_and_summarizes() {
    let journal = Disk::new();
    let checkpoint = Disk::new();
    let applied = Cell::new(0_u32);
    let mut apply = |_batch: &TransactionBatch| -> Result<(), ApplyFailure> {
        applied.set(applied.get().saturating_add(1));
        Ok(())
    };
    let mut driver =
        Driver::open(&journal, &checkpoint, &mut apply).unwrap_or_else(|_| unreachable!());

    assert_eq!(driver.resume_lsn(), LogSequenceNumber::zero());
    assert_eq!(driver.summary().events_seen, 0);
    assert_eq!(driver.summary().acknowledgements, 0);

    assert!(matches!(
        driver.process(keepalive(9, false), &mut apply),
        Ok(LiveEventOutcome::Continue)
    ));
    assert!(matches!(
        driver.process(begin(20, 7), &mut apply),
        Ok(LiveEventOutcome::Continue)
    ));
    for data in [relation(11), insert(11, b"x")] {
        assert!(matches!(
            driver.process(xlog(20, 20, data), &mut apply),
            Ok(LiveEventOutcome::Continue)
        ));
    }
    assert!(matches!(
        driver.process(commit(20, 21), &mut apply),
        Ok(LiveEventOutcome::Acknowledge(at)) if at == lsn(21)
    ));
    assert!(matches!(
        driver.process(stopped(22), &mut apply),
        Ok(LiveEventOutcome::Stop(at)) if at == lsn(22)
    ));

    let summary = driver.summary();
    assert_eq!(summary.events_seen, 6);
    assert_eq!(summary.acknowledgements, 1);
    assert_eq!(summary.progress.received_lsn, lsn(22));
    assert_eq!(summary.progress.durable_lsn, lsn(21));
    assert_eq!(summary.progress.applied_lsn, lsn(21));
    assert_eq!(applied.get(), 1);

    let recovered_applies = Cell::new(0_u32);
    let mut recover = |_batch: &TransactionBatch| -> Result<(), ApplyFailure> {
        recovered_applies.set(recovered_applies.get().saturating_add(1));
        Ok(())
    };
    let recovered =
        Driver::open(&journal, &checkpoint, &mut recover).unwrap_or_else(|_| unreachable!());
    assert_eq!(recovered.resume_lsn(), lsn(21));
    assert_eq!(recovered.summary().events_seen, 0);
    assert_eq!(recovered.summary().acknowledgements, 0);
    assert_eq!(recovered_applies.get(), 0);
}

#[test]
fn driver_open_preserves_the_exact_durable_failure_layer() {
    let mut apply = |_batch: &TransactionBatch| -> Result<(), ApplyFailure> { Ok(()) };
    let error = Driver::open(&Disk::missing(), &Disk::missing(), &mut apply)
        .err()
        .unwrap_or_else(|| unreachable!());
    assert!(matches!(
        error,
        LiveReplicationError::Journal(JournalError::Io(_))
    ));

    let error = Driver::open(&Disk::new(), &Disk::missing(), &mut apply)
        .err()
        .unwrap_or_else(|| unreachable!());
    assert!(matches!(
        error,
        LiveReplicationError::Checkpoint(CheckpointError::Io(_))
    ));

    let corrupt_journal = Disk::of(vec![0xff; 64]);
    let error = Driver::open(&corrupt_journal, &Disk::new(), &mut apply)
        .err()
        .unwrap_or_else(|| unreachable!());
    assert!(matches!(
        error,
        LiveReplicationError::Journal(JournalError::InvalidMagic(0))
    ));

    let corrupt_checkpoint = Disk::of(vec![0xff; 36]);
    let error = Driver::open(&Disk::new(), &corrupt_checkpoint, &mut apply)
        .err()
        .unwrap_or_else(|| unreachable!());
    assert!(matches!(
        error,
        LiveReplicationError::Checkpoint(CheckpointError::InvalidMagic(0))
    ));

    let mut fail = |_batch: &TransactionBatch| -> Result<(), ApplyFailure> { Err(ApplyFailure) };
    let error = Driver::open(&write_journal(&[edge(20, 21, 1)]), &Disk::new(), &mut fail)
        .err()
        .unwrap_or_else(|| unreachable!());
    assert!(matches!(
        error,
        LiveReplicationError::Processor(ProcessorError::Apply(CheckpointApplyError::Apply(
            ApplyFailure
        )))
    ));
}

#[test]
fn rejected_events_are_counted_but_never_acknowledged() {
    let mut apply = |_batch: &TransactionBatch| -> Result<(), ApplyFailure> { Ok(()) };
    let mut driver =
        Driver::open(&Disk::new(), &Disk::new(), &mut apply).unwrap_or_else(|_| unreachable!());

    let error = driver
        .process(message(1, "unsupported"), &mut apply)
        .err()
        .unwrap_or_else(|| unreachable!());
    assert!(matches!(
        error,
        LiveReplicationError::UnsupportedLogicalMessage(prefix) if prefix == "unsupported"
    ));
    assert_eq!(driver.summary().events_seen, 1);
    assert_eq!(driver.summary().acknowledgements, 0);
    assert_eq!(
        driver.summary().progress.applied_lsn,
        LogSequenceNumber::zero()
    );

    driver
        .process(begin(20, 7), &mut apply)
        .unwrap_or_else(|_| unreachable!());
    let error = driver
        .process(stopped(20), &mut apply)
        .err()
        .unwrap_or_else(|| unreachable!());
    assert!(matches!(
        error,
        LiveReplicationError::StoppedMidTransaction(at) if at == lsn(20)
    ));
    assert_eq!(driver.summary().events_seen, 3);
    assert_eq!(driver.summary().acknowledgements, 0);
}

#[test]
fn failed_commit_apply_keeps_driver_progress_unacknowledged() {
    let applied = Cell::new(0_u32);
    let mut apply = |_batch: &TransactionBatch| -> Result<(), ApplyFailure> {
        applied.set(applied.get().saturating_add(1));
        Ok(())
    };
    let mut driver =
        Driver::open(&Disk::new(), &Disk::new(), &mut apply).unwrap_or_else(|_| unreachable!());

    for event in [
        begin(20, 7),
        xlog(20, 20, relation(11)),
        xlog(20, 20, insert(11, &[1])),
    ] {
        driver
            .process(event, &mut apply)
            .unwrap_or_else(|_| unreachable!());
    }

    let mut fail = |_batch: &TransactionBatch| -> Result<(), ApplyFailure> { Err(ApplyFailure) };
    let error = driver
        .process(commit(20, 21), &mut fail)
        .err()
        .unwrap_or_else(|| unreachable!());
    assert!(matches!(
        error,
        LiveReplicationError::Processor(ProcessorError::Apply(CheckpointApplyError::Apply(
            ApplyFailure
        )))
    ));
    assert_eq!(applied.get(), 0);
    assert_eq!(driver.summary().events_seen, 4);
    assert_eq!(driver.summary().acknowledgements, 0);
    assert_eq!(
        driver.summary().progress.applied_lsn,
        LogSequenceNumber::zero()
    );
    assert_eq!(
        driver.summary().progress.durable_lsn,
        LogSequenceNumber::zero()
    );
}

#[test]
fn typed_driver_errors_keep_their_sources_when_available() {
    let journal =
        LiveReplicationError::<String>::Journal(JournalError::Io("journal".to_owned()));
    let checkpoint =
        LiveReplicationError::<String>::Checkpoint(CheckpointError::Io("checkpoint".to_owned()));
    assert!(journal.message().contains("journal"));
    assert!(checkpoint.message().contains("checkpoint"));
}

#[test]
fn transport_failure_is_named_in_the_diagnostic() {
    let error = LiveReplicationError::<String>::Transport("connection refused".to_owned());
    assert!(error.message().contains("transport:"));
    assert!(error.message().ends_with("connection refused"));
}

fn baseline_batch(commit: u64, end: u64, value: u8) -> TransactionBatch {
    batch(7, 42, commit, end, value)
}

#[test]
fn empty_durable_state_resumes_exactly_from_snapshot_baseline() {
    let mut apply = |_batch: &TransactionBatch| -> Result<(), Infallible> { Ok(()) };
    let driver = Driver::open_from_baseline(&Disk::new(), &Disk::new(), lsn(100), &mut apply)
        .unwrap_or_else(|_| unreachable!());

    assert_eq!(driver.resume_lsn(), lsn(100));
}

#[test]
fn durable_uncheckpointed_wal_is_recovered_on_top_of_snapshot_baseline() {
    let durable = baseline_batch(120, 121, 9);
    let mut applied = Vec::new();
    let mut apply = |transaction: &TransactionBatch| -> Result<(), Infallible> {
        applied.push(transaction.clone());
        Ok(())
    };
    let driver = Driver::open_from_baseline(
        &write_journal(&[durable.clone()]),
        &Disk::new(),
        lsn(100),
        &mut apply,
    )
    .unwrap_or_else(|_| unreachable!());

    assert_eq!(driver.resume_lsn(), lsn(121));
    assert_eq!(applied, vec![durable]);
}

#[test]
fn durable_state_behind_snapshot_baseline_is_rejected() {
    let mut apply = |_transaction: &TransactionBatch| -> Result<(), Infallible> { Ok(()) };
    let result = Driver::open_from_baseline(
        &write_journal(&[baseline_batch(80, 81, 1)]),
        &Disk::new(),
        lsn(100),
        &mut apply,
    );

    assert!(matches!(
        result,
        Err(LiveReplicationError::Bootstrap(
            BootstrapError::RecoveredBeforeBaseline {
                baseline,
                recovered,
            }
        )) if baseline == lsn(100) && recovered == lsn(81)
    ));
}

// ---------------------------------------------------------------------------------------------
// Bootstrap
// ---------------------------------------------------------------------------------------------

fn descriptor() -> SnapshotDescriptor {
    SnapshotDescriptor::try_new("snap-1", lsn(100), 1, 1, vec![10, 20])
        .unwrap_or_else(|_| unreachable!())
}

#[test]
fn bootstrap_reaches_ready_only_after_snapshot_replay_and_validation() {
    let mut state = BootstrapState::empty();
    state
        .begin_snapshot(descriptor(), GenerationId::new(7))
        .unwrap_or_else(|_| unreachable!());
    assert_eq!(state.phase(), BootstrapPhase::Snapshotting);
    state
        .record_snapshot_rows("snap-1", 3)
        .unwrap_or_else(|_| unreachable!());
    state
        .finish_snapshot("snap-1")
        .unwrap_or_else(|_| unreachable!());
    assert_eq!(state.phase(), BootstrapPhase::ReplayingWal);
    state
        .replay_wal("snap-1", lsn(100), lsn(120), lsn(120), lsn(120))
        .unwrap_or_else(|_| unreachable!());
    state
        .begin_validation("snap-1", lsn(120))
        .unwrap_or_else(|_| unreachable!());
    assert_eq!(state.phase(), BootstrapPhase::Validating);
    state.mark_ready("snap-1").unwrap_or_else(|_| unreachable!());
    assert_eq!(state.phase(), BootstrapPhase::Ready);
    assert_eq!(state.progress().rows_read(), 3);
    assert_eq!(state.progress().applied_lsn(), lsn(120));
    assert_eq!(state.progress().generation_candidate(), GenerationId::new(7));
}

#[test]
fn bootstrap_rejects_identity_regression_gap_and_premature_publication() {
    let mut state = BootstrapState::empty();
    state
        .begin_snapshot(descriptor(), GenerationId::new(7))
        .unwrap_or_else(|_| unreachable!());
    assert!(matches!(
        state.mark_ready("snap-1"),
        Err(BootstrapError::InvalidPhase { .. })
    ));
    assert!(matches!(
        state.record_snapshot_rows("other", 1),
        Err(BootstrapError::SnapshotMismatch)
    ));
    state
        .finish_snapshot("snap-1")
        .unwrap_or_else(|_| unreachable!());
    assert!(matches!(
        state.replay_wal("snap-1", lsn(101), lsn(120), lsn(120), lsn(120)),
        Err(BootstrapError::WalGap { expected, actual })
            if expected == lsn(100) && actual == lsn(101)
    ));
    state
        .replay_wal("snap-1", lsn(100), lsn(120), lsn(120), lsn(120))
        .unwrap_or_else(|_| unreachable!());
    assert!(matches!(
        state.replay_wal("snap-1", lsn(120), lsn(119), lsn(119), lsn(119)),
        Err(BootstrapError::ProgressRegression)
    ));
    assert!(matches!(
        state.begin_validation("snap-1", lsn(121)),
        Err(BootstrapError::CatchupIncomplete { .. })
    ));
}

#[test]
fn snapshot_sink_is_ordered_bounded_idempotent_and_not_publishable_after_abort() {
    let mut sink = SnapshotSink::begin(descriptor()).unwrap_or_else(|_| unreachable!());
    let first = SnapshotRow::try_new(10, b"a".to_vec(), b"one".to_vec())
        .unwrap_or_else(|_| unreachable!());
    assert_eq!(
        sink.append(first.clone()).unwrap_or_else(|_| unreachable!()),
        SnapshotAppend::Applied
    );
    assert_eq!(
        sink.append(first).unwrap_or_else(|_| unreachable!()),
        SnapshotAppend::Duplicate
    );
    assert!(matches!(
        sink.append(
            SnapshotRow::try_new(10, b"a".to_vec(), b"different".to_vec())
                .unwrap_or_else(|_| unreachable!())
        ),
        Err(BootstrapError::ConflictingSnapshotRow { table_id: 10 })
    ));
    assert!(matches!(
        sink.append(
            SnapshotRow::try_new(20, b"a".to_vec(), b"too-early".to_vec())
                .unwrap_or_else(|_| unreachable!())
        ),
        Err(BootstrapError::UnexpectedSnapshotTable { expected: 10, actual: 20 })
    ));
    sink.append(
        SnapshotRow::try_new(10, b"b".to_vec(), b"two".to_vec())
            .unwrap_or_else(|_| unreachable!()),
    )
    .unwrap_or_else(|_| unreachable!());
    sink.complete_table(10).unwrap_or_else(|_| unreachable!());
    sink.append(
        SnapshotRow::try_new(20, b"a".to_vec(), b"three".to_vec())
            .unwrap_or_else(|_| unreachable!()),
    )
    .unwrap_or_else(|_| unreachable!());
    sink.complete_table(20).unwrap_or_else(|_| unreachable!());
    let completed = sink.finish().unwrap_or_else(|_| unreachable!());
    assert_eq!(completed.replay_after_lsn(), lsn(100));
    assert_eq!(completed.row_count(), 3);

    let mut aborted = SnapshotSink::begin(descriptor()).unwrap_or_else(|_| unreachable!());
    aborted.abort();
    assert!(matches!(aborted.finish(), Err(BootstrapError::SnapshotAborted)));
}

#[test]
fn snapshot_descriptor_rejects_unbounded_and_ambiguous_identity() {
    assert!(matches!(
        SnapshotDescriptor::try_new("", lsn(100), 1, 1, vec![10]),
        Err(BootstrapError::InvalidSnapshotId)
    ));
    assert!(matches!(
        SnapshotDescriptor::try_new("snap", lsn(100), 1, 1, vec![]),
        Err(BootstrapError::InvalidTableSet)
    ));
    assert!(matches!(
        SnapshotDescriptor::try_new("snap", lsn(100), 1, 1, vec![10, 10]),
        Err(BootstrapError::InvalidTableSet)
    ));
    assert!(matches!(
        SnapshotDescriptor::try_new("snap", lsn(100), 1, 1, vec![20, 10]),
        Err(BootstrapError::InvalidTableSet)
    ));
}

fn row(table_id: u32, key: &[u8], value: &[u8]) -> SnapshotRow {
    SnapshotRow::try_new(table_id, key.to_vec(), value.to_vec()).unwrap_or_else(|_| unreachable!())
}

#[test]
fn snapshot_rows_and_tables_are_refused_out_of_order() {
    let mut sink = SnapshotSink::begin(descriptor()).unwrap_or_else(|_| unreachable!());
    assert_eq!(sink.append(row(10, b"b", b"1")), Ok(SnapshotAppend::Applied));
    assert_eq!(
        sink.append(row(10, b"a", b"1")),
        Err(BootstrapError::SnapshotKeyOrder { table_id: 10 })
    );
    assert_eq!(
        sink.append(row(10, b"ba", b"1")),
        Ok(SnapshotAppend::Applied)
    );
    assert_eq!(
        sink.complete_table(20),
        Err(BootstrapError::UnexpectedSnapshotTable {
            expected: 10,
            actual: 20
        })
    );
    assert_eq!(
        sink.clone().finish(),
        Err(BootstrapError::SnapshotIncomplete)
    );
    assert_eq!(sink.complete_table(10), Ok(()));
    assert_eq!(sink.complete_table(20), Ok(()));
    assert_eq!(
        sink.append(row(20, b"a", b"1")),
        Err(BootstrapError::SnapshotAlreadyComplete)
    );
    sink.abort();
    assert_eq!(
        sink.append(row(20, b"a", b"1")),
        Err(BootstrapError::SnapshotAborted)
    );
}

#[test]
fn snapshot_rows_are_bounded() {
    assert_eq!(
        SnapshotRow::try_new(1, vec![0; 4_097], vec![]),
        Err(BootstrapError::SnapshotKeyTooLarge(4_097))
    );
    assert_eq!(
        SnapshotRow::try_new(1, vec![0], vec![0; 16_777_217]),
        Err(BootstrapError::SnapshotValueTooLarge(16_777_217))
    );
    assert_eq!(
        SnapshotRow::try_new(1, vec![], vec![]),
        Err(BootstrapError::InvalidSnapshotRow)
    );
    assert_eq!(
        SnapshotRow::try_new(0, vec![1], vec![]),
        Err(BootstrapError::InvalidSnapshotRow)
    );
}

#[test]
fn descriptor_fields_are_checked_one_by_one() {
    assert_eq!(
        SnapshotDescriptor::try_new(&"s".repeat(129), lsn(1), 1, 1, vec![1]),
        Err(BootstrapError::InvalidSnapshotId)
    );
    assert_eq!(
        SnapshotDescriptor::try_new("s", lsn(0), 1, 1, vec![1]),
        Err(BootstrapError::InvalidSnapshotLsn)
    );
    assert_eq!(
        SnapshotDescriptor::try_new("s", lsn(1), 0, 1, vec![1]),
        Err(BootstrapError::InvalidVersion)
    );
    assert_eq!(
        SnapshotDescriptor::try_new("s", lsn(1), 1, 0, vec![1]),
        Err(BootstrapError::InvalidVersion)
    );
    assert_eq!(
        SnapshotDescriptor::try_new("s", lsn(1), 1, 1, vec![0]),
        Err(BootstrapError::InvalidTableSet)
    );
    let good = descriptor();
    assert_eq!(good.snapshot_id(), "snap-1");
    assert_eq!(good.consistent_lsn(), lsn(100));
    assert_eq!(good.schema_version(), 1);
    assert_eq!(good.projection_version(), 1);
    assert_eq!(good.tables(), [10, 20]);
}

#[test]
fn failed_bootstrap_and_unpublished_generation_are_refused() {
    let mut state = BootstrapState::empty();
    assert_eq!(
        state.begin_snapshot(descriptor(), GenerationId::new(0)),
        Err(BootstrapError::InvalidGeneration)
    );
    assert_eq!(state.begin_snapshot(descriptor(), GenerationId::new(1)), Ok(()));
    assert_eq!(state.record_snapshot_rows("snap-1", 1), Ok(()));
    assert_eq!(
        state.record_snapshot_rows("snap-1", u64::MAX),
        Err(BootstrapError::ProgressOverflow)
    );
    assert_eq!(
        state.record_snapshot_rows("snap-1", 1_000_000_000),
        Err(BootstrapError::SnapshotRowLimitExceeded)
    );
    assert_eq!(state.progress().rows_read(), 1);
    state.fail();
    assert_eq!(state.phase(), BootstrapPhase::Failed);
    assert_eq!(
        state.finish_snapshot("snap-1"),
        Err(BootstrapError::InvalidPhase {
            expected: BootstrapPhase::Snapshotting,
            actual: BootstrapPhase::Failed
        })
    );
    assert!(!BootstrapError::ValidationMissing.message().is_empty());
}
