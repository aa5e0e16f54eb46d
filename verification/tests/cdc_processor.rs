//! The checkpoint, and the processor that journals before it applies.

use std::cell::{Cell, RefCell};
use std::collections::BTreeSet;
use std::rc::Rc;
use veyra::cdc::checkpoint::{
    complete_len, AppliedCheckpoint, AppliedState, CheckpointAdvance, CheckpointError, BODY_LEN,
    RECORD_LEN,
};
use veyra::cdc::checksum::crc32c;
use veyra::cdc::journal::{Journal, JournalAppend, JournalError, ReplayDecision};
use veyra::cdc::lsn::LogSequenceNumber;
use veyra::cdc::pgoutput::{PgOutputError, PgOutputMessage, RelationMetadata, ReplicaIdentity};
use veyra::cdc::processor::{
    DurableTransactionProcessor, ProcessingOutcome, ProcessorError, ProcessorStep,
};
use veyra::cdc::stream::StreamError;
use veyra::cdc::transaction::{
    ChangeKind, RowChange, TransactionBatch, TransactionBuildError, TransactionValidationError,
};
use veyra::text::Diagnostic;

#[derive(Clone, Copy, Debug, Eq, PartialEq)]
struct ApplyFailure;

/// A file held in memory, shared by whoever opened it.
#[derive(Clone, Default)]
struct Disk {
    bytes: Rc<RefCell<Vec<u8>>>,
    full: bool,
}

impl Disk {
    fn new() -> Self {
        Self::default()
    }

    fn full() -> Self {
        Self {
            full: true,
            ..Self::default()
        }
    }

    fn of(bytes: Vec<u8>) -> Self {
        Self {
            bytes: Rc::new(RefCell::new(bytes)),
            full: false,
        }
    }

    fn read(&self) -> Vec<u8> {
        self.bytes.borrow().clone()
    }

    fn len(&self) -> usize {
        self.bytes.borrow().len()
    }

    fn append(&self, bytes: &[u8]) -> Result<(), String> {
        if self.full {
            return Err("no space left on device".to_owned());
        }
        self.bytes.borrow_mut().extend_from_slice(bytes);
        Ok(())
    }

    fn truncate(&self, len: u64) {
        self.bytes
            .borrow_mut()
            .truncate(usize::try_from(len).unwrap_or(usize::MAX));
    }
}

struct JournalFile {
    journal: Journal,
    disk: Disk,
}

impl JournalFile {
    fn open(disk: &Disk) -> Result<Self, JournalError> {
        let (journal, cut) = Journal::open(&disk.read())?;
        if let Some(len) = cut {
            disk.truncate(len);
        }
        Ok(Self {
            journal,
            disk: disk.clone(),
        })
    }

    fn append(&mut self, batch: &TransactionBatch) -> Result<ReplayDecision, JournalError> {
        match self.journal.append(batch)? {
            JournalAppend::Duplicate => Ok(ReplayDecision::Duplicate),
            JournalAppend::Write(record) => {
                self.disk.append(&record).map_err(JournalError::Io)?;
                self.journal.confirm(batch);
                Ok(ReplayDecision::Apply)
            }
        }
    }
}

struct CheckpointFile {
    checkpoint: AppliedCheckpoint,
    disk: Disk,
}

impl CheckpointFile {
    fn open(disk: &Disk) -> Result<Self, CheckpointError> {
        let checkpoint = AppliedCheckpoint::open(&disk.read())?;
        disk.truncate(complete_len(disk.len() as u64));
        Ok(Self {
            checkpoint,
            disk: disk.clone(),
        })
    }

    fn advance(&mut self, batch: &TransactionBatch) -> Result<CheckpointAdvance, CheckpointError> {
        match self.checkpoint.advance(batch)? {
            None => Ok(CheckpointAdvance::Duplicate),
            Some(record) => {
                self.disk.append(&record).map_err(CheckpointError::Io)?;
                self.checkpoint.confirm(batch);
                Ok(CheckpointAdvance::Advanced)
            }
        }
    }

    fn state(&self) -> AppliedState {
        self.checkpoint.state()
    }
}

struct Processor {
    processor: DurableTransactionProcessor,
    disk: Disk,
}

impl Processor {
    fn open(disk: &Disk) -> Result<Self, JournalError> {
        let (processor, cut) = DurableTransactionProcessor::open(&disk.read())?;
        if let Some(len) = cut {
            disk.truncate(len);
        }
        Ok(Self {
            processor,
            disk: disk.clone(),
        })
    }

    fn settle<E>(
        &mut self,
        step: ProcessorStep,
        apply: &mut dyn FnMut(&TransactionBatch) -> Result<(), E>,
    ) -> Result<ProcessingOutcome, ProcessorError<E>> {
        match step {
            ProcessorStep::Pending => return Ok(ProcessingOutcome::Pending),
            ProcessorStep::Write(record) => {
                let written = self.disk.append(&record);
                self.processor.journal_written(written)?;
            }
            ProcessorStep::Apply => {}
        }
        let applied = match self.processor.batch_to_apply() {
            Some(batch) => apply(batch),
            None => unreachable!("a committed transaction waits to be applied"),
        };
        self.processor.batch_applied(applied)
    }

    fn push<E>(
        &mut self,
        input: &[u8],
        apply: &mut dyn FnMut(&TransactionBatch) -> Result<(), E>,
    ) -> Result<ProcessingOutcome, ProcessorError<E>> {
        let step = self.processor.push(input)?;
        self.settle(step, apply)
    }

    fn consume_message<E>(
        &mut self,
        message: PgOutputMessage,
        apply: &mut dyn FnMut(&TransactionBatch) -> Result<(), E>,
    ) -> Result<ProcessingOutcome, ProcessorError<E>> {
        let step = self.processor.consume_message(message)?;
        self.settle(step, apply)
    }

    fn recover<E>(
        &mut self,
        apply: &mut dyn FnMut(&TransactionBatch) -> Result<(), E>,
    ) -> Result<LogSequenceNumber, ProcessorError<E>> {
        self.processor.recover(Ok(self.disk.read()))?;
        while let Some(batch) = self.processor.batch_to_replay() {
            let outcome = apply(batch);
            self.processor.batch_replayed(outcome)?;
        }
        Ok(self.processor.recovered())
    }

    fn is_poisoned(&self) -> bool {
        self.processor.is_poisoned()
    }

    fn highest_durable_commit_lsn(&self) -> LogSequenceNumber {
        self.processor.highest_durable_commit_lsn()
    }
}

// ---------------------------------------------------------------------------------------------
// The checkpoint
// ---------------------------------------------------------------------------------------------

fn inserted(commit: u64, end: u64, value: u8) -> TransactionBatch {
    TransactionBatch::try_new(
        1,
        LogSequenceNumber::new(commit),
        LogSequenceNumber::new(commit),
        LogSequenceNumber::new(end),
        vec![RowChange::new(
            7,
            ChangeKind::Insert,
            None,
            Some(vec![value]),
        )],
    )
    .unwrap_or_else(|_| unreachable!())
}

#[test]
fn persists_recovers_and_deduplicates_last_applied() -> Result<(), CheckpointError> {
    let disk = Disk::new();
    let first = inserted(10, 11, 1);
    let second = inserted(20, 21, 2);
    {
        let mut checkpoint = CheckpointFile::open(&disk)?;
        assert_eq!(checkpoint.advance(&first)?, CheckpointAdvance::Advanced);
        assert_eq!(checkpoint.advance(&first)?, CheckpointAdvance::Duplicate);
        assert_eq!(checkpoint.advance(&second)?, CheckpointAdvance::Advanced);
    }
    let checkpoint = CheckpointFile::open(&disk)?;
    assert_eq!(checkpoint.state().commit_lsn().get(), 20);
    assert_eq!(checkpoint.state().end_lsn().get(), 21);
    assert_eq!(checkpoint.state().fingerprint(), second.fingerprint());
    Ok(())
}

#[test]
fn incomplete_tail_is_truncated_on_recovery() -> Result<(), CheckpointError> {
    let disk = Disk::new();
    let record = inserted(10, 11, 1);
    {
        let mut checkpoint = CheckpointFile::open(&disk)?;
        checkpoint.advance(&record)?;
    }
    assert_eq!(disk.append(&[1, 2, 3]), Ok(()));
    let checkpoint = CheckpointFile::open(&disk)?;
    assert_eq!(checkpoint.state().commit_lsn().get(), 10);
    assert_eq!(disk.len(), RECORD_LEN);
    Ok(())
}

#[test]
fn corrupted_complete_record_fails_closed() -> Result<(), CheckpointError> {
    let disk = Disk::new();
    let record = inserted(10, 11, 1);
    {
        let mut checkpoint = CheckpointFile::open(&disk)?;
        checkpoint.advance(&record)?;
    }
    let mut bytes = disk.read();
    bytes[24] ^= 0x55;
    assert!(matches!(
        CheckpointFile::open(&Disk::of(bytes)),
        Err(CheckpointError::ChecksumMismatch(0))
    ));
    Ok(())
}

#[test]
fn conflicting_and_regressed_transitions_fail_closed() -> Result<(), CheckpointError> {
    let mut checkpoint = CheckpointFile::open(&Disk::new())?;
    checkpoint.advance(&inserted(20, 21, 1))?;
    assert!(matches!(
        checkpoint.advance(&inserted(20, 22, 2)),
        Err(CheckpointError::ConflictingCommit(_))
    ));
    assert!(matches!(
        checkpoint.advance(&inserted(10, 11, 1)),
        Err(CheckpointError::Regressed)
    ));
    Ok(())
}

#[test]
fn display_is_stable() {
    assert_eq!(
        CheckpointError::Regressed.message(),
        "checkpoint LSN regressed"
    );
}

#[test]
fn checkpoint_write_and_sync_failures_are_typed_and_never_publish_state() {
    let record = inserted(10, 11, 1);

    let mut full = CheckpointFile::open(&Disk::full()).unwrap_or_else(|_| unreachable!());
    assert!(matches!(full.advance(&record), Err(CheckpointError::Io(_))));
    assert_eq!(full.state().commit_lsn(), LogSequenceNumber::zero());

    let mut null = CheckpointFile::open(&Disk::full()).unwrap_or_else(|_| unreachable!());
    assert!(matches!(null.advance(&record), Err(CheckpointError::Io(_))));
    assert_eq!(null.state().commit_lsn(), LogSequenceNumber::zero());
}

fn updated(commit: u64, end: u64, value: u8) -> TransactionBatch {
    TransactionBatch::try_new(
        9,
        LogSequenceNumber::new(commit),
        LogSequenceNumber::new(commit),
        LogSequenceNumber::new(end),
        vec![RowChange::new(
            3,
            ChangeKind::Update,
            Some(vec![value]),
            Some(vec![value.saturating_add(1)]),
        )],
    )
    .unwrap_or_else(|_| unreachable!())
}

fn records() -> Vec<u8> {
    let disk = Disk::new();
    let mut checkpoint = CheckpointFile::open(&disk).unwrap_or_else(|_| unreachable!());
    checkpoint
        .advance(&updated(10, 11, 1))
        .unwrap_or_else(|_| unreachable!());
    checkpoint
        .advance(&updated(20, 21, 2))
        .unwrap_or_else(|_| unreachable!());
    disk.read()
}

fn rewrite_crc(record: &mut [u8]) {
    let checksum = crc32c(&record[..BODY_LEN]);
    record[BODY_LEN..RECORD_LEN].copy_from_slice(&checksum.to_le_bytes());
}

#[test]
fn duplicate_checkpoint_records_are_idempotent_on_recovery() {
    let bytes = records();
    let mut duplicated = Vec::new();
    duplicated.extend_from_slice(&bytes[..RECORD_LEN]);
    duplicated.extend_from_slice(&bytes[..RECORD_LEN]);
    duplicated.extend_from_slice(&bytes[RECORD_LEN..]);

    let checkpoint =
        CheckpointFile::open(&Disk::of(duplicated)).unwrap_or_else(|_| unreachable!());
    assert_eq!(checkpoint.state().commit_lsn(), LogSequenceNumber::new(20));
    assert_eq!(checkpoint.state().end_lsn(), LogSequenceNumber::new(21));
}

#[test]
fn regressed_and_conflicting_records_fail_closed_during_recovery() {
    let bytes = records();

    let mut variant = bytes.clone();
    let second = &mut variant[RECORD_LEN..RECORD_LEN * 2];
    second[8..16].copy_from_slice(&5_u64.to_le_bytes());
    second[16..24].copy_from_slice(&6_u64.to_le_bytes());
    rewrite_crc(second);
    assert!(matches!(
        CheckpointFile::open(&Disk::of(variant)),
        Err(CheckpointError::Regressed)
    ));

    let mut variant = bytes;
    let second = &mut variant[RECORD_LEN..RECORD_LEN * 2];
    second[8..16].copy_from_slice(&10_u64.to_le_bytes());
    second[16..24].copy_from_slice(&12_u64.to_le_bytes());
    rewrite_crc(second);
    assert!(matches!(
        CheckpointFile::open(&Disk::of(variant)),
        Err(CheckpointError::ConflictingCommit(lsn)) if lsn == LogSequenceNumber::new(10)
    ));
}

#[test]
fn every_incomplete_checkpoint_prefix_is_truncated() {
    let bytes = records();
    for end in 0..RECORD_LEN {
        let disk = Disk::of(bytes[..end].to_vec());
        let checkpoint = CheckpointFile::open(&disk).unwrap_or_else(|_| unreachable!());
        assert_eq!(checkpoint.state().commit_lsn(), LogSequenceNumber::zero());
        assert_eq!(disk.len(), 0);
    }
}

#[test]
fn duplicate_advance_is_reported_without_new_durable_record() {
    let disk = Disk::new();
    let first = updated(10, 11, 1);
    let mut checkpoint = CheckpointFile::open(&disk).unwrap_or_else(|_| unreachable!());
    assert_eq!(
        checkpoint
            .advance(&first)
            .unwrap_or_else(|_| unreachable!()),
        CheckpointAdvance::Advanced
    );
    let len = disk.len();
    assert_eq!(
        checkpoint
            .advance(&first)
            .unwrap_or_else(|_| unreachable!()),
        CheckpointAdvance::Duplicate
    );
    assert_eq!(disk.len(), len);
}

fn covered(commit: u64, end: u64, value: u8) -> TransactionBatch {
    TransactionBatch::try_new(
        7,
        LogSequenceNumber::new(commit),
        LogSequenceNumber::new(commit),
        LogSequenceNumber::new(end),
        vec![RowChange::new(
            11,
            ChangeKind::Insert,
            None,
            Some(vec![value]),
        )],
    )
    .unwrap_or_else(|_| unreachable!())
}

#[test]
fn checkpoint_debug_error_sources_and_wire_corruption_are_exercised() {
    let disk = Disk::new();
    let first = covered(10, 11, 1);
    {
        let mut checkpoint = CheckpointFile::open(&disk).unwrap_or_else(|_| unreachable!());
        checkpoint
            .advance(&first)
            .unwrap_or_else(|_| unreachable!());
        let debug = format!("{:?}", checkpoint.checkpoint);
        assert!(debug.contains("AppliedCheckpoint"));
        assert_eq!(checkpoint.state().end_lsn().get(), 11);
    }

    let displays = [
        CheckpointError::InvalidMagic(4),
        CheckpointError::UnsupportedVersion(9),
        CheckpointError::ChecksumMismatch(8),
        CheckpointError::CorruptRecord,
        CheckpointError::EndBeforeCommit,
        CheckpointError::Regressed,
        CheckpointError::ConflictingCommit(LogSequenceNumber::new(10)),
        CheckpointError::DurableMismatch(LogSequenceNumber::new(10)),
        CheckpointError::MissingFromJournal(LogSequenceNumber::new(10)),
        CheckpointError::LengthOverflow,
    ];
    for error in displays {
        assert!(!error.message().is_empty());
    }
    let io_error = CheckpointError::Io("boom".to_owned());
    assert!(io_error.message().contains("boom"));

    let original = disk.read();
    let mut bytes = original.clone();
    bytes[0] ^= 0xff;
    assert!(matches!(
        CheckpointFile::open(&Disk::of(bytes)),
        Err(CheckpointError::InvalidMagic(0))
    ));

    let mut bytes = original.clone();
    bytes[4..6].copy_from_slice(&99_u16.to_le_bytes());
    assert!(matches!(
        CheckpointFile::open(&Disk::of(bytes)),
        Err(CheckpointError::UnsupportedVersion(99))
    ));

    let mut bytes = original;
    bytes[8..16].copy_from_slice(&20_u64.to_le_bytes());
    bytes[16..24].copy_from_slice(&19_u64.to_le_bytes());
    let checksum = crc32c(&bytes[..32]);
    bytes[32..36].copy_from_slice(&checksum.to_le_bytes());
    assert!(matches!(
        CheckpointFile::open(&Disk::of(bytes)),
        Err(CheckpointError::EndBeforeCommit)
    ));
}

// ---------------------------------------------------------------------------------------------
// The journal
// ---------------------------------------------------------------------------------------------

#[test]
fn journal_debug_sources_and_durable_corruption_paths_are_exercised() {
    let disk = Disk::new();
    let first = covered(20, 21, 2);
    {
        let mut journal = JournalFile::open(&disk).unwrap_or_else(|_| unreachable!());
        assert_eq!(journal.append(&first), Ok(ReplayDecision::Apply));
        assert_eq!(journal.append(&first), Ok(ReplayDecision::Duplicate));
        assert!(format!("{:?}", journal.journal).contains("Journal"));
    }
    let bytes = disk.read();

    let displays = [
        JournalError::InvalidMagic(1),
        JournalError::UnsupportedVersion(2),
        JournalError::CorruptHeader,
        JournalError::RecordTooLarge(3),
        JournalError::TupleTooLarge(4),
        JournalError::TooManyChanges(5),
        JournalError::IncompleteTail(6),
        JournalError::ChecksumMismatch(7),
        JournalError::HeaderPayloadMismatch(8),
        JournalError::UnexpectedEof,
        JournalError::LengthOverflow,
        JournalError::InvalidChangeKind(9),
        JournalError::InvalidOptionTag(10),
        JournalError::TrailingBytes(11),
        JournalError::ConflictingReplay(LogSequenceNumber::new(12)),
        JournalError::DuplicateDurableRecord(LogSequenceNumber::new(13)),
    ];
    for error in displays {
        assert!(!error.message().is_empty());
    }
    let invalid_tx = JournalError::InvalidTransaction(TransactionValidationError::EndBeforeCommit);
    assert!(!invalid_tx.message().is_empty());
    let io_error = JournalError::Io("io".to_owned());
    assert!(io_error.message().contains("io"));

    let mut doubled = bytes.clone();
    doubled.extend_from_slice(&bytes);
    assert!(matches!(
        JournalFile::open(&Disk::of(doubled)),
        Err(JournalError::DuplicateDurableRecord(_))
    ));

    let mut corrupted = bytes.clone();
    corrupted[0] ^= 0xff;
    assert!(matches!(
        JournalFile::open(&Disk::of(corrupted)),
        Err(JournalError::InvalidMagic(0))
    ));

    let mut corrupted = bytes.clone();
    corrupted[4..6].copy_from_slice(&99_u16.to_le_bytes());
    assert!(matches!(
        JournalFile::open(&Disk::of(corrupted)),
        Err(JournalError::UnsupportedVersion(99))
    ));

    let mut corrupted = bytes.clone();
    corrupted[16..24].copy_from_slice(&999_u64.to_le_bytes());
    assert!(matches!(
        JournalFile::open(&Disk::of(corrupted)),
        Err(JournalError::HeaderPayloadMismatch(0))
    ));

    let mut corrupted = bytes;
    if corrupted.len() > 33 {
        corrupted[32] ^= 0xff;
    }
    assert!(matches!(
        JournalFile::open(&Disk::of(corrupted)),
        Err(JournalError::ChecksumMismatch(0))
    ));
}

#[test]
fn transaction_and_stream_error_display_boundaries_are_exercised() {
    let stream_errors = [
        StreamError::UnknownRelation(1),
        StreamError::Transaction(TransactionBuildError::CommitWithoutBegin),
    ];
    for error in stream_errors {
        assert!(!error.message().is_empty());
    }
    for error in [
        TransactionValidationError::EndBeforeCommit,
        TransactionValidationError::CommitBeforeFinal,
        TransactionValidationError::EmptyChanges,
    ] {
        assert!(!error.message().is_empty());
    }
    assert!(matches!(
        PgOutputMessage::Change(RowChange::new(1, ChangeKind::Delete, Some(vec![1]), None)),
        PgOutputMessage::Change(_)
    ));
}

// ---------------------------------------------------------------------------------------------
// The processor
// ---------------------------------------------------------------------------------------------

fn begin(final_lsn: u64, xid: u32) -> Vec<u8> {
    let mut bytes = vec![b'B'];
    bytes.extend_from_slice(&final_lsn.to_be_bytes());
    bytes.extend_from_slice(&0_i64.to_be_bytes());
    bytes.extend_from_slice(&xid.to_be_bytes());
    bytes
}

fn relation(relation_id: u32) -> Vec<u8> {
    let mut bytes = vec![b'R'];
    bytes.extend_from_slice(&relation_id.to_be_bytes());
    bytes.extend_from_slice(b"public\0inventory\0");
    bytes.push(b'd');
    bytes.extend_from_slice(&1_u16.to_be_bytes());
    bytes.push(1);
    bytes.extend_from_slice(b"available\0");
    bytes.extend_from_slice(&16_u32.to_be_bytes());
    bytes.extend_from_slice(&(-1_i32).to_be_bytes());
    bytes
}

fn insert(relation_id: u32, value: &[u8]) -> Vec<u8> {
    let mut bytes = vec![b'I'];
    bytes.extend_from_slice(&relation_id.to_be_bytes());
    bytes.push(b'N');
    bytes.extend_from_slice(&1_u16.to_be_bytes());
    bytes.push(b't');
    bytes.extend_from_slice(&u32::try_from(value.len()).unwrap_or_default().to_be_bytes());
    bytes.extend_from_slice(value);
    bytes
}

fn commit(commit_lsn: u64, end_lsn: u64) -> Vec<u8> {
    let mut bytes = vec![b'C', 0];
    bytes.extend_from_slice(&commit_lsn.to_be_bytes());
    bytes.extend_from_slice(&end_lsn.to_be_bytes());
    bytes.extend_from_slice(&0_i64.to_be_bytes());
    bytes
}

fn rooms(relation_id: u32) -> PgOutputMessage {
    PgOutputMessage::Relation(RelationMetadata {
        relation_id,
        namespace: "public".to_owned(),
        name: "rooms".to_owned(),
        replica_identity: ReplicaIdentity::Default,
        columns: Vec::new(),
    })
}

fn feed_transaction<E>(
    processor: &mut Processor,
    apply: &mut dyn FnMut(&TransactionBatch) -> Result<(), E>,
) -> Result<ProcessingOutcome, ProcessorError<E>> {
    assert!(matches!(
        processor.push(&begin(20, 7), apply)?,
        ProcessingOutcome::Pending
    ));
    assert!(matches!(
        processor.push(&relation(42), apply)?,
        ProcessingOutcome::Pending
    ));
    assert!(matches!(
        processor.push(&insert(42, b"t"), apply)?,
        ProcessingOutcome::Pending
    ));
    processor.push(&commit(20, 21), apply)
}

#[test]
fn acknowledgement_is_returned_only_after_durable_successful_apply() {
    let disk = Disk::new();
    let mut processor = Processor::open(&disk).unwrap_or_else(|_| unreachable!());
    let mut observed = Vec::new();
    let mut apply = |batch: &TransactionBatch| -> Result<(), ApplyFailure> {
        observed.push(batch.commit_lsn());
        Ok(())
    };

    let outcome =
        feed_transaction(&mut processor, &mut apply).unwrap_or_else(|_| unreachable!());
    assert_eq!(
        outcome,
        ProcessingOutcome::Applied {
            acknowledge_lsn: LogSequenceNumber::new(21),
            replay: ReplayDecision::Apply,
        }
    );
    assert_eq!(observed, vec![LogSequenceNumber::new(20)]);
    assert!(!processor.is_poisoned());
    assert_eq!(
        processor.highest_durable_commit_lsn(),
        LogSequenceNumber::new(20)
    );
    assert!(disk.len() > 0);
}

#[test]
fn failed_apply_yields_no_ack_and_poisoned_instance_cannot_continue() {
    let disk = Disk::new();
    {
        let mut processor = Processor::open(&disk).unwrap_or_else(|_| unreachable!());
        let mut fail =
            |_batch: &TransactionBatch| -> Result<(), ApplyFailure> { Err(ApplyFailure) };
        let result = feed_transaction(&mut processor, &mut fail);
        assert!(matches!(result, Err(ProcessorError::Apply(ApplyFailure))));
        assert!(processor.is_poisoned());
        assert_eq!(
            processor.highest_durable_commit_lsn(),
            LogSequenceNumber::new(20)
        );
        assert!(matches!(
            processor.push(&begin(30, 8), &mut fail),
            Err(ProcessorError::Poisoned)
        ));
    }

    let mut restarted = Processor::open(&disk).unwrap_or_else(|_| unreachable!());
    let mut applied = BTreeSet::new();
    let mut apply = |batch: &TransactionBatch| -> Result<(), ApplyFailure> {
        applied.insert(batch.fingerprint());
        Ok(())
    };
    assert_eq!(
        restarted.recover(&mut apply),
        Ok(LogSequenceNumber::new(21))
    );
    assert_eq!(applied.len(), 1);
    assert!(!restarted.is_poisoned());
}

#[test]
fn duplicate_wal_is_reapplied_idempotently_before_ack() {
    let mut processor = Processor::open(&Disk::new()).unwrap_or_else(|_| unreachable!());
    let mut applied = BTreeSet::new();
    let mut apply = |batch: &TransactionBatch| -> Result<(), ApplyFailure> {
        applied.insert(batch.fingerprint());
        Ok(())
    };
    assert!(matches!(
        feed_transaction(&mut processor, &mut apply),
        Ok(ProcessingOutcome::Applied {
            replay: ReplayDecision::Apply,
            ..
        })
    ));
    assert!(matches!(
        feed_transaction(&mut processor, &mut apply),
        Ok(ProcessingOutcome::Applied {
            replay: ReplayDecision::Duplicate,
            acknowledge_lsn,
        }) if acknowledge_lsn == LogSequenceNumber::new(21)
    ));
    assert_eq!(applied.len(), 1);
}

#[test]
fn consume_message_supports_structured_replication_transports() {
    let mut processor = Processor::open(&Disk::new()).unwrap_or_else(|_| unreachable!());
    let mut applied = 0_u32;
    let mut apply = |_batch: &TransactionBatch| -> Result<(), ApplyFailure> {
        applied = applied.saturating_add(1);
        Ok(())
    };
    assert_eq!(
        processor.consume_message(rooms(5), &mut apply),
        Ok(ProcessingOutcome::Pending)
    );
    assert_eq!(
        processor.consume_message(
            PgOutputMessage::Begin {
                final_lsn: LogSequenceNumber::new(40),
                commit_timestamp_micros: 0,
                xid: 10,
            },
            &mut apply,
        ),
        Ok(ProcessingOutcome::Pending)
    );
    assert_eq!(
        processor.consume_message(
            PgOutputMessage::Change(RowChange::new(5, ChangeKind::Insert, None, Some(vec![1]),)),
            &mut apply,
        ),
        Ok(ProcessingOutcome::Pending)
    );
    assert!(matches!(
        processor.consume_message(
            PgOutputMessage::Commit {
                flags: 0,
                commit_lsn: LogSequenceNumber::new(40),
                end_lsn: LogSequenceNumber::new(41),
                commit_timestamp_micros: 0,
            },
            &mut apply,
        ),
        Ok(ProcessingOutcome::Applied {
            acknowledge_lsn,
            ..
        }) if acknowledge_lsn == LogSequenceNumber::new(41)
    ));
    assert_eq!(applied, 1);
}

#[test]
fn stream_failure_poisoning_prevents_later_messages() {
    let mut processor = Processor::open(&Disk::new()).unwrap_or_else(|_| unreachable!());
    let mut apply = |_batch: &TransactionBatch| -> Result<(), ApplyFailure> { Ok(()) };
    let commit_without_begin = PgOutputMessage::Commit {
        flags: 0,
        commit_lsn: LogSequenceNumber::new(10),
        end_lsn: LogSequenceNumber::new(11),
        commit_timestamp_micros: 0,
    };
    assert!(matches!(
        processor.consume_message(commit_without_begin, &mut apply),
        Err(ProcessorError::Stream(_))
    ));
    assert!(processor.is_poisoned());
    assert!(matches!(
        processor.consume_message(rooms(1), &mut apply),
        Err(ProcessorError::Poisoned)
    ));
}

#[test]
fn journal_write_failure_poisoning_prevents_acknowledgement() {
    let mut processor = Processor::open(&Disk::full()).unwrap_or_else(|_| unreachable!());
    let mut apply = |_batch: &TransactionBatch| -> Result<(), ApplyFailure> { Ok(()) };
    assert!(matches!(
        feed_transaction(&mut processor, &mut apply),
        Err(ProcessorError::Journal(JournalError::Io(_)))
    ));
    assert!(processor.is_poisoned());
}

#[test]
fn corrupt_durable_journal_prevents_processor_start() {
    let mut corrupt = [0_u8; 32];
    corrupt[0..4].copy_from_slice(b"BAD!");
    assert!(Processor::open(&Disk::of(corrupt.to_vec())).is_err());
}

#[test]
fn malformed_pgoutput_poisoning_prevents_later_ack() {
    let mut processor = Processor::open(&Disk::new()).unwrap_or_else(|_| unreachable!());
    let applied = Cell::new(false);
    let mut apply = |_batch: &TransactionBatch| -> Result<(), ApplyFailure> {
        applied.set(true);
        Ok(())
    };
    let result = processor.push(&[0xff], &mut apply);
    assert!(matches!(result, Err(ProcessorError::Decode(_))));
    assert!(!applied.get());
    assert!(processor.is_poisoned());
    assert_eq!(
        processor.highest_durable_commit_lsn(),
        LogSequenceNumber::zero()
    );
    assert!(matches!(
        processor.push(&begin(20, 7), &mut apply),
        Err(ProcessorError::Poisoned)
    ));
}

#[test]
fn failed_recovery_poisoning_requires_restart() {
    let disk = Disk::new();
    {
        let mut processor = Processor::open(&disk).unwrap_or_else(|_| unreachable!());
        let mut apply = |_batch: &TransactionBatch| -> Result<(), ApplyFailure> { Ok(()) };
        assert!(feed_transaction(&mut processor, &mut apply).is_ok());
    }
    let mut restarted = Processor::open(&disk).unwrap_or_else(|_| unreachable!());
    let mut fail = |_batch: &TransactionBatch| -> Result<(), ApplyFailure> { Err(ApplyFailure) };
    assert!(matches!(
        restarted.recover(&mut fail),
        Err(ProcessorError::Apply(ApplyFailure))
    ));
    assert!(restarted.is_poisoned());
    assert!(matches!(
        restarted.recover(&mut fail),
        Err(ProcessorError::Poisoned)
    ));
}

#[test]
fn empty_recovery_returns_zero_lsn() {
    let mut processor = Processor::open(&Disk::new()).unwrap_or_else(|_| unreachable!());
    let mut apply = |_batch: &TransactionBatch| -> Result<(), ApplyFailure> { Ok(()) };
    assert_eq!(
        processor.recover(&mut apply),
        Ok(LogSequenceNumber::zero())
    );
    assert!(!processor.is_poisoned());
}

#[test]
fn processor_error_messages_are_stable() {
    assert_eq!(
        ProcessorError::<String>::Poisoned.message(),
        "processor is poisoned; restart required"
    );
    assert_eq!(
        ProcessorError::Apply("projection apply failed".to_owned()).message(),
        "apply: projection apply failed"
    );
}

#[test]
fn processor_recovery_poisoning_preserves_strict_journal_tail_semantics() {
    let disk = Disk::new();
    let mut processor = Processor::open(&disk).unwrap_or_else(|_| unreachable!());
    assert_eq!(disk.append(&[1]), Ok(()));
    let mut apply = |_batch: &TransactionBatch| -> Result<(), ApplyFailure> { Ok(()) };

    assert!(matches!(
        processor.recover(&mut apply),
        Err(ProcessorError::Journal(JournalError::IncompleteTail(0)))
    ));
    assert!(processor.is_poisoned());
    assert!(matches!(
        processor.recover(&mut apply),
        Err(ProcessorError::Poisoned)
    ));
}

#[test]
fn public_error_wrappers_preserve_sources_and_all_non_io_surfaces() {
    let journal_io = JournalError::Io("journal denied".to_owned());
    assert!(journal_io.message().contains("journal I/O error"));
    let journal_tx = JournalError::InvalidTransaction(TransactionValidationError::EndBeforeCommit);
    assert!(!journal_tx.message().is_empty());
    for error in [
        JournalError::InvalidMagic(1),
        JournalError::UnsupportedVersion(2),
        JournalError::CorruptHeader,
        JournalError::RecordTooLarge(1),
        JournalError::TupleTooLarge(1),
        JournalError::TooManyChanges(1),
        JournalError::IncompleteTail(1),
        JournalError::ChecksumMismatch(1),
        JournalError::HeaderPayloadMismatch(1),
        JournalError::UnexpectedEof,
        JournalError::InvalidChangeKind(9),
        JournalError::InvalidOptionTag(9),
        JournalError::TrailingBytes(1),
        JournalError::ConflictingReplay(LogSequenceNumber::new(1)),
        JournalError::DuplicateDurableRecord(LogSequenceNumber::new(1)),
    ] {
        assert!(!error.message().is_empty());
    }

    let checkpoint_io = CheckpointError::Io("checkpoint denied".to_owned());
    assert!(checkpoint_io.message().contains("checkpoint I/O"));
    for error in [
        CheckpointError::InvalidMagic(1),
        CheckpointError::UnsupportedVersion(2),
        CheckpointError::ChecksumMismatch(1),
        CheckpointError::CorruptRecord,
        CheckpointError::EndBeforeCommit,
        CheckpointError::Regressed,
        CheckpointError::ConflictingCommit(LogSequenceNumber::new(1)),
        CheckpointError::DurableMismatch(LogSequenceNumber::new(1)),
        CheckpointError::MissingFromJournal(LogSequenceNumber::new(1)),
        CheckpointError::LengthOverflow,
    ] {
        assert!(!error.message().is_empty());
    }

    let processor_errors = [
        ProcessorError::<String>::Decode(PgOutputError::UnsupportedMessage(255)),
        ProcessorError::<String>::Stream(StreamError::UnknownRelation(1)),
        ProcessorError::<String>::Journal(JournalError::CorruptHeader),
        ProcessorError::<String>::Apply("apply failed".to_owned()),
        ProcessorError::<String>::Poisoned,
    ];
    for error in processor_errors {
        assert!(!error.message().is_empty());
    }
    assert!(
        !StreamError::Transaction(TransactionBuildError::CommitWithoutBegin)
            .message()
            .is_empty()
    );
}

#[test]
fn unreadable_journal_poisons_recovery() {
    let mut processor = Processor::open(&Disk::new()).unwrap_or_else(|_| unreachable!());
    assert_eq!(
        processor
            .processor
            .recover::<ApplyFailure>(Err("gone".to_owned())),
        Err(ProcessorError::Journal(JournalError::Io("gone".to_owned())))
    );
    assert!(processor.is_poisoned());
}
