//! The checksummed journal: round trips, recovery, refusals.

use veyra::cdc::checksum::crc32c;
use veyra::cdc::journal::{
    decode_batch, encode_batch, Journal, JournalAppend, JournalError, ReplayDecision, ReplayGuard,
    HEADER_LEN, MAX_RECORD_BYTES,
};
use veyra::cdc::lsn::LogSequenceNumber;
use veyra::cdc::transaction::{ChangeKind, RowChange, TransactionBatch};

const MAX_CHANGES: u32 = 1_000_000;

/// A journal whose file is held in memory.
struct JournalFile {
    journal: Journal,
    bytes: Vec<u8>,
    disk_full: bool,
    removed: bool,
}

fn open(mut bytes: Vec<u8>) -> Result<JournalFile, JournalError> {
    let (journal, cut) = Journal::open(&bytes)?;
    if let Some(len) = cut {
        bytes.truncate(usize::try_from(len).unwrap_or(usize::MAX));
    }
    Ok(JournalFile {
        journal,
        bytes,
        disk_full: false,
        removed: false,
    })
}

impl JournalFile {
    fn append(&mut self, batch: &TransactionBatch) -> Result<ReplayDecision, JournalError> {
        match self.journal.append(batch)? {
            JournalAppend::Duplicate => Ok(ReplayDecision::Duplicate),
            JournalAppend::Write(record) => {
                if self.disk_full {
                    return Err(JournalError::Io("no space left on device".to_owned()));
                }
                self.bytes.extend_from_slice(&record);
                self.journal.confirm(batch);
                Ok(ReplayDecision::Apply)
            }
        }
    }

    fn replay(&self) -> Result<Vec<TransactionBatch>, JournalError> {
        if self.removed {
            return Err(JournalError::Io("no such file".to_owned()));
        }
        Journal::replay(&self.bytes)
    }

    fn highest_commit_lsn(&self) -> LogSequenceNumber {
        self.journal.highest_commit_lsn()
    }
}

fn inserted(begin: u64, commit: u64, value: u8) -> TransactionBatch {
    TransactionBatch::try_new(
        1,
        LogSequenceNumber::new(begin),
        LogSequenceNumber::new(commit),
        LogSequenceNumber::new(commit),
        vec![RowChange::new(
            5,
            ChangeKind::Insert,
            None,
            Some(vec![value]),
        )],
    )
    .unwrap_or_else(|_| unreachable!())
}

#[test]
fn crc32c_matches_standard_vector() {
    assert_eq!(crc32c(b"123456789"), 0xe306_9283);
}

#[test]
fn replay_guard_is_idempotent_and_conflicts_fail_closed() {
    let mut guard = ReplayGuard::new();
    let one = inserted(9, 10, 1);
    assert_eq!(guard.observe(&one), Ok(ReplayDecision::Apply));
    assert_eq!(guard.observe(&one), Ok(ReplayDecision::Duplicate));
    assert_eq!(guard.highest_commit_lsn().get(), 10);
    assert!(matches!(
        guard.observe(&inserted(9, 10, 2)),
        Err(JournalError::ConflictingReplay(_))
    ));
}

#[test]
fn journal_round_trips_and_duplicate_append_is_noop() -> Result<(), JournalError> {
    let mut journal = open(Vec::new())?;
    assert_eq!(journal.append(&inserted(9, 10, 1))?, ReplayDecision::Apply);
    assert_eq!(
        journal.append(&inserted(9, 10, 1))?,
        ReplayDecision::Duplicate
    );
    assert_eq!(journal.append(&inserted(19, 20, 2))?, ReplayDecision::Apply);
    assert_eq!(journal.highest_commit_lsn().get(), 20);
    assert_eq!(journal.replay()?.len(), 2);
    let reopened = open(journal.bytes)?;
    assert_eq!(reopened.highest_commit_lsn().get(), 20);
    Ok(())
}

#[test]
fn incomplete_final_record_is_truncated_during_recovery() -> Result<(), JournalError> {
    let mut journal = open(Vec::new())?;
    let _ = journal.append(&inserted(9, 10, 1))?;
    let good_len = journal.bytes.len();
    let mut bytes = journal.bytes;
    bytes.extend_from_slice(b"VY");
    let journal = open(bytes)?;
    assert_eq!(journal.highest_commit_lsn().get(), 10);
    assert_eq!(journal.bytes.len(), good_len);
    Ok(())
}

#[test]
fn checksum_corruption_is_never_served() -> Result<(), JournalError> {
    let mut journal = open(Vec::new())?;
    let _ = journal.append(&inserted(9, 10, 1))?;
    let mut bytes = journal.bytes;
    let last = bytes.len() - 1;
    bytes[last] = 0;
    let Err(error) = open(bytes) else {
        unreachable!("expected corruption error");
    };
    assert!(matches!(error, JournalError::ChecksumMismatch(_)));
    Ok(())
}

#[test]
fn codec_rejects_invalid_payload_tags_and_trailing_bytes() {
    let valid = inserted(9, 10, 1);
    let mut bytes = encode_batch(&valid).unwrap_or_else(|_| unreachable!());
    let change_kind_offset = 4 + 8 + 8 + 8 + 4 + 4;
    bytes[change_kind_offset] = 99;
    assert!(matches!(
        decode_batch(&bytes),
        Err(JournalError::InvalidChangeKind(99))
    ));

    let mut bytes = encode_batch(&valid).unwrap_or_else(|_| unreachable!());
    bytes.push(0);
    assert!(matches!(
        decode_batch(&bytes),
        Err(JournalError::TrailingBytes(1))
    ));
}

// ---------------------------------------------------------------------------------------------
// Updates
// ---------------------------------------------------------------------------------------------

fn updated(commit: u64, value: u8) -> TransactionBatch {
    TransactionBatch::try_new(
        1,
        LogSequenceNumber::new(commit),
        LogSequenceNumber::new(commit),
        LogSequenceNumber::new(commit + 1),
        vec![RowChange::new(
            7,
            ChangeKind::Update,
            Some(vec![value]),
            Some(vec![value.saturating_add(1)]),
        )],
    )
    .unwrap_or_else(|_| unreachable!())
}

#[test]
fn journal_tests_journal_round_trips_and_reopens() -> Result<(), JournalError> {
    let mut journal = open(Vec::new())?;
    assert_eq!(journal.append(&updated(10, 1))?, ReplayDecision::Apply);
    assert_eq!(journal.append(&updated(10, 1))?, ReplayDecision::Duplicate);
    assert_eq!(journal.highest_commit_lsn(), LogSequenceNumber::new(10));
    let reopened = open(journal.bytes)?;
    assert_eq!(reopened.replay()?, vec![updated(10, 1)]);
    Ok(())
}

#[test]
fn journal_tests_replay_guard_handles_duplicate_and_conflict() {
    let mut guard = ReplayGuard::new();
    let first = updated(5, 1);
    assert_eq!(guard.observe(&first), Ok(ReplayDecision::Apply));
    assert_eq!(guard.observe(&first), Ok(ReplayDecision::Duplicate));
    assert_eq!(
        guard.observe(&updated(5, 9)),
        Err(JournalError::ConflictingReplay(LogSequenceNumber::new(5)))
    );
    assert_eq!(guard.highest_commit_lsn().get(), 5);
}

#[test]
fn journal_tests_recovery_truncates_incomplete_tail() -> Result<(), JournalError> {
    let mut journal = open(Vec::new())?;
    journal.append(&updated(10, 1))?;
    let valid_len = journal.bytes.len();
    let mut bytes = journal.bytes;
    bytes.extend_from_slice(b"partial");
    let recovered = open(bytes)?;
    assert_eq!(recovered.replay()?, vec![updated(10, 1)]);
    assert_eq!(recovered.bytes.len(), valid_len);
    Ok(())
}

#[test]
fn journal_tests_checksum_corruption_is_rejected() -> Result<(), JournalError> {
    let mut journal = open(Vec::new())?;
    journal.append(&updated(10, 1))?;
    let mut bytes = journal.bytes;
    if let Some(byte) = bytes.get_mut(HEADER_LEN) {
        *byte ^= 0x55;
    }
    assert!(matches!(
        open(bytes),
        Err(JournalError::ChecksumMismatch(0))
    ));
    Ok(())
}

#[test]
fn duplicate_durable_record_is_rejected_on_recovery() -> Result<(), JournalError> {
    let mut journal = open(Vec::new())?;
    journal.append(&updated(10, 1))?;
    let record = journal.bytes.clone();
    let mut bytes = journal.bytes;
    bytes.extend_from_slice(&record);
    assert!(matches!(
        open(bytes),
        Err(JournalError::DuplicateDurableRecord(lsn))
            if lsn == LogSequenceNumber::new(10)
    ));
    Ok(())
}

#[test]
fn journal_tests_crc_matches_standard_vector() {
    assert_eq!(crc32c(b"123456789"), 0xe306_9283);
}

#[test]
fn journal_tests_codec_rejects_invalid_kind_and_trailing_bytes() {
    let mut encoded = encode_batch(&updated(10, 1)).unwrap_or_else(|_| unreachable!());
    let kind_offset = 4 + 8 + 8 + 8 + 4 + 4;
    if let Some(kind) = encoded.get_mut(kind_offset) {
        *kind = 99;
    }
    assert_eq!(
        decode_batch(&encoded),
        Err(JournalError::InvalidChangeKind(99))
    );

    let mut valid = encode_batch(&updated(10, 1)).unwrap_or_else(|_| unreachable!());
    valid.push(0);
    assert_eq!(decode_batch(&valid), Err(JournalError::TrailingBytes(1)));
}

// ---------------------------------------------------------------------------------------------
// Inserts at one position
// ---------------------------------------------------------------------------------------------

fn inserted_at(commit: u64, value: u8) -> TransactionBatch {
    inserted(commit, commit, value)
}

#[test]
fn journal_v2_crc_matches_standard_vector() {
    assert_eq!(crc32c(b"123456789"), 0xe306_9283);
}

#[test]
fn journal_v2_replay_guard_handles_duplicate_and_conflict() {
    let mut guard = ReplayGuard::new();
    let one = inserted_at(10, 1);
    assert_eq!(guard.observe(&one), Ok(ReplayDecision::Apply));
    assert_eq!(guard.observe(&one), Ok(ReplayDecision::Duplicate));
    assert_eq!(guard.highest_commit_lsn().get(), 10);
    assert!(matches!(
        guard.observe(&inserted_at(10, 2)),
        Err(JournalError::ConflictingReplay(_))
    ));
}

#[test]
fn journal_v2_journal_round_trips_and_reopens() -> Result<(), JournalError> {
    let mut journal = open(Vec::new())?;
    assert_eq!(journal.append(&inserted_at(10, 1))?, ReplayDecision::Apply);
    assert_eq!(
        journal.append(&inserted_at(10, 1))?,
        ReplayDecision::Duplicate
    );
    assert_eq!(journal.append(&inserted_at(20, 2))?, ReplayDecision::Apply);
    assert_eq!(journal.replay()?.len(), 2);
    assert_eq!(open(journal.bytes)?.highest_commit_lsn().get(), 20);
    Ok(())
}

#[test]
fn journal_v2_recovery_truncates_incomplete_tail() -> Result<(), JournalError> {
    let mut journal = open(Vec::new())?;
    let _ = journal.append(&inserted_at(10, 1))?;
    let good_len = journal.bytes.len();
    let mut bytes = journal.bytes;
    bytes.extend_from_slice(b"VY");
    let journal = open(bytes)?;
    assert_eq!(journal.highest_commit_lsn().get(), 10);
    assert_eq!(journal.bytes.len(), good_len);
    Ok(())
}

#[test]
fn journal_v2_checksum_corruption_is_rejected() -> Result<(), JournalError> {
    let mut journal = open(Vec::new())?;
    let _ = journal.append(&inserted_at(10, 1))?;
    let mut bytes = journal.bytes;
    let pos = bytes.len() - 1;
    bytes[pos] ^= 0xff;
    assert!(matches!(
        open(bytes),
        Err(JournalError::ChecksumMismatch(_))
    ));
    Ok(())
}

#[test]
fn journal_v2_codec_rejects_invalid_kind_and_trailing_bytes() {
    let valid = inserted_at(10, 1);
    let mut bytes = encode_batch(&valid).unwrap_or_else(|_| unreachable!());
    let kind_offset = 4 + 8 + 8 + 8 + 4 + 4;
    bytes[kind_offset] = 99;
    assert!(matches!(
        decode_batch(&bytes),
        Err(JournalError::InvalidChangeKind(99))
    ));
    let mut bytes = encode_batch(&valid).unwrap_or_else(|_| unreachable!());
    bytes.push(0);
    assert!(matches!(
        decode_batch(&bytes),
        Err(JournalError::TrailingBytes(1))
    ));
}

// ---------------------------------------------------------------------------------------------
// All kinds of changes
// ---------------------------------------------------------------------------------------------

fn mixed(commit: u64, value: u8) -> TransactionBatch {
    TransactionBatch::try_new(
        17,
        LogSequenceNumber::new(commit),
        LogSequenceNumber::new(commit),
        LogSequenceNumber::new(commit + 1),
        vec![
            RowChange::new(1, ChangeKind::Insert, None, Some(vec![value])),
            RowChange::new(
                2,
                ChangeKind::Update,
                Some(vec![value]),
                Some(vec![value.saturating_add(1)]),
            ),
            RowChange::new(3, ChangeKind::Delete, Some(vec![value]), None),
            RowChange::new(4, ChangeKind::Truncate, None, None),
        ],
    )
    .unwrap_or_else(|_| unreachable!())
}

#[test]
fn every_change_kind_and_optional_tuple_shape_round_trips() -> Result<(), JournalError> {
    let first = mixed(100, 7);
    let second = mixed(200, 9);

    let mut journal = open(Vec::new())?;
    assert_eq!(journal.highest_commit_lsn(), LogSequenceNumber::zero());
    assert_eq!(journal.append(&first)?, ReplayDecision::Apply);
    assert_eq!(journal.append(&second)?, ReplayDecision::Apply);
    assert_eq!(journal.highest_commit_lsn(), LogSequenceNumber::new(200));
    assert_eq!(journal.replay()?, vec![first.clone(), second.clone()]);

    let reopened = open(journal.bytes)?;
    assert_eq!(reopened.highest_commit_lsn(), LogSequenceNumber::new(200));
    assert_eq!(reopened.replay()?, vec![first, second]);
    Ok(())
}

#[test]
fn conflicting_same_lsn_is_rejected_without_changing_durable_state() -> Result<(), JournalError> {
    let first = mixed(100, 7);
    let conflicting = mixed(100, 8);
    let mut journal = open(Vec::new())?;
    assert_eq!(journal.append(&first)?, ReplayDecision::Apply);
    assert!(matches!(
        journal.append(&conflicting),
        Err(JournalError::ConflictingReplay(lsn)) if lsn == LogSequenceNumber::new(100)
    ));
    assert_eq!(journal.highest_commit_lsn(), LogSequenceNumber::new(100));
    assert_eq!(journal.replay()?, vec![first]);
    Ok(())
}

// ---------------------------------------------------------------------------------------------
// Malformed records
// ---------------------------------------------------------------------------------------------

fn edge_batch() -> TransactionBatch {
    TransactionBatch::try_new(
        7,
        LogSequenceNumber::new(20),
        LogSequenceNumber::new(20),
        LogSequenceNumber::new(21),
        vec![RowChange::new(11, ChangeKind::Insert, None, Some(vec![9]))],
    )
    .unwrap_or_else(|_| unreachable!())
}

fn valid_bytes() -> Vec<u8> {
    let mut journal = open(Vec::new()).unwrap_or_else(|_| unreachable!());
    assert!(matches!(
        journal.append(&edge_batch()),
        Ok(ReplayDecision::Apply)
    ));
    journal.bytes
}

fn payload_len(bytes: &[u8]) -> usize {
    usize::try_from(u64::from_le_bytes(
        bytes[8..16].try_into().unwrap_or_else(|_| unreachable!()),
    ))
    .unwrap_or_else(|_| unreachable!())
}

fn rewrite_crc(bytes: &mut [u8]) {
    let len = payload_len(bytes);
    let crc_offset = HEADER_LEN + len;
    let checksum = crc32c(&bytes[HEADER_LEN..crc_offset]);
    bytes[crc_offset..crc_offset + 4].copy_from_slice(&checksum.to_le_bytes());
}

#[test]
fn strict_replay_rejects_an_incomplete_tail() {
    let mut journal = open(Vec::new()).unwrap_or_else(|_| unreachable!());
    journal
        .append(&edge_batch())
        .unwrap_or_else(|_| unreachable!());
    let valid_len = journal.bytes.len() as u64;
    journal.bytes.extend_from_slice(&[1, 2, 3]);

    assert!(matches!(
        journal.replay(),
        Err(JournalError::IncompleteTail(offset)) if offset == valid_len
    ));
}

#[test]
fn declared_record_and_change_cardinality_are_bounded_before_allocation() {
    let bytes = valid_bytes();

    let mut variant = bytes.clone();
    variant[8..16].copy_from_slice(
        &u64::try_from(MAX_RECORD_BYTES + 1)
            .unwrap_or(u64::MAX)
            .to_le_bytes(),
    );
    assert!(matches!(
        open(variant),
        Err(JournalError::RecordTooLarge(size)) if size == MAX_RECORD_BYTES + 1
    ));

    let mut variant = bytes.clone();
    variant[60..64].copy_from_slice(&1_000_001_u32.to_le_bytes());
    rewrite_crc(&mut variant);
    assert!(matches!(
        open(variant),
        Err(JournalError::TooManyChanges(1_000_001))
    ));

    let mut variant = bytes;
    variant[71..75].copy_from_slice(
        &u32::try_from(MAX_RECORD_BYTES + 1)
            .unwrap_or(u32::MAX)
            .to_le_bytes(),
    );
    rewrite_crc(&mut variant);
    assert!(matches!(
        open(variant),
        Err(JournalError::TupleTooLarge(size)) if size == MAX_RECORD_BYTES + 1
    ));
}

#[test]
fn malformed_payload_tags_eof_and_trailing_bytes_fail_closed() {
    let bytes = valid_bytes();

    let mut variant = bytes.clone();
    variant[68] = 9;
    rewrite_crc(&mut variant);
    assert!(matches!(
        open(variant),
        Err(JournalError::InvalidChangeKind(9))
    ));

    let mut variant = bytes.clone();
    variant[69] = 2;
    rewrite_crc(&mut variant);
    assert!(matches!(
        open(variant),
        Err(JournalError::InvalidOptionTag(2))
    ));

    let mut variant = bytes.clone();
    variant[60..64].copy_from_slice(&2_u32.to_le_bytes());
    rewrite_crc(&mut variant);
    assert!(matches!(open(variant), Err(JournalError::UnexpectedEof)));

    let len = payload_len(&bytes);
    let mut variant = Vec::with_capacity(bytes.len() + 1);
    variant.extend_from_slice(&bytes[..HEADER_LEN + len]);
    variant.push(0);
    variant.extend_from_slice(&[0; 4]);
    variant[8..16].copy_from_slice(&u64::try_from(len + 1).unwrap_or(u64::MAX).to_le_bytes());
    rewrite_crc(&mut variant);
    assert!(matches!(open(variant), Err(JournalError::TrailingBytes(1))));
}

#[test]
fn transaction_semantics_are_validated_after_decode() {
    let mut bytes = valid_bytes();
    bytes[52..60].copy_from_slice(&19_u64.to_le_bytes());
    rewrite_crc(&mut bytes);

    assert!(matches!(
        open(bytes),
        Err(JournalError::InvalidTransaction(_))
    ));
}

#[test]
fn failed_durable_write_is_retried_instead_of_misclassified_as_duplicate() {
    let mut journal = open(Vec::new()).unwrap_or_else(|_| unreachable!());
    journal.disk_full = true;

    assert!(matches!(
        journal.append(&edge_batch()),
        Err(JournalError::Io(_))
    ));
    assert!(matches!(
        journal.append(&edge_batch()),
        Err(JournalError::Io(_))
    ));
}

// ---------------------------------------------------------------------------------------------
// Bounds at encoding
// ---------------------------------------------------------------------------------------------

fn batch_of(changes: Vec<RowChange>) -> TransactionBatch {
    TransactionBatch::try_new(
        7,
        LogSequenceNumber::new(20),
        LogSequenceNumber::new(20),
        LogSequenceNumber::new(21),
        changes,
    )
    .unwrap_or_else(|_| unreachable!())
}

#[test]
fn encode_bounds_fail_before_any_durable_acknowledgement() {
    let mut journal = open(Vec::new()).unwrap_or_else(|_| unreachable!());

    let too_many = (0_u32..=MAX_CHANGES)
        .map(|relation_id| RowChange::new(relation_id, ChangeKind::Insert, None, None))
        .collect::<Vec<_>>();
    assert!(matches!(
        journal.append(&batch_of(too_many)),
        Err(JournalError::TooManyChanges(count)) if count == 1_000_001
    ));
    assert_eq!(journal.highest_commit_lsn(), LogSequenceNumber::zero());

    let oversized_old = vec![0_u8; MAX_RECORD_BYTES + 1];
    assert!(matches!(
        journal.append(&batch_of(vec![RowChange::new(
            1,
            ChangeKind::Update,
            Some(oversized_old),
            None,
        )])),
        Err(JournalError::TupleTooLarge(size)) if size == MAX_RECORD_BYTES + 1
    ));
    assert_eq!(journal.highest_commit_lsn(), LogSequenceNumber::zero());

    let oversized_new = vec![0_u8; MAX_RECORD_BYTES + 1];
    assert!(matches!(
        journal.append(&batch_of(vec![RowChange::new(
            1,
            ChangeKind::Update,
            None,
            Some(oversized_new),
        )])),
        Err(JournalError::TupleTooLarge(size)) if size == MAX_RECORD_BYTES + 1
    ));
    assert_eq!(journal.highest_commit_lsn(), LogSequenceNumber::zero());

    let half = MAX_RECORD_BYTES / 2 + 1;
    let aggregate = batch_of(vec![RowChange::new(
        1,
        ChangeKind::Update,
        Some(vec![0_u8; half]),
        Some(vec![0_u8; half]),
    )]);
    assert!(matches!(
        journal.append(&aggregate),
        Err(JournalError::RecordTooLarge(size)) if size > MAX_RECORD_BYTES
    ));
    assert_eq!(journal.highest_commit_lsn(), LogSequenceNumber::zero());
}

#[test]
fn sync_failure_and_missing_replay_path_never_advance_durable_state() {
    let mut null = open(Vec::new()).unwrap_or_else(|_| unreachable!());
    null.disk_full = true;
    assert!(matches!(
        null.append(&edge_batch()),
        Err(JournalError::Io(_))
    ));
    assert_eq!(null.highest_commit_lsn(), LogSequenceNumber::zero());

    let mut journal = open(Vec::new()).unwrap_or_else(|_| unreachable!());
    assert_eq!(
        journal
            .append(&edge_batch())
            .unwrap_or_else(|_| unreachable!()),
        ReplayDecision::Apply
    );
    journal.removed = true;
    assert!(matches!(journal.replay(), Err(JournalError::Io(_))));
}

#[test]
fn duplicated_durable_record_is_rejected_during_recovery() {
    let bytes = valid_bytes();
    let mut twice = bytes.clone();
    twice.extend_from_slice(&bytes);

    assert!(matches!(
        open(twice),
        Err(JournalError::DuplicateDurableRecord(lsn)) if lsn.get() == 20
    ));
}

// ---------------------------------------------------------------------------------------------
// Truncation
// ---------------------------------------------------------------------------------------------

fn truncation_batch() -> TransactionBatch {
    TransactionBatch::try_new(
        77,
        LogSequenceNumber::new(100),
        LogSequenceNumber::new(100),
        LogSequenceNumber::new(101),
        vec![
            RowChange::new(1, ChangeKind::Insert, None, Some(vec![1, 2, 3])),
            RowChange::new(2, ChangeKind::Update, Some(vec![4, 5]), Some(vec![6, 7, 8])),
            RowChange::new(3, ChangeKind::Delete, Some(vec![9]), None),
            RowChange::new(4, ChangeKind::Truncate, None, None),
        ],
    )
    .unwrap_or_else(|_| unreachable!())
}

fn valid_record() -> Vec<u8> {
    let mut journal = open(Vec::new()).unwrap_or_else(|_| unreachable!());
    journal
        .append(&truncation_batch())
        .unwrap_or_else(|_| unreachable!());
    journal.bytes
}

#[test]
fn recovery_truncates_every_incomplete_record_prefix() {
    let record = valid_record();
    for end in 0..record.len() {
        let journal = open(record[..end].to_vec()).unwrap_or_else(|_| unreachable!());
        assert_eq!(
            journal.bytes.len(),
            0,
            "prefix {end}/{} was not truncated",
            record.len()
        );
    }
}

#[test]
fn every_truncated_transaction_payload_fails_closed_after_integrity_validation() {
    let record = valid_record();
    let payload_len = payload_len(&record);
    let payload = &record[HEADER_LEN..HEADER_LEN + payload_len];

    for end in 0..payload.len() {
        let prefix = &payload[..end];
        let mut variant = record[..HEADER_LEN].to_vec();
        variant[8..16].copy_from_slice(
            &u64::try_from(prefix.len())
                .unwrap_or(u64::MAX)
                .to_le_bytes(),
        );
        variant.extend_from_slice(prefix);
        variant.extend_from_slice(&crc32c(prefix).to_le_bytes());
        assert!(
            open(variant).is_err(),
            "truncated payload {end}/{} unexpectedly opened",
            payload.len()
        );
    }
}

#[test]
fn header_faults_are_told_apart() {
    let bytes = valid_bytes();
    let mut magic = bytes.clone();
    magic[0] ^= 1;
    assert!(matches!(open(magic), Err(JournalError::InvalidMagic(0))));
    let mut version = bytes.clone();
    version[4] = 9;
    assert!(matches!(
        open(version),
        Err(JournalError::UnsupportedVersion(9))
    ));
    let mut header = bytes.clone();
    header[16] ^= 1;
    assert!(open(header).is_err());
}

#[test]
fn verified_checksum_agrees_with_the_crate() {
    let mut bytes = Vec::new();
    for index in 0..300u32 {
        assert_eq!(crc32c(&bytes), crc32c::crc32c(&bytes));
        bytes.push((index.wrapping_mul(37) >> 1) as u8);
    }
    assert_eq!(crc32c(b""), 0);
}
