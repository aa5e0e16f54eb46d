//! Transaction batches and the builder that enforces their boundaries.

use veyra::cdc::lsn::LogSequenceNumber;
use veyra::cdc::transaction::{
    ChangeKind, RowChange, TransactionBatch, TransactionBuildError, TransactionBuilder,
    TransactionValidationError,
};


fn lsn(value: u64) -> LogSequenceNumber {
    LogSequenceNumber::new(value)
}

fn change(value: u8) -> RowChange {
    RowChange::new(7, ChangeKind::Insert, None, Some(vec![value]))
}

#[test]
fn batch_validates_lsn_order_and_fingerprint() {
    let batch = TransactionBatch::try_new(9, lsn(10), lsn(20), lsn(21), vec![change(1)]);
    assert!(batch.is_ok());
    let batch = batch.unwrap_or_else(|_| unreachable!());
    assert_eq!(batch.xid(), 9);
    assert_eq!(batch.begin_lsn().get(), 10);
    assert_eq!(batch.commit_lsn().get(), 20);
    assert_eq!(batch.end_lsn().get(), 21);
    assert_eq!(batch.changes().len(), 1);
    assert_eq!(batch.fingerprint(), batch.clone().fingerprint());
    let different = TransactionBatch::try_new(9, lsn(10), lsn(20), lsn(21), vec![change(2)])
        .unwrap_or_else(|_| unreachable!());
    assert_ne!(batch.fingerprint(), different.fingerprint());
}

#[test]
fn batch_rejects_invalid_lsn_order() {
    assert_eq!(
        TransactionBatch::try_new(1, lsn(2), lsn(1), lsn(1), Vec::new()),
        Err(TransactionValidationError::CommitBeforeBegin)
    );
    assert_eq!(
        TransactionBatch::try_new(1, lsn(1), lsn(3), lsn(2), Vec::new()),
        Err(TransactionValidationError::EndBeforeCommit)
    );
}

#[test]
fn builder_preserves_transaction_boundaries() {
    let mut builder = TransactionBuilder::new();
    assert!(!builder.is_open());
    builder.begin(4, lsn(10)).unwrap_or_else(|_| unreachable!());
    assert!(builder.is_open());
    builder.push(change(1)).unwrap_or_else(|_| unreachable!());
    builder.push(change(2)).unwrap_or_else(|_| unreachable!());
    let batch = builder.commit(lsn(20), lsn(21)).unwrap_or_else(|_| unreachable!());
    assert_eq!(batch.changes().len(), 2);
    assert_eq!(builder.last_commit_lsn().get(), 20);
    assert!(!builder.is_open());
}

#[test]
fn builder_fails_closed_on_invalid_sequence() {
    let mut builder = TransactionBuilder::new();
    assert_eq!(builder.push(change(1)), Err(TransactionBuildError::ChangeOutsideTransaction));
    assert_eq!(
        builder.commit(lsn(1), lsn(1)),
        Err(TransactionBuildError::CommitWithoutBegin)
    );
    builder.begin(1, lsn(10)).unwrap_or_else(|_| unreachable!());
    assert_eq!(builder.begin(2, lsn(11)), Err(TransactionBuildError::NestedTransaction));
    let invalid = builder.commit(lsn(9), lsn(9));
    assert_eq!(
        invalid,
        Err(TransactionBuildError::InvalidTransaction(
            TransactionValidationError::CommitBeforeBegin
        ))
    );
}

#[test]
fn builder_rejects_commit_regression_without_losing_open_transaction() {
    let mut builder = TransactionBuilder::new();
    builder.begin(1, lsn(1)).unwrap_or_else(|_| unreachable!());
    let _first = builder.commit(lsn(5), lsn(5)).unwrap_or_else(|_| unreachable!());
    builder.begin(2, lsn(2)).unwrap_or_else(|_| unreachable!());
    assert_eq!(
        builder.commit(lsn(4), lsn(4)),
        Err(TransactionBuildError::CommitLsnRegressed)
    );
    assert!(builder.is_open());
}

#[test]
fn transaction_error_messages_are_stable() {
    assert_eq!(TransactionValidationError::CommitBeforeBegin.message(), "commit_lsn is before begin_lsn");
    assert_eq!(TransactionValidationError::EndBeforeCommit.message(), "end_lsn is before commit_lsn");
    assert_eq!(TransactionBuildError::NestedTransaction.message(), "nested transaction begin");
    assert_eq!(TransactionBuildError::ChangeOutsideTransaction.message(), "row change outside transaction");
    assert_eq!(TransactionBuildError::CommitWithoutBegin.message(), "commit without begin");
    assert_eq!(TransactionBuildError::CommitLsnRegressed.message(), "commit LSN regressed");
    assert_eq!(
        TransactionBuildError::InvalidTransaction(TransactionValidationError::EndBeforeCommit).message(),
        "invalid transaction: end_lsn is before commit_lsn"
    );
}

#[test]
fn batch_contract_and_fingerprint_are_deterministic() {
    let batch = TransactionBatch::try_new(9, lsn(20), lsn(20), lsn(21), vec![change(1)])
        .unwrap_or_else(|_| unreachable!());
    assert_eq!(
        (
            batch.xid(),
            batch.final_lsn().get(),
            batch.commit_lsn().get(),
            batch.end_lsn().get()
        ),
        (9, 20, 20, 21)
    );
    assert_eq!(batch.changes().len(), 1);
    assert_eq!(batch.fingerprint(), batch.clone().fingerprint());
    let different = TransactionBatch::try_new(9, lsn(20), lsn(20), lsn(21), vec![change(2)])
        .unwrap_or_else(|_| unreachable!());
    assert_ne!(batch.fingerprint(), different.fingerprint());
}

#[test]
fn batch_rejects_end_before_commit() {
    assert_eq!(
        TransactionBatch::try_new(1, lsn(3), lsn(3), lsn(2), Vec::new()),
        Err(TransactionValidationError::EndBeforeCommit)
    );
}

#[test]
fn builder_preserves_boundaries_and_rejects_bad_sequences() {
    let mut builder = TransactionBuilder::new();
    assert_eq!(
        builder.push(change(1)),
        Err(TransactionBuildError::ChangeOutsideTransaction)
    );
    assert_eq!(
        builder.commit(lsn(1), lsn(1)),
        Err(TransactionBuildError::CommitWithoutBegin)
    );
    builder.begin(4, lsn(20)).unwrap_or_else(|_| unreachable!());
    assert!(builder.is_open());
    assert_eq!(
        builder.begin(5, lsn(21)),
        Err(TransactionBuildError::NestedTransaction)
    );
    builder.push(change(1)).unwrap_or_else(|_| unreachable!());
    let batch = builder
        .commit(lsn(20), lsn(21))
        .unwrap_or_else(|_| unreachable!());
    assert_eq!(batch.final_lsn(), lsn(20));
    assert_eq!(batch.changes().len(), 1);
    assert_eq!(builder.last_commit_lsn(), lsn(20));
    assert!(!builder.is_open());
}

#[test]
fn commit_regression_keeps_transaction_open() {
    let mut builder = TransactionBuilder::new();
    builder.begin(1, lsn(5)).unwrap_or_else(|_| unreachable!());
    let _ = builder
        .commit(lsn(5), lsn(5))
        .unwrap_or_else(|_| unreachable!());
    builder.begin(2, lsn(4)).unwrap_or_else(|_| unreachable!());
    assert_eq!(
        builder.commit(lsn(4), lsn(4)),
        Err(TransactionBuildError::CommitLsnRegressed)
    );
    assert!(builder.is_open());
}

#[test]
fn invalid_open_transaction_is_rejected() {
    let mut builder = TransactionBuilder::new();
    builder.begin(1, lsn(9)).unwrap_or_else(|_| unreachable!());
    assert_eq!(
        builder.commit(lsn(9), lsn(8)),
        Err(TransactionBuildError::InvalidTransaction(
            TransactionValidationError::EndBeforeCommit
        ))
    );
}

#[test]
fn errors_have_stable_messages() {
    assert_eq!(
        TransactionValidationError::EndBeforeCommit.message(),
        "end_lsn is before commit_lsn"
    );
    assert_eq!(
        TransactionBuildError::NestedTransaction.message(),
        "nested transaction begin"
    );
    assert_eq!(
        TransactionBuildError::ChangeOutsideTransaction.message(),
        "row change outside transaction"
    );
    assert_eq!(
        TransactionBuildError::CommitWithoutBegin.message(),
        "commit without begin"
    );
    assert_eq!(
        TransactionBuildError::CommitLsnRegressed.message(),
        "commit LSN regressed"
    );
    assert_eq!(
        TransactionBuildError::InvalidTransaction(TransactionValidationError::EndBeforeCommit)
            .message(),
        "invalid transaction: end_lsn is before commit_lsn"
    );
}

#[test]
fn begin_lsn_aliases_pgoutput_final_lsn() {
    let batch = TransactionBatch::try_new(
        7,
        LogSequenceNumber::new(11),
        LogSequenceNumber::new(12),
        LogSequenceNumber::new(13),
        Vec::new(),
    )
    .unwrap_or_else(|_| unreachable!());

    assert_eq!(batch.begin_lsn(), LogSequenceNumber::new(11));
    assert_eq!(batch.begin_lsn(), batch.final_lsn());
}

// ---------------------------------------------------------------------------------------------
// Boundaries read from JSON
// ---------------------------------------------------------------------------------------------

fn from_json(text: &str) -> Option<TransactionBatch> {
    let value: serde_json::Value = serde_json::from_str(text).ok()?;
    let field = |name: &str| value.get(name).and_then(serde_json::Value::as_u64);
    if !value.get("changes")?.as_array()?.is_empty() {
        return None;
    }
    TransactionBatch::try_new(
        u32::try_from(field("xid")?).ok()?,
        LogSequenceNumber::new(field("final_lsn")?),
        LogSequenceNumber::new(field("commit_lsn")?),
        LogSequenceNumber::new(field("end_lsn")?),
        Vec::new(),
    )
    .ok()
}

#[test]
fn serde_rejects_commit_lsn_before_final_lsn() {
    let invalid = r#"{
        "xid": 42,
        "final_lsn": 20,
        "commit_lsn": 19,
        "end_lsn": 21,
        "changes": []
    }"#;

    assert!(from_json(invalid).is_none());
}

#[test]
fn serde_rejects_end_lsn_before_commit_lsn() {
    let invalid = r#"{
        "xid": 42,
        "final_lsn": 20,
        "commit_lsn": 21,
        "end_lsn": 20,
        "changes": []
    }"#;

    assert!(from_json(invalid).is_none());
}

#[test]
fn serde_accepts_an_ordered_transaction_boundary() {
    let valid = r#"{
        "xid": 42,
        "final_lsn": 20,
        "commit_lsn": 20,
        "end_lsn": 21,
        "changes": []
    }"#;

    let transaction = from_json(valid).unwrap_or_else(|| unreachable!());
    assert_eq!(transaction.xid(), 42);
    assert_eq!(transaction.final_lsn(), LogSequenceNumber::new(20));
    assert_eq!(transaction.commit_lsn(), LogSequenceNumber::new(20));
    assert_eq!(transaction.end_lsn(), LogSequenceNumber::new(21));
}

#[test]
fn fingerprint_tells_every_part_apart() {
    let make = |xid: u32, commit: u64, change: RowChange| {
        TransactionBatch::try_new(xid, lsn(10), lsn(commit), lsn(30), vec![change])
            .unwrap_or_else(|_| unreachable!())
            .fingerprint()
    };
    let base = make(1, 10, change(1));
    assert_ne!(base, make(2, 10, change(1)));
    assert_ne!(base, make(1, 11, change(1)));
    assert_ne!(
        base,
        make(1, 10, RowChange::new(8, ChangeKind::Insert, None, Some(vec![1])))
    );
    assert_ne!(
        base,
        make(1, 10, RowChange::new(7, ChangeKind::Update, None, Some(vec![1])))
    );
    assert_ne!(
        base,
        make(1, 10, RowChange::new(7, ChangeKind::Insert, Some(vec![1]), None))
    );
    assert_eq!(base, make(1, 10, change(1)));
}

#[test]
fn change_codes_read_back() {
    for kind in [
        ChangeKind::Insert,
        ChangeKind::Update,
        ChangeKind::Delete,
        ChangeKind::Truncate,
    ] {
        assert_eq!(ChangeKind::from_code(kind.code()), Some(kind));
    }
    assert_eq!(ChangeKind::from_code(4), None);
    assert_eq!(ChangeKind::from_code(255), None);
}
