//! Streams of protocol messages that become transactions at their commit.

use veyra::cdc::lsn::LogSequenceNumber;
use veyra::cdc::pgoutput::{ColumnMetadata, PgOutputMessage, RelationMetadata, ReplicaIdentity};
use veyra::cdc::stream::{StreamError, TransactionStream};
use veyra::cdc::transaction::{ChangeKind, RowChange, TransactionBuildError};


fn relation(id: u32) -> RelationMetadata {
    RelationMetadata {
        relation_id: id,
        namespace: "public".to_owned(),
        name: "inventory".to_owned(),
        replica_identity: ReplicaIdentity::Default,
        columns: Vec::new(),
    }
}

fn begin(xid: u32, lsn: u64) -> PgOutputMessage {
    PgOutputMessage::Begin {
        final_lsn: LogSequenceNumber::new(lsn),
        commit_timestamp_micros: 0,
        xid,
    }
}

fn commit(lsn: u64) -> PgOutputMessage {
    PgOutputMessage::Commit {
        flags: 0,
        commit_lsn: LogSequenceNumber::new(lsn),
        end_lsn: LogSequenceNumber::new(lsn + 1),
        commit_timestamp_micros: 0,
    }
}

#[test]
fn emits_nothing_until_commit() {
    let mut stream = TransactionStream::new();
    assert_eq!(
        stream.consume(PgOutputMessage::Relation(relation(7))),
        Ok(None)
    );
    assert!(stream.relation(7).is_some());
    assert_eq!(stream.consume(begin(9, 20)), Ok(None));
    assert!(stream.transaction_open());
    assert_eq!(
        stream.consume(PgOutputMessage::Change(RowChange::new(
            7,
            ChangeKind::Insert,
            None,
            Some(vec![1]),
        ))),
        Ok(None)
    );
    let batch = stream
        .consume(commit(20))
        .unwrap_or_else(|_| unreachable!());
    let batch = batch.unwrap_or_else(|| unreachable!());
    assert_eq!(batch.xid(), 9);
    assert_eq!(batch.final_lsn().get(), 20);
    assert_eq!(batch.changes().len(), 1);
    assert!(!stream.transaction_open());
}

#[test]
fn unknown_relation_fails_closed() {
    let mut stream = TransactionStream::new();
    stream
        .consume(begin(1, 5))
        .unwrap_or_else(|_| unreachable!());
    assert_eq!(
        stream.consume(PgOutputMessage::Change(RowChange::new(
            99,
            ChangeKind::Delete,
            Some(vec![1]),
            None,
        ))),
        Err(StreamError::UnknownRelation(99))
    );
    assert!(stream.transaction_open());
}

#[test]
fn truncate_expands_all_relations_inside_one_transaction() {
    let mut stream = TransactionStream::new();
    stream
        .consume(PgOutputMessage::Relation(relation(1)))
        .unwrap_or_else(|_| unreachable!());
    stream
        .consume(PgOutputMessage::Relation(relation(2)))
        .unwrap_or_else(|_| unreachable!());
    stream
        .consume(begin(3, 10))
        .unwrap_or_else(|_| unreachable!());
    stream
        .consume(PgOutputMessage::Truncate {
            relation_ids: vec![1, 2],
            options: 3,
        })
        .unwrap_or_else(|_| unreachable!());
    let batch = stream
        .consume(commit(10))
        .unwrap_or_else(|_| unreachable!())
        .unwrap_or_else(|| unreachable!());
    assert_eq!(batch.changes().len(), 2);
    assert!(
        batch
            .changes()
            .iter()
            .all(|change| change.kind == ChangeKind::Truncate)
    );
}

#[test]
fn sequence_errors_are_propagated() {
    let mut stream = TransactionStream::new();
    assert_eq!(
        stream.consume(commit(1)),
        Err(StreamError::Transaction(
            TransactionBuildError::CommitWithoutBegin
        ))
    );
}

#[test]
fn stream_error_messages_are_stable() {
    assert_eq!(
        StreamError::UnknownRelation(4).message(),
        "unknown relation 4"
    );
    assert_eq!(
        StreamError::Transaction(TransactionBuildError::CommitWithoutBegin).message(),
        "transaction stream error: commit without begin"
    );
}

fn named_relation(id: u32) -> RelationMetadata {
    RelationMetadata {
        relation_id: id,
        namespace: "public".to_owned(),
        name: format!("room_{id}"),
        replica_identity: ReplicaIdentity::Default,
        columns: Vec::<ColumnMetadata>::new(),
    }
}

fn begin_at_ten(xid: u32) -> PgOutputMessage {
    PgOutputMessage::Begin {
        final_lsn: LogSequenceNumber::new(10),
        commit_timestamp_micros: 0,
        xid,
    }
}

#[test]
fn every_transaction_stream_propagation_boundary_fails_closed() {
    let mut nested = TransactionStream::new();
    assert_eq!(nested.consume(begin_at_ten(1)), Ok(None));
    assert_eq!(
        nested.consume(begin_at_ten(2)),
        Err(StreamError::Transaction(
            TransactionBuildError::NestedTransaction
        ))
    );

    let mut change = TransactionStream::new();
    assert_eq!(
        change.consume(PgOutputMessage::Relation(named_relation(7))),
        Ok(None)
    );
    assert_eq!(
        change.consume(PgOutputMessage::Change(RowChange::new(
            7,
            ChangeKind::Insert,
            None,
            Some(vec![1]),
        ))),
        Err(StreamError::Transaction(
            TransactionBuildError::ChangeOutsideTransaction
        ))
    );

    let mut truncate_unknown = TransactionStream::new();
    assert_eq!(
        truncate_unknown.consume(PgOutputMessage::Relation(named_relation(1))),
        Ok(None)
    );
    assert_eq!(truncate_unknown.consume(begin_at_ten(3)), Ok(None));
    assert_eq!(
        truncate_unknown.consume(PgOutputMessage::Truncate {
            relation_ids: vec![1, 99],
            options: 0,
        }),
        Err(StreamError::UnknownRelation(99))
    );

    let mut truncate_outside = TransactionStream::new();
    assert_eq!(
        truncate_outside.consume(PgOutputMessage::Relation(named_relation(1))),
        Ok(None)
    );
    assert_eq!(
        truncate_outside.consume(PgOutputMessage::Truncate {
            relation_ids: vec![1],
            options: 0,
        }),
        Err(StreamError::Transaction(
            TransactionBuildError::ChangeOutsideTransaction
        ))
    );
}
