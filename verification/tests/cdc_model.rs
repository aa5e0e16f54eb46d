//! Bounded transaction contents, their assembly and their canonical bytes.

use veyra::cdc::assembler::{AssemblerAction, AssemblerError, CdcAssembler};
use veyra::cdc::codec::{
    decode_transaction_batch, encode_transaction_batch, BatchCodecError, HEADER_LEN,
    ITEM_COUNT_LEN, MESSAGE_FIXED_LEN, WAL_FIXED_LEN,
};
use veyra::cdc::event::CdcEvent;
use veyra::cdc::lsn::LogSequenceNumber;
use veyra::cdc::model::{
    BatchLimits, BatchValidationError, LogicalMessage, TransactionBatch, TransactionItem, WalChunk,
};

fn sample_batch() -> TransactionBatch {
    let limits = BatchLimits::default();
    let wal = WalChunk::try_new(
        LogSequenceNumber::new(90),
        LogSequenceNumber::new(100),
        11,
        vec![1, 2, 3],
        limits,
    )
    .unwrap_or_else(|error| unreachable!("static sample WAL must be valid: {error:?}"));
    let message = LogicalMessage::try_new(
        LogSequenceNumber::new(95),
        "veyra".to_owned(),
        vec![8, 9],
        limits,
    )
    .unwrap_or_else(|error| unreachable!("static sample message must be valid: {error:?}"));
    TransactionBatch::try_new(
        7,
        LogSequenceNumber::new(100),
        LogSequenceNumber::new(100),
        LogSequenceNumber::new(101),
        11,
        vec![TransactionItem::Wal(wal), TransactionItem::Message(message)],
        limits,
    )
    .unwrap_or_else(|error| unreachable!("static sample batch must be valid: {error:?}"))
}

#[test]
fn batch_exposes_exact_values() {
    let batch = sample_batch();
    assert_eq!(batch.xid(), 7);
    assert_eq!(batch.begin_final_lsn(), LogSequenceNumber::new(100));
    assert_eq!(batch.commit_lsn(), LogSequenceNumber::new(100));
    assert_eq!(batch.end_lsn(), LogSequenceNumber::new(101));
    assert_eq!(batch.commit_time_micros(), 11);
    assert_eq!(batch.items().len(), 2);
    match &batch.items()[0] {
        TransactionItem::Wal(wal) => {
            assert_eq!(wal.wal_start(), LogSequenceNumber::new(90));
            assert_eq!(wal.wal_end(), LogSequenceNumber::new(100));
            assert_eq!(wal.server_time_micros(), 11);
            assert_eq!(wal.data(), [1, 2, 3]);
        }
        TransactionItem::Message(_) => unreachable!("first sample item is WAL"),
    }
    match &batch.items()[1] {
        TransactionItem::Message(message) => {
            assert_eq!(message.lsn(), LogSequenceNumber::new(95));
            assert_eq!(message.prefix(), "veyra");
            assert_eq!(message.content(), [8, 9]);
        }
        TransactionItem::Wal(_) => unreachable!("second sample item is message"),
    }
}

#[test]
fn invalid_wal_and_message_limits_fail_closed() {
    let tiny = BatchLimits {
        max_items: 1,
        max_item_bytes: 1,
        max_prefix_bytes: 1,
        max_encoded_bytes: 1,
    };
    assert!(matches!(
        WalChunk::try_new(
            LogSequenceNumber::new(2),
            LogSequenceNumber::new(1),
            0,
            Vec::new(),
            tiny,
        ),
        Err(BatchValidationError::WalEndBeforeStart)
    ));
    assert!(matches!(
        WalChunk::try_new(
            LogSequenceNumber::zero(),
            LogSequenceNumber::zero(),
            0,
            vec![1, 2],
            tiny,
        ),
        Err(BatchValidationError::ItemTooLarge { .. })
    ));
    assert!(matches!(
        LogicalMessage::try_new(LogSequenceNumber::zero(), "xx".into(), vec![], tiny),
        Err(BatchValidationError::PrefixTooLarge { .. })
    ));
    assert!(matches!(
        LogicalMessage::try_new(LogSequenceNumber::zero(), "x".into(), vec![1, 2], tiny),
        Err(BatchValidationError::ItemTooLarge { .. })
    ));
}

#[test]
fn invalid_batch_constraints_fail_closed() {
    let limits = BatchLimits::default();
    assert!(matches!(
        TransactionBatch::try_new(
            1,
            LogSequenceNumber::new(2),
            LogSequenceNumber::new(1),
            LogSequenceNumber::new(2),
            0,
            Vec::new(),
            limits,
        ),
        Err(BatchValidationError::CommitLsnMismatch { .. })
    ));
    assert!(matches!(
        TransactionBatch::try_new(
            1,
            LogSequenceNumber::new(2),
            LogSequenceNumber::new(2),
            LogSequenceNumber::new(1),
            0,
            Vec::new(),
            limits,
        ),
        Err(BatchValidationError::EndBeforeCommit)
    ));
    let tiny = BatchLimits {
        max_items: 0,
        ..limits
    };
    assert!(matches!(
        TransactionBatch::try_new(
            1,
            LogSequenceNumber::zero(),
            LogSequenceNumber::zero(),
            LogSequenceNumber::zero(),
            0,
            vec![TransactionItem::Wal(
                WalChunk::try_new(
                    LogSequenceNumber::zero(),
                    LogSequenceNumber::zero(),
                    0,
                    Vec::new(),
                    limits,
                )
                .unwrap_or_else(|error| unreachable!("static WAL must be valid: {error:?}"))
            )],
            tiny,
        ),
        Err(BatchValidationError::TooManyItems { .. })
    ));
}

#[test]
fn payload_limit_is_enforced() {
    let limits = BatchLimits {
        max_encoded_bytes: 1,
        ..BatchLimits::default()
    };
    let wal = WalChunk::try_new(
        LogSequenceNumber::zero(),
        LogSequenceNumber::zero(),
        0,
        vec![1, 2],
        BatchLimits::default(),
    )
    .unwrap_or_else(|error| unreachable!("static WAL must be valid: {error:?}"));
    assert!(matches!(
        TransactionBatch::try_new(
            1,
            LogSequenceNumber::zero(),
            LogSequenceNumber::zero(),
            LogSequenceNumber::zero(),
            0,
            vec![TransactionItem::Wal(wal)],
            limits,
        ),
        Err(BatchValidationError::EncodedTooLarge { .. })
    ));
}

#[test]
fn diagnostics_are_stable() {
    assert_eq!(
        BatchValidationError::WalEndBeforeStart.message(),
        "WAL chunk end LSN precedes its start LSN"
    );
    assert!(BatchValidationError::ItemTooLarge {
        actual: 2,
        maximum: 1
    }
    .message()
    .contains("2 bytes"));
    assert!(BatchValidationError::PrefixTooLarge {
        actual: 2,
        maximum: 1
    }
    .message()
    .contains("prefix is 2 bytes"));
    assert!(BatchValidationError::TooManyItems {
        actual: 2,
        maximum: 1
    }
    .message()
    .contains("2 items"));
    assert_eq!(
        BatchValidationError::EncodedLengthOverflow.message(),
        "transaction encoded length overflow"
    );
    assert!(BatchValidationError::EncodedTooLarge {
        actual: 2,
        maximum: 1
    }
    .message()
    .contains("payload is 2 bytes"));
    assert!(BatchValidationError::CommitLsnMismatch {
        begin_final_lsn: LogSequenceNumber::new(2),
        commit_lsn: LogSequenceNumber::new(1),
    }
    .message()
    .contains("2 differs"));
    assert_eq!(
        BatchValidationError::EndBeforeCommit.message(),
        "transaction end LSN precedes commit LSN"
    );
}

#[test]
fn payload_length_counts_prefix_and_content_bytes() {
    let batch = sample_batch();
    assert_eq!(batch.items()[0].payload_len(), 3);
    assert_eq!(batch.items()[1].payload_len(), 7);
    let message = LogicalMessage::try_new(
        LogSequenceNumber::new(1),
        "\u{e9}\u{20ac}".to_owned(),
        vec![1],
        BatchLimits::default(),
    )
    .unwrap_or_else(|error| unreachable!("{error:?}"));
    assert_eq!(TransactionItem::Message(message).payload_len(), 6);
    assert_eq!(batch.clone(), batch);
}

#[test]
fn prefix_bound_counts_utf8_bytes() {
    let limits = BatchLimits {
        max_prefix_bytes: 2,
        ..BatchLimits::default()
    };
    assert!(
        LogicalMessage::try_new(LogSequenceNumber::new(1), "\u{e9}".to_owned(), vec![], limits)
            .is_ok()
    );
    assert_eq!(
        LogicalMessage::try_new(LogSequenceNumber::new(1), "\u{20ac}".to_owned(), vec![], limits),
        Err(BatchValidationError::PrefixTooLarge {
            actual: 3,
            maximum: 2
        })
    );
}

// ---------------------------------------------------------------------------------------------
// Assembly
// ---------------------------------------------------------------------------------------------

fn begin() -> CdcEvent {
    CdcEvent::Begin {
        final_lsn: LogSequenceNumber::new(10),
        xid: 1,
        commit_time_micros: 7,
    }
}

fn commit() -> CdcEvent {
    CdcEvent::Commit {
        lsn: LogSequenceNumber::new(10),
        end_lsn: LogSequenceNumber::new(11),
        commit_time_micros: 7,
    }
}

#[test]
fn incomplete_transaction_is_never_exposed() -> Result<(), AssemblerError> {
    let mut assembler = CdcAssembler::new(BatchLimits::default());
    assert!(!assembler.in_transaction());
    assert_eq!(assembler.push(begin())?, AssemblerAction::Nothing);
    assert!(assembler.in_transaction());
    assert_eq!(
        assembler.push(CdcEvent::XLogData {
            wal_start: LogSequenceNumber::new(9),
            wal_end: LogSequenceNumber::new(10),
            server_time_micros: 7,
            data: vec![1],
        })?,
        AssemblerAction::WalObserved(LogSequenceNumber::new(10))
    );
    assert!(assembler.in_transaction());
    let action = assembler.push(commit())?;
    let AssemblerAction::Transaction(batch) = action else {
        unreachable!("COMMIT must produce a complete batch");
    };
    assert_eq!(batch.xid(), 1);
    assert_eq!(batch.items().len(), 1);
    assert!(!assembler.in_transaction());
    Ok(())
}

#[test]
fn keepalive_and_stop_are_visible_without_mutating_transaction_state() -> Result<(), AssemblerError>
{
    let mut assembler = CdcAssembler::new(BatchLimits::default());
    assert_eq!(
        assembler.push(CdcEvent::KeepAlive {
            wal_end: LogSequenceNumber::new(20),
            server_time_micros: 0,
            reply_requested: true,
        })?,
        AssemblerAction::WalObserved(LogSequenceNumber::new(20))
    );
    assert_eq!(
        assembler.push(CdcEvent::StoppedAt {
            reached: LogSequenceNumber::new(21),
        })?,
        AssemblerAction::StoppedAt(LogSequenceNumber::new(21))
    );
    Ok(())
}

#[test]
fn logical_messages_are_transactional_only() -> Result<(), AssemblerError> {
    let mut assembler = CdcAssembler::new(BatchLimits::default());
    assert_eq!(
        assembler.push(CdcEvent::Message {
            transactional: false,
            lsn: LogSequenceNumber::new(1),
            prefix: "x".into(),
            content: vec![],
        }),
        Err(AssemblerError::NonTransactionalLogicalMessage)
    );
    assert_eq!(assembler.push(begin())?, AssemblerAction::Nothing);
    assert_eq!(
        assembler.push(CdcEvent::Message {
            transactional: true,
            lsn: LogSequenceNumber::new(9),
            prefix: "x".into(),
            content: vec![1],
        })?,
        AssemblerAction::WalObserved(LogSequenceNumber::new(9))
    );
    let AssemblerAction::Transaction(batch) = assembler.push(commit())? else {
        unreachable!("commit produces a batch");
    };
    assert!(matches!(batch.items(), [TransactionItem::Message(_)]));
    Ok(())
}

#[test]
fn invalid_sequences_fail_closed() -> Result<(), AssemblerError> {
    let mut assembler = CdcAssembler::new(BatchLimits::default());
    assert_eq!(
        assembler.push(commit()),
        Err(AssemblerError::CommitWithoutBegin)
    );
    assert_eq!(
        assembler.push(CdcEvent::XLogData {
            wal_start: LogSequenceNumber::zero(),
            wal_end: LogSequenceNumber::zero(),
            server_time_micros: 0,
            data: vec![],
        }),
        Err(AssemblerError::WalOutsideTransaction)
    );
    assert_eq!(
        assembler.push(CdcEvent::Message {
            transactional: true,
            lsn: LogSequenceNumber::zero(),
            prefix: String::new(),
            content: Vec::new(),
        }),
        Err(AssemblerError::MessageOutsideTransaction)
    );
    assert_eq!(assembler.push(begin())?, AssemblerAction::Nothing);
    assert_eq!(assembler.push(begin()), Err(AssemblerError::NestedBegin));
    assert_eq!(
        assembler.push(CdcEvent::StoppedAt {
            reached: LogSequenceNumber::new(10),
        }),
        Err(AssemblerError::StoppedInsideTransaction)
    );
    Ok(())
}

#[test]
fn bounds_and_commit_consistency_fail_closed() -> Result<(), AssemblerError> {
    let limits = BatchLimits {
        max_items: 0,
        ..BatchLimits::default()
    };
    let mut assembler = CdcAssembler::new(limits);
    assembler.push(begin())?;
    assert_eq!(
        assembler.push(CdcEvent::XLogData {
            wal_start: LogSequenceNumber::new(9),
            wal_end: LogSequenceNumber::new(10),
            server_time_micros: 7,
            data: Vec::new(),
        }),
        Err(AssemblerError::TooManyItems)
    );

    let mut assembler = CdcAssembler::new(BatchLimits::default());
    assembler.push(begin())?;
    assert_eq!(
        assembler.push(CdcEvent::Commit {
            lsn: LogSequenceNumber::new(10),
            end_lsn: LogSequenceNumber::new(11),
            commit_time_micros: 8,
        }),
        Err(AssemblerError::CommitTimeMismatch {
            begin: 7,
            commit: 8
        })
    );
    Ok(())
}

#[test]
fn assembler_diagnostics_and_sources_are_stable() {
    let simple = [
        AssemblerError::NestedBegin,
        AssemblerError::WalOutsideTransaction,
        AssemblerError::MessageOutsideTransaction,
        AssemblerError::NonTransactionalLogicalMessage,
        AssemblerError::CommitWithoutBegin,
        AssemblerError::StoppedInsideTransaction,
        AssemblerError::TooManyItems,
        AssemblerError::CommitTimeMismatch {
            begin: 1,
            commit: 2,
        },
    ];
    for error in simple {
        assert!(!error.message().is_empty());
    }
    let invalid = AssemblerError::InvalidBatch(BatchValidationError::EndBeforeCommit);
    assert!(invalid
        .message()
        .contains("invalid committed transaction"));
    assert_eq!(
        AssemblerError::CommitTimeMismatch {
            begin: -1,
            commit: 2
        }
        .message(),
        "BEGIN commit time -1 differs from COMMIT time 2"
    );
}

#[test]
fn items_leave_in_order_of_arrival() -> Result<(), AssemblerError> {
    let mut assembler = CdcAssembler::new(BatchLimits::default());
    assembler.push(begin())?;
    for byte in 0..5u8 {
        assembler.push(CdcEvent::XLogData {
            wal_start: LogSequenceNumber::new(1),
            wal_end: LogSequenceNumber::new(2),
            server_time_micros: 0,
            data: vec![byte],
        })?;
        assembler.push(CdcEvent::KeepAlive {
            wal_end: LogSequenceNumber::new(3),
            server_time_micros: 0,
            reply_requested: false,
        })?;
    }
    let AssemblerAction::Transaction(batch) = assembler.push(commit())? else {
        unreachable!("commit produces a batch");
    };
    let bytes: Vec<u8> = batch
        .items()
        .iter()
        .map(|item| match item {
            TransactionItem::Wal(chunk) => chunk.data()[0],
            TransactionItem::Message(_) => unreachable!("only chunks were pushed"),
        })
        .collect();
    assert_eq!(bytes, [0, 1, 2, 3, 4]);
    Ok(())
}

#[test]
fn refused_commit_drops_the_incomplete_transaction() -> Result<(), AssemblerError> {
    let mut assembler = CdcAssembler::new(BatchLimits::default());
    assembler.push(begin())?;
    assert_eq!(
        assembler.push(CdcEvent::Commit {
            lsn: LogSequenceNumber::new(10),
            end_lsn: LogSequenceNumber::new(9),
            commit_time_micros: 7,
        }),
        Err(AssemblerError::InvalidBatch(
            BatchValidationError::EndBeforeCommit
        ))
    );
    assert!(!assembler.in_transaction());
    assert_eq!(
        assembler.push(commit()),
        Err(AssemblerError::CommitWithoutBegin)
    );
    assembler.push(begin())?;
    assert_eq!(
        assembler.push(CdcEvent::XLogData {
            wal_start: LogSequenceNumber::new(2),
            wal_end: LogSequenceNumber::new(1),
            server_time_micros: 0,
            data: vec![],
        }),
        Err(AssemblerError::InvalidBatch(
            BatchValidationError::WalEndBeforeStart
        ))
    );
    assert!(assembler.in_transaction());
    Ok(())
}

// ---------------------------------------------------------------------------------------------
// Canonical bytes
// ---------------------------------------------------------------------------------------------

#[test]
fn batch_round_trip_is_deterministic() -> Result<(), BatchCodecError> {
    let batch = sample_batch();
    let a = encode_transaction_batch(&batch, BatchLimits::default())?;
    let b = encode_transaction_batch(&batch, BatchLimits::default())?;
    assert_eq!(a, b);
    assert_eq!(decode_transaction_batch(&a, BatchLimits::default())?, batch);
    Ok(())
}

#[test]
fn canonical_sizes_are_exact() {
    assert_eq!(HEADER_LEN, 48);
    assert_eq!(WAL_FIXED_LEN, 29);
    assert_eq!(MESSAGE_FIXED_LEN, 13);
}

#[test]
fn rejects_corrupt_header_variants() {
    let batch = sample_batch();
    let bytes = encode_transaction_batch(&batch, BatchLimits::default())
        .unwrap_or_else(|error| unreachable!("static batch must encode: {error:?}"));

    let mut invalid_magic = bytes.clone();
    invalid_magic[0] ^= 1;
    assert_eq!(
        decode_transaction_batch(&invalid_magic, BatchLimits::default()),
        Err(BatchCodecError::InvalidMagic)
    );

    let mut unsupported = bytes.clone();
    unsupported[8..10].copy_from_slice(&2u16.to_le_bytes());
    assert_eq!(
        decode_transaction_batch(&unsupported, BatchLimits::default()),
        Err(BatchCodecError::UnsupportedVersion(2))
    );

    let mut reserved = bytes.clone();
    reserved[10..12].copy_from_slice(&1u16.to_le_bytes());
    assert_eq!(
        decode_transaction_batch(&reserved, BatchLimits::default()),
        Err(BatchCodecError::NonZeroReserved)
    );
}

#[test]
fn rejects_unknown_tags_trailing_and_utf8() {
    let batch = sample_batch();
    let bytes = encode_transaction_batch(&batch, BatchLimits::default())
        .unwrap_or_else(|error| unreachable!("static batch must encode: {error:?}"));
    let items_at = HEADER_LEN + ITEM_COUNT_LEN;

    let mut unknown = bytes.clone();
    unknown[items_at] = 99;
    assert_eq!(
        decode_transaction_batch(&unknown, BatchLimits::default()),
        Err(BatchCodecError::UnknownItemTag(99))
    );

    let mut trailing = bytes.clone();
    trailing.push(0);
    assert_eq!(
        decode_transaction_batch(&trailing, BatchLimits::default()),
        Err(BatchCodecError::TrailingBytes(1))
    );

    let mut invalid_utf8 = bytes.clone();
    let message_prefix = items_at + WAL_FIXED_LEN + 3 + MESSAGE_FIXED_LEN;
    invalid_utf8[message_prefix] = 0xFF;
    assert!(matches!(
        decode_transaction_batch(&invalid_utf8, BatchLimits::default()),
        Err(BatchCodecError::InvalidUtf8Prefix)
    ));
}

#[test]
fn bounds_and_eof_fail_closed() {
    let batch = sample_batch();
    let bytes = encode_transaction_batch(&batch, BatchLimits::default())
        .unwrap_or_else(|error| unreachable!("static batch must encode: {error:?}"));
    for end in 0..HEADER_LEN {
        assert!(matches!(
            decode_transaction_batch(&bytes[..end], BatchLimits::default()),
            Err(BatchCodecError::UnexpectedEof) | Err(BatchCodecError::InvalidMagic)
        ));
    }

    let tiny = BatchLimits {
        max_encoded_bytes: 1,
        ..BatchLimits::default()
    };
    assert!(matches!(
        decode_transaction_batch(&bytes, tiny),
        Err(BatchCodecError::EncodedTooLarge { .. })
    ));
    assert!(matches!(
        encode_transaction_batch(&batch, tiny),
        Err(BatchCodecError::EncodedTooLarge { .. })
    ));

    let items_at = HEADER_LEN + ITEM_COUNT_LEN;
    let mut too_many = bytes.clone();
    too_many[HEADER_LEN..items_at].copy_from_slice(&3u32.to_le_bytes());
    let item_bound = BatchLimits {
        max_items: 2,
        ..BatchLimits::default()
    };
    assert!(matches!(
        decode_transaction_batch(&too_many, item_bound),
        Err(BatchCodecError::TooManyItems { .. })
    ));

    let mut item_too_large = bytes.clone();
    let wal_len_offset = items_at + 1 + 8 + 8 + 8;
    item_too_large[wal_len_offset..wal_len_offset + 4].copy_from_slice(&10u32.to_le_bytes());
    let small_item = BatchLimits {
        max_item_bytes: 4,
        ..BatchLimits::default()
    };
    assert!(matches!(
        decode_transaction_batch(&item_too_large, small_item),
        Err(BatchCodecError::LengthTooLarge { .. })
    ));
}

#[test]
fn semantic_validation_is_reapplied_on_decode() {
    let batch = sample_batch();
    let mut bytes = encode_transaction_batch(&batch, BatchLimits::default())
        .unwrap_or_else(|error| unreachable!("static batch must encode: {error:?}"));
    bytes[16..24].copy_from_slice(&99u64.to_le_bytes());
    assert!(matches!(
        decode_transaction_batch(&bytes, BatchLimits::default()),
        Err(BatchCodecError::Validation(
            BatchValidationError::CommitLsnMismatch { .. }
        ))
    ));
}

#[test]
fn codec_diagnostics_and_sources_are_stable() {
    let errors = [
        BatchCodecError::InvalidMagic,
        BatchCodecError::UnsupportedVersion(2),
        BatchCodecError::NonZeroReserved,
        BatchCodecError::UnexpectedEof,
        BatchCodecError::LengthOverflow,
        BatchCodecError::LengthTooLarge {
            actual: 2,
            maximum: 1,
        },
        BatchCodecError::TooManyItems {
            actual: 2,
            maximum: 1,
        },
        BatchCodecError::InvalidUtf8Prefix,
        BatchCodecError::UnknownItemTag(3),
        BatchCodecError::TrailingBytes(2),
        BatchCodecError::EncodedTooLarge {
            actual: 2,
            maximum: 1,
        },
    ];
    for error in errors {
        assert!(!error.message().is_empty());
    }
    let validation = BatchCodecError::Validation(BatchValidationError::EndBeforeCommit);
    assert_eq!(
        validation.message(),
        "transaction validation failed: transaction end LSN precedes commit LSN"
    );
    assert_eq!(
        BatchCodecError::LengthTooLarge {
            actual: 2,
            maximum: 1
        }
        .message(),
        "encoded field is 2 bytes; maximum is 1"
    );
}

#[test]
fn encoded_bytes_are_laid_out_exactly() {
    let bytes = encode_transaction_batch(&sample_batch(), BatchLimits::default())
        .unwrap_or_else(|error| unreachable!("{error:?}"));
    let mut expected = b"VYRTXN01".to_vec();
    expected.extend_from_slice(&1u16.to_le_bytes());
    expected.extend_from_slice(&0u16.to_le_bytes());
    expected.extend_from_slice(&7u32.to_le_bytes());
    expected.extend_from_slice(&100u64.to_le_bytes());
    expected.extend_from_slice(&100u64.to_le_bytes());
    expected.extend_from_slice(&101u64.to_le_bytes());
    expected.extend_from_slice(&11i64.to_le_bytes());
    expected.extend_from_slice(&2u32.to_le_bytes());
    expected.push(1);
    expected.extend_from_slice(&90u64.to_le_bytes());
    expected.extend_from_slice(&100u64.to_le_bytes());
    expected.extend_from_slice(&11i64.to_le_bytes());
    expected.extend_from_slice(&3u32.to_le_bytes());
    expected.extend_from_slice(&[1, 2, 3]);
    expected.push(2);
    expected.extend_from_slice(&95u64.to_le_bytes());
    expected.extend_from_slice(&5u32.to_le_bytes());
    expected.extend_from_slice(b"veyra");
    expected.extend_from_slice(&2u32.to_le_bytes());
    expected.extend_from_slice(&[8, 9]);
    assert_eq!(bytes, expected);
}

#[test]
fn negative_times_and_multibyte_prefixes_survive_the_bytes() {
    let limits = BatchLimits::default();
    let message = LogicalMessage::try_new(
        LogSequenceNumber::new(u64::MAX),
        "caf\u{e9} \u{1f3e8}".to_owned(),
        vec![],
        limits,
    )
    .unwrap_or_else(|error| unreachable!("{error:?}"));
    let batch = TransactionBatch::try_new(
        u32::MAX,
        LogSequenceNumber::new(u64::MAX),
        LogSequenceNumber::new(u64::MAX),
        LogSequenceNumber::new(u64::MAX),
        i64::MIN,
        vec![TransactionItem::Message(message)],
        limits,
    )
    .unwrap_or_else(|error| unreachable!("{error:?}"));
    let bytes = encode_transaction_batch(&batch, limits)
        .unwrap_or_else(|error| unreachable!("{error:?}"));
    assert_eq!(decode_transaction_batch(&bytes, limits), Ok(batch));
    for end in 0..bytes.len() {
        assert!(decode_transaction_batch(&bytes[..end], limits).is_err());
    }
}

#[test]
fn the_encoded_bound_is_exact() {
    let batch = sample_batch();
    let bytes = encode_transaction_batch(&batch, BatchLimits::default())
        .unwrap_or_else(|error| unreachable!("{error:?}"));
    let len = bytes.len();
    let bounded = |max_encoded_bytes: usize| BatchLimits {
        max_encoded_bytes,
        ..BatchLimits::default()
    };
    assert_eq!(
        decode_transaction_batch(&bytes, bounded(len)),
        Ok(batch.clone())
    );
    for maximum in [len - ITEM_COUNT_LEN, len - 1] {
        assert_eq!(
            encode_transaction_batch(&batch, bounded(maximum)),
            Ok(bytes.clone())
        );
        assert_eq!(
            decode_transaction_batch(&bytes, bounded(maximum)),
            Err(BatchCodecError::EncodedTooLarge {
                actual: len,
                maximum
            })
        );
    }
    let maximum = len - ITEM_COUNT_LEN - 1;
    assert_eq!(
        encode_transaction_batch(&batch, bounded(maximum)),
        Err(BatchCodecError::EncodedTooLarge {
            actual: len - ITEM_COUNT_LEN,
            maximum
        })
    );
}

#[test]
fn a_transaction_without_items_fits_a_bound_of_fifty() {
    let limits = BatchLimits {
        max_encoded_bytes: 50,
        ..BatchLimits::default()
    };
    let lsn = LogSequenceNumber::new(9);
    let batch = TransactionBatch::try_new(1, lsn, lsn, lsn, 2, vec![], limits)
        .unwrap_or_else(|error| unreachable!("{error:?}"));
    let bytes = encode_transaction_batch(&batch, limits)
        .unwrap_or_else(|error| unreachable!("{error:?}"));
    assert_eq!(bytes.len(), 52);
}
