//! The append-only transaction log and the coordinator above it.

use veyra::cdc::assembler::{AssemblerError, CdcAssembler};
use veyra::cdc::checksum::crc32c;
use veyra::cdc::codec::{encode_transaction_batch, BatchCodecError};
use veyra::cdc::durable::{
    encode_file_header, record_header, AppendOutcome, AppendStep, DurableCdcLog, DurableLogError,
    OpenAction, OpenOutcome, FILE_HEADER_LEN, RECORD_HEADER_LEN,
};
use veyra::cdc::lsn::LogSequenceNumber;
use veyra::cdc::model::{
    BatchLimits, BatchValidationError, LogicalMessage, TransactionBatch, TransactionItem, WalChunk,
};
use veyra::cdc::postgres::{PostgresCdcError, TransportEvent};
use veyra::cdc::progress::{CdcProgressError, CdcProgressTracker};
use veyra::cdc::pump::{CdcPump, CdcPumpError, CdcPumpEvent, PumpStep};

fn sample_batch() -> TransactionBatch {
    let limits = BatchLimits::default();
    let wal = WalChunk::try_new(
        LogSequenceNumber::new(90),
        LogSequenceNumber::new(100),
        11,
        vec![1, 2, 3],
        limits,
    )
    .unwrap_or_else(|error| unreachable!("{error:?}"));
    let message = LogicalMessage::try_new(
        LogSequenceNumber::new(95),
        "veyra".to_owned(),
        vec![8, 9],
        limits,
    )
    .unwrap_or_else(|error| unreachable!("{error:?}"));
    TransactionBatch::try_new(
        7,
        LogSequenceNumber::new(100),
        LogSequenceNumber::new(100),
        LogSequenceNumber::new(101),
        11,
        vec![TransactionItem::Wal(wal), TransactionItem::Message(message)],
        limits,
    )
    .unwrap_or_else(|error| unreachable!("{error:?}"))
}

fn batch_with_lsn(lsn: u64) -> TransactionBatch {
    TransactionBatch::try_new(
        u32::try_from(lsn).unwrap_or(u32::MAX),
        LogSequenceNumber::new(lsn),
        LogSequenceNumber::new(lsn),
        LogSequenceNumber::new(lsn),
        i64::try_from(lsn).unwrap_or(i64::MAX),
        Vec::new(),
        BatchLimits::default(),
    )
    .unwrap_or_else(|error| unreachable!("static batch must be valid: {error:?}"))
}

fn reopen(file: &mut Vec<u8>) -> Result<(DurableCdcLog, OpenOutcome), DurableLogError> {
    let (log, outcome, action) = DurableCdcLog::open(file, BatchLimits::default())?;
    match action {
        OpenAction::Keep => {}
        OpenAction::WriteHeader(bytes) => *file = bytes,
        OpenAction::Truncate(len) => {
            file.truncate(usize::try_from(len).unwrap_or(usize::MAX));
        }
    }
    Ok((log, outcome))
}

fn open_temp() -> (Vec<u8>, DurableCdcLog) {
    let mut file = Vec::new();
    let (log, _) =
        reopen(&mut file).unwrap_or_else(|error| unreachable!("new log must open: {error:?}"));
    (file, log)
}

fn append(
    file: &mut Vec<u8>,
    log: &mut DurableCdcLog,
    batch: &TransactionBatch,
) -> Result<AppendOutcome, DurableLogError> {
    match log.append(batch)? {
        AppendStep::Write(bytes) => {
            file.extend_from_slice(&bytes);
            Ok(log.confirm(batch))
        }
        AppendStep::Compare(payload) => log.compare(file, &payload, batch.end_lsn()),
    }
}

#[test]
fn new_log_is_synced_and_reopenable() {
    let (mut file, log) = open_temp();
    assert_eq!(log.last_durable_lsn(), LogSequenceNumber::zero());
    let (_, outcome) = reopen(&mut file)
        .unwrap_or_else(|error| unreachable!("valid log must reopen: {error:?}"));
    assert_eq!(outcome.last_durable_lsn, LogSequenceNumber::zero());
    assert!(!outcome.recovered_torn_tail);
}

#[test]
fn append_reopen_and_replay_preserve_transactions() {
    let (mut file, mut log) = open_temp();
    let first = sample_batch();
    let second = batch_with_lsn(200);
    assert_eq!(
        append(&mut file, &mut log, &first)
            .unwrap_or_else(|error| unreachable!("append: {error:?}")),
        AppendOutcome::Appended
    );
    assert_eq!(
        append(&mut file, &mut log, &second)
            .unwrap_or_else(|error| unreachable!("append: {error:?}")),
        AppendOutcome::Appended
    );
    let (log, outcome) =
        reopen(&mut file).unwrap_or_else(|error| unreachable!("reopen: {error:?}"));
    assert_eq!(outcome.last_durable_lsn, LogSequenceNumber::new(200));
    assert_eq!(log.last_durable_lsn(), LogSequenceNumber::new(200));
    assert_eq!(
        DurableCdcLog::replay_from(&file, BatchLimits::default(), LogSequenceNumber::new(101))
            .unwrap_or_else(|error| unreachable!("replay: {error:?}")),
        vec![second]
    );
}

#[test]
fn exact_duplicate_is_idempotent_even_when_historical() {
    let (mut file, mut log) = open_temp();
    let first = batch_with_lsn(10);
    let second = batch_with_lsn(20);
    assert_eq!(
        append(&mut file, &mut log, &first),
        Ok(AppendOutcome::Appended)
    );
    assert_eq!(
        append(&mut file, &mut log, &second),
        Ok(AppendOutcome::Appended)
    );
    assert_eq!(
        append(&mut file, &mut log, &first),
        Ok(AppendOutcome::Duplicate)
    );
    assert_eq!(log.last_durable_lsn(), LogSequenceNumber::new(20));
}

#[test]
fn conflicting_or_missing_old_replay_fails_closed() {
    let (mut file, mut log) = open_temp();
    let first = batch_with_lsn(10);
    let second = batch_with_lsn(20);
    append(&mut file, &mut log, &first).unwrap_or_else(|e| unreachable!("{e:?}"));
    append(&mut file, &mut log, &second).unwrap_or_else(|e| unreachable!("{e:?}"));
    let conflicting = TransactionBatch::try_new(
        999,
        LogSequenceNumber::new(10),
        LogSequenceNumber::new(10),
        LogSequenceNumber::new(10),
        0,
        Vec::new(),
        BatchLimits::default(),
    )
    .unwrap_or_else(|e| unreachable!("{e:?}"));
    assert!(matches!(
        append(&mut file, &mut log, &conflicting),
        Err(DurableLogError::ConflictingReplay(_))
    ));
    assert!(matches!(
        append(&mut file, &mut log, &batch_with_lsn(15)),
        Err(DurableLogError::MissingHistoricalCheckpoint(_))
    ));
}

#[test]
fn torn_record_header_is_truncated_on_open() {
    let (mut file, _) = open_temp();
    file.extend_from_slice(b"TXN1");
    let (_, outcome) = reopen(&mut file).unwrap_or_else(|e| unreachable!("repair: {e:?}"));
    assert!(outcome.recovered_torn_tail);
    assert_eq!(file.len(), FILE_HEADER_LEN);
}

#[test]
fn torn_payload_is_truncated_on_open() {
    let (mut file, mut log) = open_temp();
    append(&mut file, &mut log, &batch_with_lsn(10)).unwrap_or_else(|e| unreachable!("{e:?}"));
    let valid_len = file.len();
    let payload = encode_transaction_batch(&batch_with_lsn(20), BatchLimits::default())
        .unwrap_or_else(|e| unreachable!("{e:?}"));
    let header = record_header(
        u32::try_from(payload.len()).unwrap_or(u32::MAX),
        crc32c(&payload),
        LogSequenceNumber::new(20),
    );
    file.extend_from_slice(&header);
    file.extend_from_slice(&payload[..1]);
    let (_, outcome) = reopen(&mut file).unwrap_or_else(|e| unreachable!("{e:?}"));
    assert!(outcome.recovered_torn_tail);
    assert_eq!(file.len(), valid_len);
}

#[test]
fn complete_payload_corruption_is_never_repaired_silently() {
    let (mut file, mut log) = open_temp();
    append(&mut file, &mut log, &batch_with_lsn(10)).unwrap_or_else(|e| unreachable!("{e:?}"));
    file[FILE_HEADER_LEN + RECORD_HEADER_LEN] ^= 1;
    assert!(matches!(
        reopen(&mut file),
        Err(DurableLogError::PayloadChecksumMismatch { .. })
    ));
}

#[test]
fn corrupt_file_and_record_headers_fail_closed() {
    let (mut file, _) = open_temp();
    file[0] = b'X';
    assert!(matches!(
        reopen(&mut file),
        Err(DurableLogError::InvalidFileMagic)
    ));

    let (mut file, mut log) = open_temp();
    append(&mut file, &mut log, &batch_with_lsn(10)).unwrap_or_else(|e| unreachable!("{e:?}"));
    file[FILE_HEADER_LEN + 28] ^= 1;
    assert!(matches!(
        reopen(&mut file),
        Err(DurableLogError::RecordHeaderChecksumMismatch)
    ));
}

#[test]
fn diagnostics_cover_all_non_io_variants() {
    let variants = [
        DurableLogError::TornFileHeader,
        DurableLogError::InvalidFileMagic,
        DurableLogError::UnsupportedFileVersion(2),
        DurableLogError::NonZeroFileReserved,
        DurableLogError::FileHeaderChecksumMismatch,
        DurableLogError::TornTail,
        DurableLogError::InvalidRecordMagic,
        DurableLogError::UnsupportedRecordVersion(2),
        DurableLogError::NonZeroRecordReserved,
        DurableLogError::RecordHeaderChecksumMismatch,
        DurableLogError::RecordTooLarge {
            actual: 2,
            maximum: 1,
        },
        DurableLogError::RecordLengthOverflow,
        DurableLogError::PayloadChecksumMismatch {
            end_lsn: LogSequenceNumber::new(1),
        },
        DurableLogError::RecordLsnMismatch {
            header: LogSequenceNumber::new(1),
            payload: LogSequenceNumber::new(2),
        },
        DurableLogError::NonMonotonicRecord {
            previous: LogSequenceNumber::new(2),
            current: LogSequenceNumber::new(1),
        },
        DurableLogError::ConflictingReplay(LogSequenceNumber::new(1)),
        DurableLogError::MissingHistoricalCheckpoint(LogSequenceNumber::new(1)),
    ];
    for error in variants {
        assert!(!error.message().is_empty());
    }
    let codec = DurableLogError::Codec(BatchCodecError::InvalidMagic);
    assert!(codec
        .message()
        .ends_with(&BatchCodecError::InvalidMagic.message()));
}

#[test]
fn every_file_header_fault_is_told_apart() {
    let header = encode_file_header();
    for len in 1..FILE_HEADER_LEN {
        let mut torn = header[..len].to_vec();
        assert!(matches!(
            reopen(&mut torn),
            Err(DurableLogError::TornFileHeader)
        ));
    }
    let mut version = header.clone();
    version[8] = 2;
    assert!(matches!(
        reopen(&mut version),
        Err(DurableLogError::UnsupportedFileVersion(2))
    ));
    let mut reserved = header.clone();
    reserved[10] = 1;
    assert!(matches!(
        reopen(&mut reserved),
        Err(DurableLogError::NonZeroFileReserved)
    ));
    let mut checksum = header.clone();
    checksum[12] ^= 1;
    assert!(matches!(
        reopen(&mut checksum),
        Err(DurableLogError::FileHeaderChecksumMismatch)
    ));
}

fn raw_record(payload: &[u8], end_lsn: u64) -> Vec<u8> {
    let mut bytes = record_header(
        u32::try_from(payload.len()).unwrap_or(u32::MAX),
        crc32c(payload),
        LogSequenceNumber::new(end_lsn),
    );
    bytes.extend_from_slice(payload);
    bytes
}

fn with_header_checksum(mut record: Vec<u8>) -> Vec<u8> {
    let crc = crc32c(&record[..28]);
    record[28..32].copy_from_slice(&crc.to_le_bytes());
    record
}

#[test]
fn every_record_fault_is_told_apart() {
    let limits = BatchLimits::default();
    let payload =
        encode_transaction_batch(&batch_with_lsn(10), limits).unwrap_or_else(|e| panic!("{e:?}"));
    let record = raw_record(&payload, 10);
    let open = |record: &[u8]| {
        let mut file = encode_file_header();
        file.extend_from_slice(record);
        reopen(&mut file).map(|_| ())
    };
    assert_eq!(open(&record), Ok(()));
    let mut magic = record.clone();
    magic[0] ^= 1;
    assert_eq!(open(&magic), Err(DurableLogError::InvalidRecordMagic));
    let mut version = record.clone();
    version[4] = 2;
    assert_eq!(
        open(&with_header_checksum(version)),
        Err(DurableLogError::UnsupportedRecordVersion(2))
    );
    let mut reserved = record.clone();
    reserved[6] = 1;
    assert_eq!(
        open(&with_header_checksum(reserved)),
        Err(DurableLogError::NonZeroRecordReserved)
    );
    let mut reserved_behind = record.clone();
    reserved_behind[24] = 1;
    assert_eq!(
        open(&with_header_checksum(reserved_behind)),
        Err(DurableLogError::NonZeroRecordReserved)
    );
    let mut large = record.clone();
    large[8..12].copy_from_slice(&u32::MAX.to_le_bytes());
    assert_eq!(
        open(&with_header_checksum(large)),
        Err(DurableLogError::RecordTooLarge {
            actual: u32::MAX as usize,
            maximum: limits.max_encoded_bytes
        })
    );
    assert_eq!(
        open(&raw_record(&payload, 11)),
        Err(DurableLogError::RecordLsnMismatch {
            header: LogSequenceNumber::new(11),
            payload: LogSequenceNumber::new(10)
        })
    );
    assert_eq!(
        open(&raw_record(b"VYRTXN02", 10)),
        Err(DurableLogError::Codec(BatchCodecError::InvalidMagic))
    );
    let mut twice = record.clone();
    twice.extend_from_slice(&record);
    assert_eq!(
        open(&twice),
        Err(DurableLogError::NonMonotonicRecord {
            previous: LogSequenceNumber::new(10),
            current: LogSequenceNumber::new(10)
        })
    );
}

#[test]
fn torn_tail_is_refused_by_replay_and_cut_off_by_open_at_every_length() {
    let limits = BatchLimits::default();
    let (mut file, mut log) = open_temp();
    append(&mut file, &mut log, &batch_with_lsn(10)).unwrap_or_else(|e| panic!("{e:?}"));
    let whole = file.len();
    let AppendStep::Write(next) = log
        .append(&sample_batch())
        .unwrap_or_else(|e| panic!("{e:?}"))
    else {
        unreachable!("a later transaction is written");
    };
    for len in 1..next.len() {
        let mut torn = file.clone();
        torn.extend_from_slice(&next[..len]);
        assert_eq!(
            DurableCdcLog::replay_from(&torn, limits, LogSequenceNumber::zero()),
            Err(DurableLogError::TornTail)
        );
        let (log, outcome) = reopen(&mut torn).unwrap_or_else(|e| panic!("{e:?}"));
        assert!(outcome.recovered_torn_tail);
        assert_eq!(torn.len(), whole);
        assert_eq!(log.last_durable_lsn(), LogSequenceNumber::new(10));
    }
}

#[test]
fn record_bytes_carry_the_standard_checksum() {
    let header = record_header(9, 0xE306_9283, LogSequenceNumber::new(5));
    assert_eq!(header.len(), RECORD_HEADER_LEN);
    assert_eq!(&header[..4], b"TXN1");
    assert_eq!(&header[12..16], &0xE306_9283u32.to_le_bytes());
    assert_eq!(&header[28..32], &crc32c(&header[..28]).to_le_bytes());
    let (_, log) = open_temp();
    let AppendStep::Write(bytes) = log
        .append(&batch_with_lsn(10))
        .unwrap_or_else(|e| panic!("{e:?}"))
    else {
        unreachable!("a first transaction is written");
    };
    assert_eq!(
        &bytes[12..16],
        &crc32c(&bytes[RECORD_HEADER_LEN..]).to_le_bytes()
    );
}

// ---------------------------------------------------------------------------------------------
// The coordinator
// ---------------------------------------------------------------------------------------------

#[test]
fn error_wrappers_preserve_sources() {
    let assembly = CdcPumpError::Assembly(AssemblerError::CommitWithoutBegin);
    assert_eq!(
        assembly.message(),
        "CDC transaction assembly failed: PostgreSQL COMMIT without BEGIN"
    );

    let progress = CdcPumpError::Progress(CdcProgressError::AppliedAheadOfDurable {
        attempted: LogSequenceNumber::new(2),
        durable: LogSequenceNumber::new(1),
    });
    assert!(progress.message().starts_with("CDC progress failed:"));

    let durable = CdcPumpError::Durable(DurableLogError::Codec(BatchCodecError::Validation(
        BatchValidationError::EndBeforeCommit,
    )));
    assert!(durable.message().starts_with("CDC durability failed:"));

    let transport = CdcPumpError::Transport(PostgresCdcError::Transport("gone".to_owned()));
    assert_eq!(
        transport.message(),
        "CDC transport failed: PostgreSQL replication error: gone"
    );
}

struct Server {
    file: Vec<u8>,
    acknowledged: Vec<u64>,
    events: Vec<TransportEvent>,
}

fn next_durable(pump: &mut CdcPump, server: &mut Server) -> Result<CdcPumpEvent, CdcPumpError> {
    let mut step = PumpStep::Receive;
    loop {
        step = match step {
            PumpStep::Receive => {
                let event = if server.events.is_empty() {
                    None
                } else {
                    Some(server.events.remove(0))
                };
                pump.received(Ok(event))?
            }
            PumpStep::Write(bytes) => {
                server.file.extend_from_slice(&bytes);
                pump.written(Ok(()))?
            }
            PumpStep::Compare => pump.compared(Ok(server.file.clone()))?,
            PumpStep::Acknowledge(position) => {
                server.acknowledged.push(position);
                return Ok(pump.acknowledged());
            }
            PumpStep::Done(event) => return Ok(event),
        };
    }
}

fn transaction(lsn: u64, byte: u8) -> Vec<TransportEvent> {
    vec![
        TransportEvent::Begin {
            final_lsn: lsn,
            xid: 1,
            commit_time_micros: 5,
        },
        TransportEvent::XLogData {
            wal_start: lsn,
            wal_end: lsn,
            server_time_micros: 0,
            data: vec![byte],
        },
        TransportEvent::Commit {
            lsn,
            end_lsn: lsn + 1,
            commit_time_micros: 5,
        },
    ]
}

fn new_pump() -> (CdcPump, Server) {
    let (file, log) = open_temp();
    let pump = CdcPump::new(
        CdcAssembler::new(BatchLimits::default()),
        log,
        CdcProgressTracker::zero(),
    );
    (
        pump,
        Server {
            file,
            acknowledged: Vec::new(),
            events: Vec::new(),
        },
    )
}

#[test]
fn coordinator_acknowledges_only_what_is_durable() {
    let (mut pump, mut server) = new_pump();
    server.events.extend(transaction(10, 1));
    server.events.extend(transaction(20, 2));
    server.events.extend(transaction(10, 1));
    for (xid_at, append) in [
        (11, AppendOutcome::Appended),
        (21, AppendOutcome::Appended),
        (11, AppendOutcome::Duplicate),
    ] {
        let CdcPumpEvent::Transaction { batch, append: got } =
            next_durable(&mut pump, &mut server).unwrap_or_else(|e| panic!("{e:?}"))
        else {
            unreachable!("a committed transaction is reported");
        };
        assert_eq!(batch.end_lsn(), LogSequenceNumber::new(xid_at));
        assert_eq!(got, append);
    }
    assert_eq!(server.acknowledged, [11, 21, 21]);
    assert_eq!(pump.durable_lsn(), LogSequenceNumber::new(21));
    assert_eq!(
        pump.progress().snapshot().durable(),
        LogSequenceNumber::new(21)
    );
    assert_eq!(
        next_durable(&mut pump, &mut server),
        Ok(CdcPumpEvent::EndOfStream)
    );
    server.events.push(TransportEvent::StoppedAt { reached: 30 });
    assert_eq!(
        next_durable(&mut pump, &mut server),
        Ok(CdcPumpEvent::StoppedAt(LogSequenceNumber::new(30)))
    );
    assert_eq!(
        pump.progress().snapshot().received(),
        LogSequenceNumber::new(30)
    );
}

#[test]
fn coordinator_refuses_a_conflicting_replay() {
    let (mut pump, mut server) = new_pump();
    server.events.extend(transaction(10, 1));
    assert!(next_durable(&mut pump, &mut server).is_ok());
    server.events.extend(transaction(10, 9));
    assert_eq!(
        next_durable(&mut pump, &mut server),
        Err(CdcPumpError::Durable(DurableLogError::ConflictingReplay(
            LogSequenceNumber::new(11)
        )))
    );
    assert_eq!(server.acknowledged, [11]);
}

#[test]
fn failed_write_makes_nothing_durable() {
    let (mut pump, mut server) = new_pump();
    for event in transaction(10, 1) {
        let step = pump.received(Ok(Some(event)));
        if let Ok(PumpStep::Write(_)) = step {
            assert_eq!(
                pump.written(Err("disk full".to_owned())),
                Err(CdcPumpError::Durable(DurableLogError::Io(
                    "disk full".to_owned()
                )))
            );
        } else {
            assert_eq!(step, Ok(PumpStep::Receive));
        }
    }
    assert_eq!(pump.durable_lsn(), LogSequenceNumber::zero());
    assert_eq!(
        pump.progress().snapshot().durable(),
        LogSequenceNumber::zero()
    );
    assert_eq!(
        pump.received(Err("reset".to_owned())),
        Err(CdcPumpError::Transport(PostgresCdcError::Transport(
            "reset".to_owned()
        )))
    );
    server.events.extend(transaction(10, 1));
    assert!(next_durable(&mut pump, &mut server).is_ok());
    assert_eq!(server.acknowledged, [11]);
    server.events.push(TransportEvent::Commit {
        lsn: 1,
        end_lsn: 1,
        commit_time_micros: 0,
    });
    assert_eq!(
        next_durable(&mut pump, &mut server),
        Err(CdcPumpError::Assembly(AssemblerError::CommitWithoutBegin))
    );
    server.events.extend(transaction(5, 1));
    for _ in 0..3 {
        let event = server.events.remove(0);
        if let Ok(PumpStep::Compare) = pump.received(Ok(Some(event))) {
            assert_eq!(
                pump.compared(Err("gone".to_owned())),
                Err(CdcPumpError::Durable(DurableLogError::Io(
                    "gone".to_owned()
                )))
            );
        }
    }
}

#[test]
fn a_record_that_only_the_encoder_lets_pass_is_refused_on_reading() {
    let batch = batch_with_lsn(10);
    let payload = encode_transaction_batch(&batch, BatchLimits::default())
        .unwrap_or_else(|e| panic!("{e:?}"));
    let limits = BatchLimits {
        max_encoded_bytes: payload.len() - 1,
        ..BatchLimits::default()
    };
    let (mut file, _) = open_temp();
    file.extend_from_slice(&raw_record(&payload, 10));
    assert_eq!(encode_transaction_batch(&batch, limits), Ok(payload.clone()));
    assert_eq!(
        DurableCdcLog::replay_from(&file, limits, LogSequenceNumber::zero()),
        Err(DurableLogError::RecordTooLarge {
            actual: payload.len(),
            maximum: payload.len() - 1
        })
    );
}
