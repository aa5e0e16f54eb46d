//! Versioned append-only log of complete transactions as the transport delivers them. File access
//! is left to the caller.

use super::checksum::{crc32c_of, law_changed_byte_changes_the_checksum};
use super::codec::{
    decode_transaction_batch, decoded, encode_transaction_batch, encoded,
    law_transaction_round_trip, BatchCodecError,
};
use super::lsn::LogSequenceNumber;
use super::model::{sizes, sizes_text, BatchLimits, ModelBatchView, TransactionBatch};
use super::wire::{
    le_bytes, le_value, lemma_le_bytes_len, lemma_le_bytes_of_le_value, lemma_le_value_bound,
    lemma_le_value_of_le_bytes, lemma_pow256_values, pow256, put_bytes, put_u16, put_u32, put_u64,
    read_le, same_bytes,
};
use crate::text::{decimal, decimal_text, joined, joined3};
use vstd::prelude::*;
use vstd::string::*;

verus! {

/// First field of the file.
pub const FILE_MAGIC: [u8; 8] = [0x56, 0x59, 0x52, 0x43, 0x44, 0x43, 0x30, 0x31];

/// Version of the file.
pub const FILE_VERSION: u16 = 1;

/// Bytes of the file header.
pub const FILE_HEADER_LEN: usize = 16;

/// First field of every record.
pub const RECORD_MAGIC: [u8; 4] = [0x54, 0x58, 0x4e, 0x31];

/// Version of a record.
pub const RECORD_VERSION: u16 = 1;

/// Bytes of a record header.
pub const RECORD_HEADER_LEN: usize = 32;

/// Why a log or an append to it is refused.
#[derive(Clone, Debug, PartialEq, Eq)]
pub enum DurableLogError {
    /// A file operation failed; the text is what it reported.
    Io(String),
    Codec(BatchCodecError),
    TornFileHeader,
    InvalidFileMagic,
    UnsupportedFileVersion(u16),
    NonZeroFileReserved,
    FileHeaderChecksumMismatch,
    TornTail,
    InvalidRecordMagic,
    UnsupportedRecordVersion(u16),
    NonZeroRecordReserved,
    RecordHeaderChecksumMismatch,
    RecordTooLarge { actual: usize, maximum: usize },
    RecordLengthOverflow,
    PayloadChecksumMismatch { end_lsn: LogSequenceNumber },
    RecordLsnMismatch { header: LogSequenceNumber, payload: LogSequenceNumber },
    NonMonotonicRecord { previous: LogSequenceNumber, current: LogSequenceNumber },
    ConflictingReplay(LogSequenceNumber),
    MissingHistoricalCheckpoint(LogSequenceNumber),
}

/// The checksum of a byte string.
///
/// Trusted: `crc32c::crc32c`, which documents that it computes the CRC-32C (Castagnoli) checksum
/// of its argument; `crc32c_of` states that checksum.
#[verifier::external_body]
fn checksum(bytes: &[u8]) -> (crc: u32)
    ensures
        crc == crc32c_of(bytes@),
{
    crc32c::crc32c(bytes)
}

// ---------------------------------------------------------------------------------------------
// Format
// ---------------------------------------------------------------------------------------------

/// The number in the bytes `start..end` of `input`.
pub open spec fn field(input: Seq<u8>, start: int, end: int) -> nat {
    le_value(input.subrange(start, end))
}

/// The part of the file header that its checksum covers.
pub open spec fn file_header_body() -> Seq<u8> {
    FILE_MAGIC@ + le_bytes(FILE_VERSION as nat, 2) + le_bytes(0, 2)
}

/// The file header.
pub open spec fn file_header() -> Seq<u8> {
    file_header_body() + le_bytes(crc32c_of(file_header_body()) as nat, 4)
}

/// What is wrong with the header of a file with these contents, if anything.
pub open spec fn file_header_error(contents: Seq<u8>) -> Option<DurableLogError> {
    if contents.len() < FILE_HEADER_LEN {
        Some(DurableLogError::TornFileHeader)
    } else if contents.subrange(0, 8) != FILE_MAGIC@ {
        Some(DurableLogError::InvalidFileMagic)
    } else if field(contents, 8, 10) != FILE_VERSION {
        Some(DurableLogError::UnsupportedFileVersion(field(contents, 8, 10) as u16))
    } else if field(contents, 10, 12) != 0 {
        Some(DurableLogError::NonZeroFileReserved)
    } else if crc32c_of(contents.subrange(0, 12)) != field(contents, 12, 16) {
        Some(DurableLogError::FileHeaderChecksumMismatch)
    } else {
        None
    }
}

/// The part of a record header that its checksum covers.
pub open spec fn record_header_body(
    payload_len: nat,
    payload_crc: u32,
    end_lsn: LogSequenceNumber,
) -> Seq<u8> {
    RECORD_MAGIC@ + le_bytes(RECORD_VERSION as nat, 2) + le_bytes(0, 2) + le_bytes(payload_len, 4)
        + le_bytes(payload_crc as nat, 4) + le_bytes(end_lsn.0 as nat, 8) + le_bytes(0, 4)
}

/// The header of a record.
pub open spec fn record_header_bytes(
    payload_len: nat,
    payload_crc: u32,
    end_lsn: LogSequenceNumber,
) -> Seq<u8> {
    let body = record_header_body(payload_len, payload_crc, end_lsn);
    body + le_bytes(crc32c_of(body) as nat, 4)
}

/// The record of a payload.
pub open spec fn record(payload: Seq<u8>, end_lsn: LogSequenceNumber) -> Seq<u8> {
    record_header_bytes(payload.len(), crc32c_of(payload), end_lsn) + payload
}

/// What a record header says of its record.
#[derive(Clone, Copy, Debug, PartialEq, Eq, Structural)]
pub struct ParsedRecordHeader {
    pub payload_len: usize,
    pub payload_crc: u32,
    pub end_lsn: LogSequenceNumber,
}

/// What a whole record header says of its record.
pub open spec fn header_fields(header: Seq<u8>, limits: BatchLimits) -> Result<
    ParsedRecordHeader,
    DurableLogError,
> {
    if header.subrange(0, 4) != RECORD_MAGIC@ {
        Err(DurableLogError::InvalidRecordMagic)
    } else if field(header, 4, 6) != RECORD_VERSION {
        Err(DurableLogError::UnsupportedRecordVersion(field(header, 4, 6) as u16))
    } else if field(header, 6, 8) != 0 || field(header, 24, 28) != 0 {
        Err(DurableLogError::NonZeroRecordReserved)
    } else if crc32c_of(header.subrange(0, 28)) != field(header, 28, 32) {
        Err(DurableLogError::RecordHeaderChecksumMismatch)
    } else if field(header, 8, 12) > limits.max_encoded_bytes {
        Err(
            DurableLogError::RecordTooLarge {
                actual: field(header, 8, 12) as usize,
                maximum: limits.max_encoded_bytes,
            },
        )
    } else {
        Ok(
            ParsedRecordHeader {
                payload_len: field(header, 8, 12) as usize,
                payload_crc: field(header, 12, 16) as u32,
                end_lsn: LogSequenceNumber(field(header, 16, 24) as u64),
            },
        )
    }
}

/// The record that starts at `offset`: its header and payload, or `None` where the contents end
/// inside it.
#[verifier::opaque]
pub open spec fn record_at(contents: Seq<u8>, offset: nat, limits: BatchLimits) -> Result<
    Option<(ParsedRecordHeader, Seq<u8>)>,
    DurableLogError,
> {
    if contents.len() - offset < RECORD_HEADER_LEN {
        Ok(None)
    } else {
        match header_fields(
            contents.subrange(offset as int, offset + RECORD_HEADER_LEN),
            limits,
        ) {
            Err(error) => Err(error),
            Ok(header) => {
                let start = offset + RECORD_HEADER_LEN;
                if contents.len() - start < header.payload_len {
                    Ok(None)
                } else {
                    Ok(Some((header, contents.subrange(start, start + header.payload_len))))
                }
            },
        }
    }
}

/// The transaction of a record behind one that ended at `previous`.
pub open spec fn checked_record(
    header: ParsedRecordHeader,
    payload: Seq<u8>,
    previous: LogSequenceNumber,
    limits: BatchLimits,
) -> Result<ModelBatchView, DurableLogError> {
    if crc32c_of(payload) != header.payload_crc {
        Err(DurableLogError::PayloadChecksumMismatch { end_lsn: header.end_lsn })
    } else {
        match decoded(payload, limits) {
            Err(error) => Err(DurableLogError::Codec(error)),
            Ok(batch) => if batch.end_lsn != header.end_lsn {
                Err(
                    DurableLogError::RecordLsnMismatch {
                        header: header.end_lsn,
                        payload: batch.end_lsn,
                    },
                )
            } else if header.end_lsn.0 <= previous.0 {
                Err(
                    DurableLogError::NonMonotonicRecord { previous, current: header.end_lsn },
                )
            } else {
                Ok(batch)
            },
        }
    }
}

/// What a scan finds: the last position, where the contents end inside a record, and the
/// transactions behind some position.
#[verifier::ext_equal]
pub struct ScanView {
    pub last_lsn: LogSequenceNumber,
    pub torn_at: Option<nat>,
    pub collected: Seq<ModelBatchView>,
}

/// Whether a scan collects a transaction that ends at `end_lsn`.
pub open spec fn collects(after: Option<LogSequenceNumber>, end_lsn: LogSequenceNumber) -> bool {
    after matches Some(after) && end_lsn.0 > after.0
}

/// `done` in front of what a scan finds further on.
pub open spec fn further(
    done: Seq<ModelBatchView>,
    found: Result<ScanView, DurableLogError>,
) -> Result<ScanView, DurableLogError> {
    match found {
        Ok(scan) => Ok(ScanView { collected: done + scan.collected, ..scan }),
        Err(error) => Err(error),
    }
}

/// The number of bytes from `offset` on.
pub open spec fn bytes_left(contents: Seq<u8>, offset: nat) -> nat {
    if offset >= contents.len() {
        0
    } else {
        (contents.len() - offset) as nat
    }
}

/// What a scan of the records from `offset` on finds, behind a record that ended at `previous`.
/// An incomplete last record is reported where it may be repaired, and refused otherwise.
pub open spec fn scanned(
    contents: Seq<u8>,
    offset: nat,
    previous: LogSequenceNumber,
    limits: BatchLimits,
    repair: bool,
    after: Option<LogSequenceNumber>,
) -> Result<ScanView, DurableLogError>
    decreases bytes_left(contents, offset),
{
    if offset >= contents.len() {
        Ok(ScanView { last_lsn: previous, torn_at: None, collected: seq![] })
    } else {
        match record_at(contents, offset, limits) {
            Err(error) => Err(error),
            Ok(None) => if repair {
                Ok(ScanView { last_lsn: previous, torn_at: Some(offset), collected: seq![] })
            } else {
                Err(DurableLogError::TornTail)
            },
            Ok(Some((header, payload))) => match checked_record(
                header,
                payload,
                previous,
                limits,
            ) {
                Err(error) => Err(error),
                Ok(batch) => further(
                    if collects(after, header.end_lsn) {
                        seq![batch]
                    } else {
                        seq![]
                    },
                    scanned(
                        contents,
                        offset + RECORD_HEADER_LEN as nat + header.payload_len as nat,
                        header.end_lsn,
                        limits,
                        repair,
                        after,
                    ),
                ),
            },
        }
    }
}

/// The payload of the record that ends at `target`, among those from `offset` on.
pub open spec fn found_payload(
    contents: Seq<u8>,
    offset: nat,
    limits: BatchLimits,
    target: LogSequenceNumber,
) -> Result<Option<Seq<u8>>, DurableLogError>
    decreases bytes_left(contents, offset),
{
    if offset >= contents.len() {
        Ok(None)
    } else {
        match record_at(contents, offset, limits) {
            Err(error) => Err(error),
            Ok(None) => Err(DurableLogError::TornTail),
            Ok(Some((header, payload))) => if header.end_lsn == target {
                if crc32c_of(payload) != header.payload_crc {
                    Err(DurableLogError::PayloadChecksumMismatch { end_lsn: target })
                } else {
                    Ok(Some(payload))
                }
            } else if header.end_lsn.0 > target.0 {
                Ok(None)
            } else {
                found_payload(
                    contents,
                    offset + RECORD_HEADER_LEN as nat + header.payload_len as nat,
                    limits,
                    target,
                )
            },
        }
    }
}

// ---------------------------------------------------------------------------------------------
// Scanning
// ---------------------------------------------------------------------------------------------

fn number_in(input: &[u8], start: usize, end: usize) -> (value: u64)
    requires
        start <= end <= input@.len(),
        end - start <= 8,
    ensures
        value as nat == field(input@, start as int, end as int),
        value < pow256((end - start) as nat),
{
    let bytes = vstd::slice::slice_subrange(input, start, end);
    proof {
        lemma_le_value_bound(bytes@);
    }
    read_le(bytes)
}

/// Encodes the file header.
pub fn encode_file_header() -> (bytes: Vec<u8>)
    ensures
        bytes@ == file_header(),
{
    let magic: [u8; 8] = FILE_MAGIC;
    let mut out: Vec<u8> = Vec::new();
    put_bytes(&mut out, magic.as_slice());
    put_u16(&mut out, FILE_VERSION);
    put_u16(&mut out, 0);
    assert(out@ =~= file_header_body());
    let crc: u32 = checksum(out.as_slice());
    put_u32(&mut out, crc);
    out
}

/// Checks the header of a file with these contents.
pub fn validate_file_header(contents: &[u8]) -> (result: Result<(), DurableLogError>)
    ensures
        result == (match file_header_error(contents@) {
            Some(error) => Err::<(), DurableLogError>(error),
            None => Ok(()),
        }),
{
    proof {
        lemma_pow256_values();
    }
    if contents.len() < FILE_HEADER_LEN {
        return Err(DurableLogError::TornFileHeader);
    }
    let magic: [u8; 8] = FILE_MAGIC;
    if !same_bytes(vstd::slice::slice_subrange(contents, 0, 8), magic.as_slice()) {
        return Err(DurableLogError::InvalidFileMagic);
    }
    let version: u16 = number_in(contents, 8, 10) as u16;
    if version != FILE_VERSION {
        return Err(DurableLogError::UnsupportedFileVersion(version));
    }
    if number_in(contents, 10, 12) != 0 {
        return Err(DurableLogError::NonZeroFileReserved);
    }
    let crc: u32 = checksum(vstd::slice::slice_subrange(contents, 0, 12));
    if crc as u64 != number_in(contents, 12, 16) {
        return Err(DurableLogError::FileHeaderChecksumMismatch);
    }
    Ok(())
}

/// Encodes a record header.
pub fn record_header(payload_len: u32, payload_crc: u32, end_lsn: LogSequenceNumber) -> (bytes: Vec<
    u8,
>)
    ensures
        bytes@ == record_header_bytes(payload_len as nat, payload_crc, end_lsn),
{
    let magic: [u8; 4] = RECORD_MAGIC;
    let mut out: Vec<u8> = Vec::new();
    put_bytes(&mut out, magic.as_slice());
    put_u16(&mut out, RECORD_VERSION);
    put_u16(&mut out, 0);
    put_u32(&mut out, payload_len);
    put_u32(&mut out, payload_crc);
    put_u64(&mut out, end_lsn.get());
    put_u32(&mut out, 0);
    assert(out@ =~= record_header_body(payload_len as nat, payload_crc, end_lsn));
    let crc: u32 = checksum(out.as_slice());
    put_u32(&mut out, crc);
    out
}

/// Decodes a record header.
pub fn parse_record_header(header: &[u8], limits: BatchLimits) -> (result: Result<
    ParsedRecordHeader,
    DurableLogError,
>)
    requires
        header@.len() == RECORD_HEADER_LEN,
    ensures
        result == header_fields(header@, limits),
{
    proof {
        lemma_pow256_values();
    }
    let magic: [u8; 4] = RECORD_MAGIC;
    if !same_bytes(vstd::slice::slice_subrange(header, 0, 4), magic.as_slice()) {
        return Err(DurableLogError::InvalidRecordMagic);
    }
    let version: u16 = number_in(header, 4, 6) as u16;
    if version != RECORD_VERSION {
        return Err(DurableLogError::UnsupportedRecordVersion(version));
    }
    if number_in(header, 6, 8) != 0 || number_in(header, 24, 28) != 0 {
        return Err(DurableLogError::NonZeroRecordReserved);
    }
    let crc: u32 = checksum(vstd::slice::slice_subrange(header, 0, 28));
    if crc as u64 != number_in(header, 28, 32) {
        return Err(DurableLogError::RecordHeaderChecksumMismatch);
    }
    let payload_len: usize = number_in(header, 8, 12) as usize;
    if payload_len > limits.max_encoded_bytes {
        return Err(
            DurableLogError::RecordTooLarge {
                actual: payload_len,
                maximum: limits.max_encoded_bytes,
            },
        );
    }
    Ok(
        ParsedRecordHeader {
            payload_len,
            payload_crc: number_in(header, 12, 16) as u32,
            end_lsn: LogSequenceNumber::new(number_in(header, 16, 24)),
        },
    )
}

fn take_record<'a>(contents: &'a [u8], offset: usize, limits: BatchLimits) -> (result: Result<
    Option<(ParsedRecordHeader, &'a [u8])>,
    DurableLogError,
>)
    requires
        offset <= contents@.len(),
    ensures
        match result {
            Ok(Some((header, payload))) => {
                &&& record_at(contents@, offset as nat, limits) == Ok::<
                    Option<(ParsedRecordHeader, Seq<u8>)>,
                    DurableLogError,
                >(Some((header, payload@)))
                &&& offset + RECORD_HEADER_LEN + header.payload_len <= contents@.len()
            },
            Ok(None) => record_at(contents@, offset as nat, limits) == Ok::<
                Option<(ParsedRecordHeader, Seq<u8>)>,
                DurableLogError,
            >(None),
            Err(error) => record_at(contents@, offset as nat, limits) == Err::<
                Option<(ParsedRecordHeader, Seq<u8>)>,
                DurableLogError,
            >(error),
        },
{
    reveal(record_at);
    if contents.len() - offset < RECORD_HEADER_LEN {
        return Ok(None);
    }
    let start: usize = offset + RECORD_HEADER_LEN;
    let header = parse_record_header(
        vstd::slice::slice_subrange(contents, offset, start),
        limits,
    )?;
    if contents.len() - start < header.payload_len {
        return Ok(None);
    }
    let payload = vstd::slice::slice_subrange(contents, start, start + header.payload_len);
    Ok(Some((header, payload)))
}

fn check_record(
    header: ParsedRecordHeader,
    payload: &[u8],
    previous: LogSequenceNumber,
    limits: BatchLimits,
) -> (result: Result<TransactionBatch, DurableLogError>)
    ensures
        match result {
            Ok(batch) => checked_record(header, payload@, previous, limits) == Ok::<
                ModelBatchView,
                DurableLogError,
            >(batch@),
            Err(error) => checked_record(header, payload@, previous, limits) == Err::<
                ModelBatchView,
                DurableLogError,
            >(error),
        },
{
    if checksum(payload) != header.payload_crc {
        return Err(DurableLogError::PayloadChecksumMismatch { end_lsn: header.end_lsn });
    }
    let batch = match decode_transaction_batch(payload, limits) {
        Ok(batch) => batch,
        Err(error) => return Err(DurableLogError::Codec(error)),
    };
    if batch.end_lsn() != header.end_lsn {
        return Err(
            DurableLogError::RecordLsnMismatch {
                header: header.end_lsn,
                payload: batch.end_lsn(),
            },
        );
    }
    if header.end_lsn.0 <= previous.0 {
        return Err(DurableLogError::NonMonotonicRecord { previous, current: header.end_lsn });
    }
    Ok(batch)
}

/// What a scan finds.
#[derive(Debug)]
pub struct ScanResult {
    /// The position behind the last whole record.
    pub last_lsn: LogSequenceNumber,
    /// Where the contents end inside a record.
    pub torn_at: Option<u64>,
    /// The transactions behind the position asked for.
    pub collected: Vec<TransactionBatch>,
}

/// The contents of a list of transactions.
pub open spec fn batches_view(batches: Seq<TransactionBatch>) -> Seq<ModelBatchView> {
    Seq::new(batches.len(), |i: int| batches[i]@)
}

impl View for ScanResult {
    type V = ScanView;

    open spec fn view(&self) -> ScanView {
        ScanView {
            last_lsn: self.last_lsn,
            torn_at: match self.torn_at {
                Some(at) => Some(at as nat),
                None => None,
            },
            collected: batches_view(self.collected@),
        }
    }
}

proof fn lemma_further_nothing(found: Result<ScanView, DurableLogError>)
    ensures
        further(Seq::empty(), found) == found,
{
    if found is Ok {
        assert(Seq::<ModelBatchView>::empty() + found->Ok_0.collected =~= found->Ok_0.collected);
    }
}

/// Scans the records behind the file header.
#[verifier::loop_isolation(false)]
pub fn scan_records(
    contents: &[u8],
    limits: BatchLimits,
    repair_torn_tail: bool,
    collect_after: Option<LogSequenceNumber>,
) -> (result: Result<ScanResult, DurableLogError>)
    requires
        FILE_HEADER_LEN <= contents@.len(),
    ensures
        match result {
            Ok(scan) => scanned(
                contents@,
                FILE_HEADER_LEN as nat,
                LogSequenceNumber(0),
                limits,
                repair_torn_tail,
                collect_after,
            ) == Ok::<ScanView, DurableLogError>(scan@),
            Err(error) => scanned(
                contents@,
                FILE_HEADER_LEN as nat,
                LogSequenceNumber(0),
                limits,
                repair_torn_tail,
                collect_after,
            ) == Err::<ScanView, DurableLogError>(error),
        },
{
    let mut offset: usize = FILE_HEADER_LEN;
    let mut previous = LogSequenceNumber::zero();
    let mut collected: Vec<TransactionBatch> = Vec::new();
    let ghost whole = scanned(
        contents@,
        FILE_HEADER_LEN as nat,
        LogSequenceNumber(0),
        limits,
        repair_torn_tail,
        collect_after,
    );
    proof {
        assert(batches_view(collected@) =~= Seq::empty());
        lemma_further_nothing(whole);
    }
    while offset < contents.len()
        invariant
            offset <= contents@.len(),
            whole == further(
                batches_view(collected@),
                scanned(
                    contents@,
                    offset as nat,
                    previous,
                    limits,
                    repair_torn_tail,
                    collect_after,
                ),
            ),
        decreases contents@.len() - offset,
    {
        let ghost done = batches_view(collected@);
        let (header, payload) = match take_record(contents, offset, limits)? {
            Some(found) => found,
            None => {
                if repair_torn_tail {
                    assert(done + Seq::<ModelBatchView>::empty() =~= done);
                    return Ok(
                        ScanResult {
                            last_lsn: previous,
                            torn_at: Some(offset as u64),
                            collected,
                        },
                    );
                }
                return Err(DurableLogError::TornTail);
            },
        };
        let batch = check_record(header, payload, previous, limits)?;
        let next: usize = offset + RECORD_HEADER_LEN + header.payload_len;
        let ghost rest = scanned(
            contents@,
            next as nat,
            header.end_lsn,
            limits,
            repair_torn_tail,
            collect_after,
        );
        let collect = match collect_after {
            Some(after) => header.end_lsn.0 > after.0,
            None => false,
        };
        proof {
            if let Ok(scan) = rest {
                assert(done + (seq![batch@] + scan.collected) =~= done.push(batch@)
                    + scan.collected);
                assert(done + (Seq::<ModelBatchView>::empty() + scan.collected) =~= done
                    + scan.collected);
            }
        }
        if collect {
            collected.push(batch);
            assert(batches_view(collected@) =~= done.push(batch@));
        }
        previous = header.end_lsn;
        offset = next;
    }
    assert(batches_view(collected@) + Seq::<ModelBatchView>::empty() =~= batches_view(collected@));
    Ok(ScanResult { last_lsn: previous, torn_at: None, collected })
}

/// Finds the payload of the record that ends at `target`.
#[verifier::loop_isolation(false)]
pub fn find_payload_at(contents: &[u8], limits: BatchLimits, target: LogSequenceNumber) -> (result:
    Result<Option<Vec<u8>>, DurableLogError>)
    ensures
        match file_header_error(contents@) {
            Some(error) => result == Err::<Option<Vec<u8>>, DurableLogError>(error),
            None => match (
                result,
                found_payload(contents@, FILE_HEADER_LEN as nat, limits, target),
            ) {
                (Ok(Some(bytes)), Ok(Some(payload))) => bytes@ == payload,
                (Ok(None), Ok(None)) => true,
                (Err(error), Err(expected)) => error == expected,
                _ => false,
            },
        },
{
    validate_file_header(contents)?;
    let ghost whole = found_payload(contents@, FILE_HEADER_LEN as nat, limits, target);
    let mut offset: usize = FILE_HEADER_LEN;
    while offset < contents.len()
        invariant
            offset <= contents@.len(),
            whole == found_payload(contents@, offset as nat, limits, target),
        decreases contents@.len() - offset,
    {
        let (header, payload) = match take_record(contents, offset, limits)? {
            Some(found) => found,
            None => return Err(DurableLogError::TornTail),
        };
        if header.end_lsn == target {
            if checksum(payload) != header.payload_crc {
                return Err(DurableLogError::PayloadChecksumMismatch { end_lsn: target });
            }
            return Ok(Some(vstd::slice::slice_to_vec(payload)));
        }
        if header.end_lsn.0 > target.0 {
            return Ok(None);
        }
        offset = offset + RECORD_HEADER_LEN + header.payload_len;
    }
    Ok(None)
}

// ---------------------------------------------------------------------------------------------
// Log
// ---------------------------------------------------------------------------------------------

/// Result of opening a log.
#[derive(Clone, Copy, Debug, PartialEq, Eq, Structural)]
pub struct OpenOutcome {
    /// Highest durable position.
    pub last_durable_lsn: LogSequenceNumber,
    /// Whether an incomplete last write has to be cut off.
    pub recovered_torn_tail: bool,
}

/// What opening asks the caller to do to the file before anything is appended.
#[derive(Clone, Debug, PartialEq, Eq)]
pub enum OpenAction {
    /// Nothing.
    Keep,
    /// To write and synchronise this file header.
    WriteHeader(Vec<u8>),
    /// To cut the file to this length and synchronise it.
    Truncate(u64),
}

/// Result of an append.
#[derive(Clone, Copy, Debug, PartialEq, Eq, Structural)]
pub enum AppendOutcome {
    /// A new transaction was appended and synchronised.
    Appended,
    /// The exact transaction is durable already.
    Duplicate,
}

/// What an append asks the caller to do.
#[derive(Clone, Debug, PartialEq, Eq)]
pub enum AppendStep {
    /// To append and synchronise these bytes, then to report to `confirm`.
    Write(Vec<u8>),
    /// To read the log and hand it to `compare` with this payload.
    Compare(Vec<u8>),
}

/// State of a `DurableCdcLog`.
#[verifier::ext_equal]
pub struct LogView {
    pub limits: BatchLimits,
    pub last_durable_lsn: LogSequenceNumber,
}

/// Append-only log of transactions, apart from its file.
#[derive(Debug)]
pub struct DurableCdcLog {
    limits: BatchLimits,
    last_durable_lsn: LogSequenceNumber,
}

impl View for DurableCdcLog {
    type V = LogView;

    closed spec fn view(&self) -> LogView {
        LogView { limits: self.limits, last_durable_lsn: self.last_durable_lsn }
    }
}

/// What opening a file with these contents finds. An empty file stands for an empty log.
pub open spec fn opened(contents: Seq<u8>, limits: BatchLimits) -> Result<
    ScanView,
    DurableLogError,
> {
    if contents.len() == 0 {
        Ok(ScanView { last_lsn: LogSequenceNumber(0), torn_at: None, collected: seq![] })
    } else {
        match file_header_error(contents) {
            Some(error) => Err(error),
            None => scanned(
                contents,
                FILE_HEADER_LEN as nat,
                LogSequenceNumber(0),
                limits,
                true,
                None,
            ),
        }
    }
}

/// Whether `action` is what the file needs.
pub open spec fn repairs(action: OpenAction, contents: Seq<u8>, scan: ScanView) -> bool {
    match action {
        OpenAction::Keep => contents.len() > 0 && scan.torn_at is None,
        OpenAction::WriteHeader(bytes) => contents.len() == 0 && bytes@ == file_header(),
        OpenAction::Truncate(len) => contents.len() > 0 && scan.torn_at == Some(len as nat),
    }
}

/// How a payload compares with what a log with these contents holds for its position.
pub open spec fn compared_payload(
    contents: Seq<u8>,
    limits: BatchLimits,
    payload: Seq<u8>,
    end_lsn: LogSequenceNumber,
) -> Result<AppendOutcome, DurableLogError> {
    match file_header_error(contents) {
        Some(error) => Err(error),
        None => match found_payload(contents, FILE_HEADER_LEN as nat, limits, end_lsn) {
            Err(error) => Err(error),
            Ok(None) => Err(DurableLogError::MissingHistoricalCheckpoint(end_lsn)),
            Ok(Some(existing)) => if existing == payload {
                Ok(AppendOutcome::Duplicate)
            } else {
                Err(DurableLogError::ConflictingReplay(end_lsn))
            },
        },
    }
}

/// The transactions that a file with these contents holds behind `after`.
pub open spec fn replayed(
    contents: Seq<u8>,
    limits: BatchLimits,
    after: LogSequenceNumber,
) -> Result<Seq<ModelBatchView>, DurableLogError> {
    match file_header_error(contents) {
        Some(error) => Err(error),
        None => match scanned(
            contents,
            FILE_HEADER_LEN as nat,
            LogSequenceNumber(0),
            limits,
            false,
            Some(after),
        ) {
            Ok(scan) => Ok(scan.collected),
            Err(error) => Err(error),
        },
    }
}

impl DurableCdcLog {
    /// Opens a log with these contents. Only an incomplete last append is ever repaired.
    pub fn open(contents: &[u8], limits: BatchLimits) -> (result: Result<
        (Self, OpenOutcome, OpenAction),
        DurableLogError,
    >)
        ensures
            match result {
                Ok((log, outcome, action)) => {
                    &&& opened(contents@, limits) matches Ok(scan)
                    &&& log@ == (LogView { limits, last_durable_lsn: scan.last_lsn })
                    &&& outcome == (OpenOutcome {
                        last_durable_lsn: scan.last_lsn,
                        recovered_torn_tail: scan.torn_at is Some,
                    })
                    &&& repairs(action, contents@, scan)
                },
                Err(error) => opened(contents@, limits) == Err::<ScanView, DurableLogError>(error),
            },
    {
        if contents.len() == 0 {
            let log = DurableCdcLog { limits, last_durable_lsn: LogSequenceNumber::zero() };
            let outcome = OpenOutcome {
                last_durable_lsn: LogSequenceNumber::zero(),
                recovered_torn_tail: false,
            };
            return Ok((log, outcome, OpenAction::WriteHeader(encode_file_header())));
        }
        validate_file_header(contents)?;
        let scan = scan_records(contents, limits, true, None)?;
        let log = DurableCdcLog { limits, last_durable_lsn: scan.last_lsn };
        let (torn, action) = match scan.torn_at {
            Some(at) => (true, OpenAction::Truncate(at)),
            None => (false, OpenAction::Keep),
        };
        let outcome = OpenOutcome {
            last_durable_lsn: scan.last_lsn,
            recovered_torn_tail: torn,
        };
        Ok((log, outcome, action))
    }

    /// Highest position known durable.
    pub fn last_durable_lsn(&self) -> (lsn: LogSequenceNumber)
        ensures
            lsn == self@.last_durable_lsn,
    {
        self.last_durable_lsn
    }

    /// Decides how to append a transaction exactly once. Nothing counts as durable before
    /// `confirm`.
    pub fn append(&self, batch: &TransactionBatch) -> (result: Result<AppendStep, DurableLogError>)
        ensures
            match encoded(batch@, self@.limits) {
                Err(error) => result == Err::<AppendStep, DurableLogError>(
                    DurableLogError::Codec(error),
                ),
                Ok(payload) => if batch@.end_lsn.0 <= self@.last_durable_lsn.0 {
                    result matches Ok(AppendStep::Compare(bytes)) && bytes@ == payload
                } else if payload.len() > u32::MAX {
                    result == Err::<AppendStep, DurableLogError>(
                        DurableLogError::RecordLengthOverflow,
                    )
                } else {
                    result matches Ok(AppendStep::Write(bytes)) && bytes@ == record(
                        payload,
                        batch@.end_lsn,
                    )
                },
            },
    {
        let payload = match encode_transaction_batch(batch, self.limits) {
            Ok(payload) => payload,
            Err(error) => return Err(DurableLogError::Codec(error)),
        };
        let end_lsn = batch.end_lsn();
        if end_lsn.0 <= self.last_durable_lsn.0 {
            return Ok(AppendStep::Compare(payload));
        }
        if payload.len() > u32::MAX as usize {
            return Err(DurableLogError::RecordLengthOverflow);
        }
        let mut bytes = record_header(
            payload.len() as u32,
            checksum(payload.as_slice()),
            end_lsn,
        );
        put_bytes(&mut bytes, payload.as_slice());
        Ok(AppendStep::Write(bytes))
    }

    /// Compares a transaction that is not behind the log with what the log holds for its
    /// position.
    pub fn compare(&self, contents: &[u8], payload: &[u8], end_lsn: LogSequenceNumber) -> (result:
        Result<AppendOutcome, DurableLogError>)
        ensures
            result == compared_payload(contents@, self@.limits, payload@, end_lsn),
    {
        match find_payload_at(contents, self.limits, end_lsn)? {
            Some(existing) => {
                if same_bytes(existing.as_slice(), payload) {
                    Ok(AppendOutcome::Duplicate)
                } else {
                    Err(DurableLogError::ConflictingReplay(end_lsn))
                }
            },
            None => Err(DurableLogError::MissingHistoricalCheckpoint(end_lsn)),
        }
    }

    /// Takes note of an append, once its record is written and synchronised.
    pub fn confirm(&mut self, batch: &TransactionBatch) -> (outcome: AppendOutcome)
        ensures
            outcome == AppendOutcome::Appended,
            final(self)@ == (LogView { last_durable_lsn: batch@.end_lsn, ..old(self)@ }),
    {
        self.last_durable_lsn = batch.end_lsn();
        AppendOutcome::Appended
    }

    /// All transactions of a log with these contents strictly behind `after`.
    pub fn replay_from(contents: &[u8], limits: BatchLimits, after: LogSequenceNumber) -> (result:
        Result<Vec<TransactionBatch>, DurableLogError>)
        ensures
            match result {
                Ok(batches) => replayed(contents@, limits, after) == Ok::<
                    Seq<ModelBatchView>,
                    DurableLogError,
                >(batches_view(batches@)),
                Err(error) => replayed(contents@, limits, after) == Err::<
                    Seq<ModelBatchView>,
                    DurableLogError,
                >(error),
            },
    {
        validate_file_header(contents)?;
        let scan = scan_records(contents, limits, false, Some(after))?;
        Ok(scan.collected)
    }
}

// ---------------------------------------------------------------------------------------------
// Laws
// ---------------------------------------------------------------------------------------------

/// A new file header is valid.
pub proof fn law_new_file_header_is_valid(rest: Seq<u8>)
    ensures
        file_header().len() == FILE_HEADER_LEN,
        file_header_error(file_header() + rest) is None,
{
    broadcast use lemma_le_bytes_len;

    lemma_pow256_values();
    let contents = file_header() + rest;
    assert(FILE_MAGIC@.len() == 8);
    assert(contents.subrange(0, 8) =~= FILE_MAGIC@);
    assert(contents.subrange(8, 10) =~= le_bytes(FILE_VERSION as nat, 2));
    assert(contents.subrange(10, 12) =~= le_bytes(0, 2));
    assert(contents.subrange(0, 12) =~= file_header_body());
    assert(contents.subrange(12, 16) =~= le_bytes(crc32c_of(file_header_body()) as nat, 4));
    lemma_le_value_of_le_bytes(FILE_VERSION as nat, 2);
    lemma_le_value_of_le_bytes(0, 2);
    lemma_le_value_of_le_bytes(crc32c_of(file_header_body()) as nat, 4);
}

proof fn lemma_header_fields(
    payload_len: nat,
    payload_crc: u32,
    end_lsn: LogSequenceNumber,
    limits: BatchLimits,
)
    requires
        payload_len <= u32::MAX,
        payload_len <= limits.max_encoded_bytes,
    ensures
        record_header_bytes(payload_len, payload_crc, end_lsn).len() == RECORD_HEADER_LEN,
        header_fields(record_header_bytes(payload_len, payload_crc, end_lsn), limits) == Ok::<
            ParsedRecordHeader,
            DurableLogError,
        >(ParsedRecordHeader { payload_len: payload_len as usize, payload_crc, end_lsn }),
{
    broadcast use lemma_le_bytes_len;

    lemma_pow256_values();
    let body = record_header_body(payload_len, payload_crc, end_lsn);
    let header = record_header_bytes(payload_len, payload_crc, end_lsn);
    assert(RECORD_MAGIC@.len() == 4);
    assert(header.subrange(0, 4) =~= RECORD_MAGIC@);
    assert(header.subrange(4, 6) =~= le_bytes(RECORD_VERSION as nat, 2));
    assert(header.subrange(6, 8) =~= le_bytes(0, 2));
    assert(header.subrange(8, 12) =~= le_bytes(payload_len, 4));
    assert(header.subrange(12, 16) =~= le_bytes(payload_crc as nat, 4));
    assert(header.subrange(16, 24) =~= le_bytes(end_lsn.0 as nat, 8));
    assert(header.subrange(24, 28) =~= le_bytes(0, 4));
    assert(header.subrange(0, 28) =~= body);
    assert(header.subrange(28, 32) =~= le_bytes(crc32c_of(body) as nat, 4));
    lemma_le_value_of_le_bytes(RECORD_VERSION as nat, 2);
    lemma_le_value_of_le_bytes(0, 2);
    lemma_le_value_of_le_bytes(payload_len, 4);
    lemma_le_value_of_le_bytes(payload_crc as nat, 4);
    lemma_le_value_of_le_bytes(end_lsn.0 as nat, 8);
    lemma_le_value_of_le_bytes(0, 4);
    lemma_le_value_of_le_bytes(crc32c_of(body) as nat, 4);
}

proof fn lemma_record_at_keeps(contents: Seq<u8>, tail: Seq<u8>, offset: nat, limits: BatchLimits)
    requires
        offset <= contents.len(),
    ensures
        record_at(contents, offset, limits) matches Ok(Some((header, payload))) ==> record_at(
            contents + tail,
            offset,
            limits,
        ) == record_at(contents, offset, limits) && offset + RECORD_HEADER_LEN + header.payload_len
            <= contents.len(),
{
    reveal(record_at);
    if let Ok(Some((header, payload))) = record_at(contents, offset, limits) {
        let more = contents + tail;
        let start = offset + RECORD_HEADER_LEN;
        assert(more.subrange(offset as int, start) =~= contents.subrange(offset as int, start));
        assert(more.subrange(start, start + header.payload_len) =~= contents.subrange(
            start,
            start + header.payload_len,
        ));
    }
}

proof fn lemma_scan_continues(
    contents: Seq<u8>,
    tail: Seq<u8>,
    offset: nat,
    previous: LogSequenceNumber,
    limits: BatchLimits,
    repair: bool,
    after: Option<LogSequenceNumber>,
)
    requires
        offset <= contents.len(),
    ensures
        scanned(contents, offset, previous, limits, false, after) matches Ok(scan) ==> {
            &&& scan.torn_at is None
            &&& previous.0 <= scan.last_lsn.0
            &&& scanned(contents + tail, offset, previous, limits, repair, after) == further(
                scan.collected,
                scanned(contents + tail, contents.len(), scan.last_lsn, limits, repair, after),
            )
        },
    decreases contents.len() - offset,
{
    if let Ok(scan) = scanned(contents, offset, previous, limits, false, after) {
        if offset == contents.len() {
            assert(offset >= contents.len());
            lemma_further_nothing(
                scanned(contents + tail, contents.len(), previous, limits, repair, after),
            );
        } else {
            lemma_record_at_keeps(contents, tail, offset, limits);
            let (header, payload) = record_at(contents, offset, limits)->Ok_0->Some_0;
            let next = offset + RECORD_HEADER_LEN as nat + header.payload_len as nat;
            lemma_scan_continues(contents, tail, next, header.end_lsn, limits, repair, after);
            let batch = checked_record(header, payload, previous, limits)->Ok_0;
            let here = if collects(after, header.end_lsn) {
                seq![batch]
            } else {
                seq![]
            };
            let rest = scanned(contents, next, header.end_lsn, limits, false, after)->Ok_0;
            let last = scanned(
                contents + tail,
                contents.len(),
                scan.last_lsn,
                limits,
                repair,
                after,
            );
            assert(scan.last_lsn == rest.last_lsn);
            if let Ok(found) = last {
                assert(here + (rest.collected + found.collected) =~= (here + rest.collected)
                    + found.collected);
            }
        }
    }
}

/// Whether a transaction can be appended to a log and read back under these bounds. Reading holds
/// the whole payload against the bound, appending all of it but the number of its items.
pub open spec fn replayable(batch: ModelBatchView, limits: BatchLimits) -> bool {
    &&& batch.error(limits) is None
    &&& forall|i: int| 0 <= i < batch.items.len() ==> (#[trigger] batch.items[i]).bounded(limits)
    &&& encoded(batch, limits) matches Ok(payload)
    &&& payload.len() <= u32::MAX
    &&& payload.len() <= limits.max_encoded_bytes
}

proof fn lemma_appended_record(
    contents: Seq<u8>,
    batch: ModelBatchView,
    previous: LogSequenceNumber,
    limits: BatchLimits,
)
    requires
        replayable(batch, limits),
        previous.0 < batch.end_lsn.0,
    ensures
        ({
            let payload = encoded(batch, limits)->Ok_0;
            let header = ParsedRecordHeader {
                payload_len: payload.len() as usize,
                payload_crc: crc32c_of(payload),
                end_lsn: batch.end_lsn,
            };
            &&& record(payload, batch.end_lsn).len() == RECORD_HEADER_LEN + payload.len()
            &&& payload.len() <= usize::MAX
            &&& record_at(
                contents + record(payload, batch.end_lsn),
                contents.len(),
                limits,
            ) == Ok::<Option<(ParsedRecordHeader, Seq<u8>)>, DurableLogError>(
                Some((header, payload)),
            )
            &&& checked_record(header, payload, previous, limits) == Ok::<
                ModelBatchView,
                DurableLogError,
            >(batch)
        }),
{
    reveal(record_at);
    let payload = encoded(batch, limits)->Ok_0;
    super::codec::law_encoded_length_is_exact(batch);
    law_transaction_round_trip(batch, limits);
    lemma_header_fields(payload.len(), crc32c_of(payload), batch.end_lsn, limits);
    let header = record_header_bytes(payload.len(), crc32c_of(payload), batch.end_lsn);
    let whole = contents + record(payload, batch.end_lsn);
    let at = contents.len() as int;
    assert(whole.subrange(at, at + RECORD_HEADER_LEN) =~= header);
    assert(whole.subrange(
        at + RECORD_HEADER_LEN,
        at + RECORD_HEADER_LEN + payload.len(),
    ) =~= payload);
}

proof fn lemma_appended_scan(
    contents: Seq<u8>,
    batch: ModelBatchView,
    previous: LogSequenceNumber,
    limits: BatchLimits,
    repair: bool,
    after: Option<LogSequenceNumber>,
)
    requires
        replayable(batch, limits),
        previous.0 < batch.end_lsn.0,
    ensures
        scanned(
            contents + record(encoded(batch, limits)->Ok_0, batch.end_lsn),
            contents.len(),
            previous,
            limits,
            repair,
            after,
        ) == Ok::<ScanView, DurableLogError>(
            ScanView {
                last_lsn: batch.end_lsn,
                torn_at: None,
                collected: if collects(after, batch.end_lsn) {
                    seq![batch]
                } else {
                    seq![]
                },
            },
        ),
{
    lemma_appended_record(contents, batch, previous, limits);
    let payload = encoded(batch, limits)->Ok_0;
    let whole = contents + record(payload, batch.end_lsn);
    let ending = scanned(whole, whole.len(), batch.end_lsn, limits, repair, after);
    assert(ending == Ok::<ScanView, DurableLogError>(
        ScanView { last_lsn: batch.end_lsn, torn_at: None, collected: seq![] },
    ));
    let here: Seq<ModelBatchView> = if collects(after, batch.end_lsn) {
        seq![batch]
    } else {
        seq![]
    };
    assert(here + Seq::<ModelBatchView>::empty() =~= here);
    let next = contents.len() + RECORD_HEADER_LEN as nat + payload.len() as usize as nat;
    assert(next == whole.len());
}

/// Replay returns what was appended: a log that was whole stays whole under the record of a newer
/// transaction, which becomes the last one and is collected behind those before it.
pub proof fn law_replay_returns_appended_transactions(
    contents: Seq<u8>,
    batch: ModelBatchView,
    limits: BatchLimits,
    repair: bool,
    after: Option<LogSequenceNumber>,
)
    requires
        FILE_HEADER_LEN <= contents.len(),
        replayable(batch, limits),
    ensures
        scanned(
            contents,
            FILE_HEADER_LEN as nat,
            LogSequenceNumber(0),
            limits,
            false,
            after,
        ) matches Ok(scan) ==> scan.last_lsn.0 < batch.end_lsn.0 ==> scanned(
            contents + record(encoded(batch, limits)->Ok_0, batch.end_lsn),
            FILE_HEADER_LEN as nat,
            LogSequenceNumber(0),
            limits,
            repair,
            after,
        ) == Ok::<ScanView, DurableLogError>(
            ScanView {
                last_lsn: batch.end_lsn,
                torn_at: None,
                collected: scan.collected + if collects(after, batch.end_lsn) {
                    seq![batch]
                } else {
                    seq![]
                },
            },
        ),
{
    let start = FILE_HEADER_LEN as nat;
    let zero = LogSequenceNumber(0);
    if let Ok(scan) = scanned(contents, start, zero, limits, false, after) {
        if scan.last_lsn.0 < batch.end_lsn.0 {
            let tail = record(encoded(batch, limits)->Ok_0, batch.end_lsn);
            lemma_scan_continues(contents, tail, start, zero, limits, repair, after);
            lemma_appended_scan(contents, batch, scan.last_lsn, limits, repair, after);
        }
    }
}

/// An append that was cut off anywhere is cut off by opening, at the end of what was whole before;
/// replay refuses it.
pub proof fn law_torn_append_is_cut_off(
    contents: Seq<u8>,
    batch: ModelBatchView,
    limits: BatchLimits,
    len: nat,
    after: Option<LogSequenceNumber>,
)
    requires
        FILE_HEADER_LEN <= contents.len(),
        replayable(batch, limits),
        0 < len < record(encoded(batch, limits)->Ok_0, batch.end_lsn).len(),
    ensures
        ({
            let torn = contents + record(encoded(batch, limits)->Ok_0, batch.end_lsn).take(
                len as int,
            );
            scanned(
                contents,
                FILE_HEADER_LEN as nat,
                LogSequenceNumber(0),
                limits,
                false,
                after,
            ) matches Ok(scan) ==> {
                &&& scanned(
                    torn,
                    FILE_HEADER_LEN as nat,
                    LogSequenceNumber(0),
                    limits,
                    true,
                    after,
                ) == Ok::<ScanView, DurableLogError>(
                    ScanView { torn_at: Some(contents.len()), ..scan },
                )
                &&& scanned(
                    torn,
                    FILE_HEADER_LEN as nat,
                    LogSequenceNumber(0),
                    limits,
                    false,
                    after,
                ) == Err::<ScanView, DurableLogError>(DurableLogError::TornTail)
            }
        }),
{
    reveal(record_at);
    let start = FILE_HEADER_LEN as nat;
    let zero = LogSequenceNumber(0);
    let payload = encoded(batch, limits)->Ok_0;
    super::codec::law_encoded_length_is_exact(batch);
    lemma_header_fields(payload.len(), crc32c_of(payload), batch.end_lsn, limits);
    let header = record_header_bytes(payload.len(), crc32c_of(payload), batch.end_lsn);
    let tail = record(payload, batch.end_lsn).take(len as int);
    let torn = contents + tail;
    if let Ok(scan) = scanned(contents, start, zero, limits, false, after) {
        lemma_scan_continues(contents, tail, start, zero, limits, true, after);
        lemma_scan_continues(contents, tail, start, zero, limits, false, after);
        let at = contents.len() as int;
        if len >= RECORD_HEADER_LEN {
            assert(torn.subrange(at, at + RECORD_HEADER_LEN) =~= header);
        }
        assert(record_at(torn, contents.len(), limits) == Ok::<
            Option<(ParsedRecordHeader, Seq<u8>)>,
            DurableLogError,
        >(None));
        assert(scan.collected + Seq::<ModelBatchView>::empty() =~= scan.collected);
    }
}

/// The positions of the records strictly ascend, so the last one is the highest.
pub proof fn law_record_positions_ascend(
    contents: Seq<u8>,
    offset: nat,
    previous: LogSequenceNumber,
    limits: BatchLimits,
    repair: bool,
    after: Option<LogSequenceNumber>,
)
    ensures
        scanned(contents, offset, previous, limits, repair, after) matches Ok(scan) ==> {
            &&& previous.0 <= scan.last_lsn.0
            &&& forall|i: int|
                0 <= i < scan.collected.len() ==> previous.0 < (
                #[trigger] scan.collected[i]).end_lsn.0 <= scan.last_lsn.0
            &&& forall|i: int, j: int|
                0 <= i < j < scan.collected.len() ==> (#[trigger] scan.collected[i]).end_lsn.0 < (
                #[trigger] scan.collected[j]).end_lsn.0
            &&& forall|i: int|
                0 <= i < scan.collected.len() ==> collects(
                    after,
                    (#[trigger] scan.collected[i]).end_lsn,
                )
        },
    decreases bytes_left(contents, offset),
{
    if offset < contents.len() {
        if let Ok(Some((header, payload))) = record_at(contents, offset, limits) {
            let next = offset + RECORD_HEADER_LEN as nat + header.payload_len as nat;
            law_record_positions_ascend(contents, next, header.end_lsn, limits, repair, after);
            if let Ok(batch) = checked_record(header, payload, previous, limits) {
                if let Ok(rest) = scanned(contents, next, header.end_lsn, limits, repair, after) {
                    let scan = scanned(contents, offset, previous, limits, repair, after)->Ok_0;
                    if collects(after, header.end_lsn) {
                        assert(scan.collected =~= seq![batch] + rest.collected);
                    } else {
                        assert(scan.collected =~= rest.collected);
                    }
                }
            }
        }
    }
}

proof fn lemma_found_continues(
    contents: Seq<u8>,
    tail: Seq<u8>,
    offset: nat,
    previous: LogSequenceNumber,
    limits: BatchLimits,
    after: Option<LogSequenceNumber>,
    target: LogSequenceNumber,
)
    requires
        offset <= contents.len(),
    ensures
        scanned(contents, offset, previous, limits, false, after) matches Ok(scan)
            && scan.last_lsn.0 < target.0 ==> found_payload(
            contents + tail,
            offset,
            limits,
            target,
        ) == found_payload(contents + tail, contents.len(), limits, target),
    decreases contents.len() - offset,
{
    if let Ok(scan) = scanned(contents, offset, previous, limits, false, after) {
        if offset < contents.len() && scan.last_lsn.0 < target.0 {
            lemma_record_at_keeps(contents, tail, offset, limits);
            let (header, payload) = record_at(contents, offset, limits)->Ok_0->Some_0;
            let next = offset + RECORD_HEADER_LEN as nat + header.payload_len as nat;
            lemma_scan_continues(contents, tail, next, header.end_lsn, limits, false, after);
            lemma_found_continues(contents, tail, next, header.end_lsn, limits, after, target);
        }
    }
}

/// A transaction that was appended is found again by its position with exactly its payload, so
/// that delivering it once more is a duplicate and another transaction at its position is a
/// conflict.
pub proof fn law_appended_transaction_is_found_again(
    contents: Seq<u8>,
    batch: ModelBatchView,
    limits: BatchLimits,
)
    requires
        FILE_HEADER_LEN <= contents.len(),
        replayable(batch, limits),
    ensures
        scanned(
            contents,
            FILE_HEADER_LEN as nat,
            LogSequenceNumber(0),
            limits,
            false,
            None,
        ) matches Ok(scan) && scan.last_lsn.0 < batch.end_lsn.0 ==> found_payload(
            contents + record(encoded(batch, limits)->Ok_0, batch.end_lsn),
            FILE_HEADER_LEN as nat,
            limits,
            batch.end_lsn,
        ) == Ok::<Option<Seq<u8>>, DurableLogError>(Some(encoded(batch, limits)->Ok_0)),
{
    let start = FILE_HEADER_LEN as nat;
    let zero = LogSequenceNumber(0);
    if let Ok(scan) = scanned(contents, start, zero, limits, false, None) {
        if scan.last_lsn.0 < batch.end_lsn.0 {
            let tail = record(encoded(batch, limits)->Ok_0, batch.end_lsn);
            lemma_found_continues(contents, tail, start, zero, limits, None, batch.end_lsn);
            lemma_appended_record(contents, batch, scan.last_lsn, limits);
        }
    }
}

// ---------------------------------------------------------------------------------------------
// Diagnostics
// ---------------------------------------------------------------------------------------------

fn two_positions(
    start: &str,
    first: LogSequenceNumber,
    middle: &str,
    second: LogSequenceNumber,
) -> (text: String)
    ensures
        text@ == start@ + decimal(first.0 as int) + middle@ + decimal(second.0 as int),
{
    let mut text = joined3(start, decimal_text(first.0).as_str(), middle);
    text.append(decimal_text(second.0).as_str());
    text
}

impl DurableLogError {
    /// The diagnostic text of this error.
    pub open spec fn spec_message(self) -> Seq<char> {
        match self {
            DurableLogError::Io(detail) => {
                "CDC log I/O error: "@ + detail@
            },
            DurableLogError::Codec(error) => {
                "CDC log transaction decode error: "@ + error.spec_message()
            },
            DurableLogError::TornFileHeader => "CDC log has a torn file header"@,
            DurableLogError::InvalidFileMagic => "CDC log file magic mismatch"@,
            DurableLogError::UnsupportedFileVersion(version) => {
                "unsupported CDC log file version "@ + decimal(version as int)
            },
            DurableLogError::NonZeroFileReserved => {
                "CDC log file header reserved field is non-zero"@
            },
            DurableLogError::FileHeaderChecksumMismatch => "CDC log file header checksum mismatch"@,
            DurableLogError::TornTail => "CDC log has an incomplete final record"@,
            DurableLogError::InvalidRecordMagic => "CDC record magic mismatch"@,
            DurableLogError::UnsupportedRecordVersion(version) => {
                "unsupported CDC record version "@ + decimal(version as int)
            },
            DurableLogError::NonZeroRecordReserved => "CDC record reserved field is non-zero"@,
            DurableLogError::RecordHeaderChecksumMismatch => "CDC record header checksum mismatch"@,
            DurableLogError::RecordTooLarge { actual, maximum } => {
                sizes("CDC record is "@, actual, " bytes; maximum is "@, maximum)
            },
            DurableLogError::RecordLengthOverflow => "CDC record length overflow"@,
            DurableLogError::PayloadChecksumMismatch { end_lsn } => {
                "CDC record payload checksum mismatch at LSN "@ + decimal(end_lsn.0 as int)
            },
            DurableLogError::RecordLsnMismatch { header, payload } => {
                "CDC record LSN "@ + decimal(header.0 as int)
                    + " differs from payload LSN "@ + decimal(payload.0 as int)
            },
            DurableLogError::NonMonotonicRecord { previous, current } => {
                "CDC record LSN "@ + decimal(current.0 as int)
                    + " is not greater than previous "@ + decimal(previous.0 as int)
            },
            DurableLogError::ConflictingReplay(lsn) => {
                "different transaction replayed for durable LSN "@ + decimal(lsn.0 as int)
            },
            DurableLogError::MissingHistoricalCheckpoint(lsn) => {
                "replayed LSN "@ + decimal(lsn.0 as int)
                    + " is older than durable tail but absent from log"@
            },
        }
    }

    /// The diagnostic text of this error.
    pub fn message(&self) -> (text: String)
        ensures
            text@ == self.spec_message(),
    {
        match self {
            DurableLogError::Io(detail) => {
                joined("CDC log I/O error: ", detail.as_str())
            },
            DurableLogError::Codec(error) => {
                joined("CDC log transaction decode error: ", error.message().as_str())
            },
            DurableLogError::TornFileHeader => "CDC log has a torn file header".to_owned(),
            DurableLogError::InvalidFileMagic => "CDC log file magic mismatch".to_owned(),
            DurableLogError::UnsupportedFileVersion(version) => {
                joined("unsupported CDC log file version ", decimal_text(*version as u64).as_str())
            },
            DurableLogError::NonZeroFileReserved => {
                "CDC log file header reserved field is non-zero".to_owned()
            },
            DurableLogError::FileHeaderChecksumMismatch => {
                "CDC log file header checksum mismatch".to_owned()
            },
            DurableLogError::TornTail => "CDC log has an incomplete final record".to_owned(),
            DurableLogError::InvalidRecordMagic => "CDC record magic mismatch".to_owned(),
            DurableLogError::UnsupportedRecordVersion(version) => {
                joined("unsupported CDC record version ", decimal_text(*version as u64).as_str())
            },
            DurableLogError::NonZeroRecordReserved => {
                "CDC record reserved field is non-zero".to_owned()
            },
            DurableLogError::RecordHeaderChecksumMismatch => {
                "CDC record header checksum mismatch".to_owned()
            },
            DurableLogError::RecordTooLarge { actual, maximum } => {
                sizes_text("CDC record is ", *actual, " bytes; maximum is ", *maximum)
            },
            DurableLogError::RecordLengthOverflow => "CDC record length overflow".to_owned(),
            DurableLogError::PayloadChecksumMismatch { end_lsn } => {
                joined(
                    "CDC record payload checksum mismatch at LSN ",
                    decimal_text(end_lsn.0).as_str(),
                )
            },
            DurableLogError::RecordLsnMismatch { header, payload } => {
                two_positions("CDC record LSN ", *header, " differs from payload LSN ", *payload)
            },
            DurableLogError::NonMonotonicRecord { previous, current } => {
                two_positions(
                    "CDC record LSN ",
                    *current,
                    " is not greater than previous ",
                    *previous,
                )
            },
            DurableLogError::ConflictingReplay(lsn) => {
                joined(
                    "different transaction replayed for durable LSN ",
                    decimal_text(lsn.0).as_str(),
                )
            },
            DurableLogError::MissingHistoricalCheckpoint(lsn) => {
                joined3(
                    "replayed LSN ",
                    decimal_text(lsn.0).as_str(),
                    " is older than durable tail but absent from log",
                )
            },
        }
    }
}

// ---------------------------------------------------------------------------------------------
// Laws of a whole log
// ---------------------------------------------------------------------------------------------

/// The records of transactions that were appended one after the other.
pub open spec fn records(batches: Seq<ModelBatchView>, limits: BatchLimits) -> Seq<u8>
    decreases batches.len(),
{
    if batches.len() == 0 {
        Seq::empty()
    } else {
        records(batches.drop_last(), limits) + record(
            encoded(batches.last(), limits)->Ok_0,
            batches.last().end_lsn,
        )
    }
}

/// The file of a log to which these transactions were appended.
pub open spec fn log_file(batches: Seq<ModelBatchView>, limits: BatchLimits) -> Seq<u8> {
    file_header() + records(batches, limits)
}

/// Whether transactions can be appended one after the other and read back.
pub open spec fn appendable(batches: Seq<ModelBatchView>, limits: BatchLimits) -> bool {
    &&& forall|i: int|
        0 <= i < batches.len() ==> replayable(#[trigger] batches[i], limits) && 0
            < batches[i].end_lsn.0
    &&& forall|i: int, j: int|
        0 <= i < j < batches.len() ==> (#[trigger] batches[i]).end_lsn.0 < (
        #[trigger] batches[j]).end_lsn.0
}

/// The position of the last transaction.
pub open spec fn last_position(batches: Seq<ModelBatchView>) -> LogSequenceNumber {
    if batches.len() == 0 {
        LogSequenceNumber(0)
    } else {
        batches.last().end_lsn
    }
}

/// Those transactions that a scan collects.
pub open spec fn wanted(
    batches: Seq<ModelBatchView>,
    after: Option<LogSequenceNumber>,
) -> Seq<ModelBatchView>
    decreases batches.len(),
{
    if batches.len() == 0 {
        seq![]
    } else {
        wanted(batches.drop_last(), after) + if collects(after, batches.last().end_lsn) {
            seq![batches.last()]
        } else {
            seq![]
        }
    }
}

proof fn lemma_earlier_are_appendable(batches: Seq<ModelBatchView>, limits: BatchLimits)
    requires
        appendable(batches, limits),
        batches.len() > 0,
    ensures
        appendable(batches.drop_last(), limits),
        replayable(batches.last(), limits),
        last_position(batches.drop_last()).0 < batches.last().end_lsn.0,
        log_file(batches, limits) == log_file(batches.drop_last(), limits) + record(
            encoded(batches.last(), limits)->Ok_0,
            batches.last().end_lsn,
        ),
{
    let earlier = batches.drop_last();
    let last = batches.len() - 1;
    assert(batches[last] == batches.last());
    assert forall|i: int| 0 <= i < earlier.len() implies replayable(#[trigger] earlier[i], limits)
        && 0 < earlier[i].end_lsn.0 by {
        assert(earlier[i] == batches[i]);
    }
    assert forall|i: int, j: int| 0 <= i < j < earlier.len() implies (
    #[trigger] earlier[i]).end_lsn.0 < (#[trigger] earlier[j]).end_lsn.0 by {
        assert(earlier[i] == batches[i] && earlier[j] == batches[j]);
    }
    if earlier.len() > 0 {
        assert(earlier.last() == batches[last - 1]);
    }
    assert(log_file(batches, limits) =~= log_file(earlier, limits) + record(
        encoded(batches.last(), limits)->Ok_0,
        batches.last().end_lsn,
    ));
}

proof fn lemma_log_scan(
    batches: Seq<ModelBatchView>,
    limits: BatchLimits,
    repair: bool,
    after: Option<LogSequenceNumber>,
)
    requires
        appendable(batches, limits),
    ensures
        FILE_HEADER_LEN <= log_file(batches, limits).len(),
        scanned(
            log_file(batches, limits),
            FILE_HEADER_LEN as nat,
            LogSequenceNumber(0),
            limits,
            repair,
            after,
        ) == Ok::<ScanView, DurableLogError>(
            ScanView {
                last_lsn: last_position(batches),
                torn_at: None,
                collected: wanted(batches, after),
            },
        ),
    decreases batches.len(),
{
    law_new_file_header_is_valid(records(batches, limits));
    if batches.len() == 0 {
        assert(log_file(batches, limits) =~= file_header());
    } else {
        let earlier = batches.drop_last();
        lemma_earlier_are_appendable(batches, limits);
        lemma_log_scan(earlier, limits, false, after);
        law_replay_returns_appended_transactions(
            log_file(earlier, limits),
            batches.last(),
            limits,
            repair,
            after,
        );
    }
}

proof fn lemma_wanted_is_a_selection(batches: Seq<ModelBatchView>, after: LogSequenceNumber)
    requires
        forall|i: int| 0 <= i < batches.len() ==> 0 < (#[trigger] batches[i]).end_lsn.0,
    ensures
        wanted(batches, None) == Seq::<ModelBatchView>::empty(),
        forall|i: int|
            0 <= i < batches.len() && after.0 < (#[trigger] batches[i]).end_lsn.0 ==> wanted(
                batches,
                Some(after),
            ).contains(batches[i]),
        forall|i: int|
            0 <= i < wanted(batches, Some(after)).len() ==> batches.contains(
                #[trigger] wanted(batches, Some(after))[i],
            ),
        after.0 == 0 ==> wanted(batches, Some(after)) == batches,
    decreases batches.len(),
{
    let found = wanted(batches, Some(after));
    if batches.len() > 0 {
        let earlier = batches.drop_last();
        let last = batches.len() - 1;
        let before = wanted(earlier, Some(after));
        assert forall|i: int| 0 <= i < earlier.len() implies 0 < (
        #[trigger] earlier[i]).end_lsn.0 by {
            assert(earlier[i] == batches[i]);
        }
        lemma_wanted_is_a_selection(earlier, after);
        assert(batches[last] == batches.last());
        assert(wanted(batches, None) =~= Seq::<ModelBatchView>::empty());
        assert forall|i: int|
            0 <= i < batches.len() && after.0 < (
            #[trigger] batches[i]).end_lsn.0 implies found.contains(batches[i]) by {
            if i < last {
                assert(earlier[i] == batches[i]);
                let k = choose|k: int| 0 <= k < before.len() && before[k] == earlier[i];
                assert(found[k] == batches[i]);
            } else {
                assert(found[found.len() - 1] == batches[i]);
            }
        }
        assert forall|i: int| 0 <= i < found.len() implies batches.contains(
            #[trigger] found[i],
        ) by {
            if i < before.len() {
                assert(found[i] == before[i]);
                let k = choose|k: int| 0 <= k < earlier.len() && earlier[k] == before[i];
                assert(batches[k] == found[i]);
            } else {
                assert(batches[last] == found[i]);
            }
        }
        if after.0 == 0 {
            assert(found =~= batches);
        }
    } else {
        assert(found =~= batches);
    }
}

/// A log gives back every transaction that was appended to it, in order, and on request exactly
/// those behind a position. Opening it finds the last position and nothing to repair.
pub proof fn law_log_replays_everything_in_order(
    batches: Seq<ModelBatchView>,
    after: LogSequenceNumber,
    limits: BatchLimits,
)
    requires
        appendable(batches, limits),
    ensures
        replayed(log_file(batches, limits), limits, LogSequenceNumber(0)) == Ok::<
            Seq<ModelBatchView>,
            DurableLogError,
        >(batches),
        replayed(log_file(batches, limits), limits, after) matches Ok(found) && {
            &&& forall|i: int|
                0 <= i < batches.len() && after.0 < (
                #[trigger] batches[i]).end_lsn.0 ==> found.contains(batches[i])
            &&& forall|i: int|
                0 <= i < found.len() ==> batches.contains(#[trigger] found[i]) && after.0
                    < found[i].end_lsn.0
            &&& forall|i: int, j: int|
                0 <= i < j < found.len() ==> (#[trigger] found[i]).end_lsn.0 < (
                #[trigger] found[j]).end_lsn.0
        },
        opened(log_file(batches, limits), limits) == Ok::<ScanView, DurableLogError>(
            ScanView {
                last_lsn: if batches.len() == 0 {
                    LogSequenceNumber(0)
                } else {
                    batches.last().end_lsn
                },
                torn_at: None,
                collected: seq![],
            },
        ),
{
    let zero = LogSequenceNumber(0);
    law_new_file_header_is_valid(records(batches, limits));
    lemma_log_scan(batches, limits, false, Some(zero));
    lemma_log_scan(batches, limits, false, Some(after));
    lemma_log_scan(batches, limits, true, None);
    lemma_wanted_is_a_selection(batches, zero);
    lemma_wanted_is_a_selection(batches, after);
    law_record_positions_ascend(
        log_file(batches, limits),
        FILE_HEADER_LEN as nat,
        zero,
        limits,
        false,
        Some(after),
    );
}

proof fn lemma_found_keeps(
    contents: Seq<u8>,
    tail: Seq<u8>,
    offset: nat,
    previous: LogSequenceNumber,
    limits: BatchLimits,
    target: LogSequenceNumber,
)
    requires
        offset <= contents.len(),
        previous.0 < target.0 || offset < contents.len(),
        scanned(contents, offset, previous, limits, false, None) matches Ok(scan) && target.0
            <= scan.last_lsn.0,
    ensures
        found_payload(contents + tail, offset, limits, target) == found_payload(
            contents,
            offset,
            limits,
            target,
        ),
    decreases contents.len() - offset,
{
    if offset < contents.len() {
        lemma_record_at_keeps(contents, tail, offset, limits);
        let (header, payload) = record_at(contents, offset, limits)->Ok_0->Some_0;
        let next = offset + RECORD_HEADER_LEN as nat + header.payload_len as nat;
        if header.end_lsn.0 < target.0 {
            lemma_found_keeps(contents, tail, next, header.end_lsn, limits, target);
        }
    }
}

/// What a log holds for a position.
#[verifier::opaque]
spec fn held(contents: Seq<u8>, limits: BatchLimits, target: LogSequenceNumber) -> Result<
    Option<Seq<u8>>,
    DurableLogError,
> {
    found_payload(contents, FILE_HEADER_LEN as nat, limits, target)
}

proof fn lemma_one_record_more_is_held(
    contents: Seq<u8>,
    last: LogSequenceNumber,
    batch: ModelBatchView,
    limits: BatchLimits,
    target: LogSequenceNumber,
)
    requires
        FILE_HEADER_LEN <= contents.len(),
        scanned(
            contents,
            FILE_HEADER_LEN as nat,
            LogSequenceNumber(0),
            limits,
            false,
            None,
        ) matches Ok(scan) && scan.last_lsn == last,
        replayable(batch, limits),
        last.0 < batch.end_lsn.0,
    ensures
        ({
            let whole = contents + record(encoded(batch, limits)->Ok_0, batch.end_lsn);
            &&& batch.end_lsn == target ==> held(whole, limits, target) == Ok::<
                Option<Seq<u8>>,
                DurableLogError,
            >(Some(encoded(batch, limits)->Ok_0))
            &&& batch.end_lsn != target && last.0 < target.0 ==> held(whole, limits, target)
                == Ok::<Option<Seq<u8>>, DurableLogError>(None)
            &&& target.0 <= last.0 && FILE_HEADER_LEN < contents.len() ==> held(
                whole,
                limits,
                target,
            ) == held(contents, limits, target)
            &&& target.0 <= last.0 && FILE_HEADER_LEN == contents.len() ==> held(
                whole,
                limits,
                target,
            ) == Ok::<Option<Seq<u8>>, DurableLogError>(None)
        }),
{
    reveal(held);
    let start = FILE_HEADER_LEN as nat;
    let zero = LogSequenceNumber(0);
    let payload = encoded(batch, limits)->Ok_0;
    let tail = record(payload, batch.end_lsn);
    let whole = contents + tail;
    lemma_appended_record(contents, batch, last, limits);
    if target.0 <= last.0 {
        if start < contents.len() {
            lemma_found_keeps(contents, tail, start, zero, limits, target);
        }
    } else {
        lemma_found_continues(contents, tail, start, zero, limits, None, target);
        let end = contents.len() + RECORD_HEADER_LEN as nat + payload.len() as usize as nat;
        assert(end == whole.len());
        assert(found_payload(whole, end, limits, target) == Ok::<
            Option<Seq<u8>>,
            DurableLogError,
        >(None));
    }
}

/// Whether a log with these contents answers for a position as it should.
#[verifier::opaque]
spec fn answers(
    contents: Seq<u8>,
    batches: Seq<ModelBatchView>,
    limits: BatchLimits,
    target: LogSequenceNumber,
) -> bool {
    &&& forall|i: int|
        0 <= i < batches.len() && (#[trigger] batches[i]).end_lsn == target ==> held(
            contents,
            limits,
            target,
        ) == Ok::<Option<Seq<u8>>, DurableLogError>(Some(encoded(batches[i], limits)->Ok_0))
    &&& (forall|i: int| 0 <= i < batches.len() ==> (#[trigger] batches[i]).end_lsn != target)
        ==> held(contents, limits, target) == Ok::<Option<Seq<u8>>, DurableLogError>(None)
}

proof fn lemma_one_answer_more(
    contents: Seq<u8>,
    whole: Seq<u8>,
    batches: Seq<ModelBatchView>,
    limits: BatchLimits,
    target: LogSequenceNumber,
)
    requires
        batches.len() > 0,
        forall|i: int, j: int|
            0 <= i < j < batches.len() ==> (#[trigger] batches[i]).end_lsn.0 < (
            #[trigger] batches[j]).end_lsn.0,
        answers(contents, batches.drop_last(), limits, target),
        batches.last().end_lsn == target ==> held(whole, limits, target) == Ok::<
            Option<Seq<u8>>,
            DurableLogError,
        >(Some(encoded(batches.last(), limits)->Ok_0)),
        batches.last().end_lsn != target && (batches.len() == 1 || last_position(
            batches.drop_last(),
        ).0 < target.0) ==> held(whole, limits, target) == Ok::<Option<Seq<u8>>, DurableLogError>(
            None,
        ),
        batches.len() > 1 && target.0 <= last_position(batches.drop_last()).0 ==> held(
            whole,
            limits,
            target,
        ) == held(contents, limits, target),
    ensures
        answers(whole, batches, limits, target),
{
    reveal(answers);
    let earlier = batches.drop_last();
    let last = batches.len() - 1;
    assert(batches[last] == batches.last());
    assert(forall|i: int| 0 <= i < last ==> #[trigger] earlier[i] == batches[i]);
    assert forall|i: int| 0 <= i < batches.len() && (
    #[trigger] batches[i]).end_lsn == target implies held(whole, limits, target) == Ok::<
        Option<Seq<u8>>,
        DurableLogError,
    >(Some(encoded(batches[i], limits)->Ok_0)) by {
        if i < last {
            assert(earlier[i].end_lsn == target);
            assert(earlier.last() == batches[last - 1]);
            assert(i < last - 1 ==> batches[i].end_lsn.0 < batches[last - 1].end_lsn.0);
        }
    }
    if forall|i: int| 0 <= i < batches.len() ==> (#[trigger] batches[i]).end_lsn != target {
        assert forall|i: int| 0 <= i < earlier.len() implies (
        #[trigger] earlier[i]).end_lsn != target by {
            assert(batches[i].end_lsn != target);
        }
        assert(batches[last].end_lsn != target);
    }
}

proof fn lemma_log_answers(
    batches: Seq<ModelBatchView>,
    limits: BatchLimits,
    target: LogSequenceNumber,
)
    requires
        appendable(batches, limits),
    ensures
        answers(log_file(batches, limits), batches, limits, target),
    decreases batches.len(),
{
    law_new_file_header_is_valid(Seq::empty());
    if batches.len() == 0 {
        reveal(answers);
        reveal(held);
        assert(log_file(batches, limits) =~= file_header());
    } else {
        let earlier = batches.drop_last();
        let contents = log_file(earlier, limits);
        lemma_earlier_are_appendable(batches, limits);
        lemma_log_scan(earlier, limits, false, None);
        lemma_log_answers(earlier, limits, target);
        lemma_one_record_more_is_held(
            contents,
            last_position(earlier),
            batches.last(),
            limits,
            target,
        );
        if earlier.len() == 0 {
            assert(contents =~= file_header());
        } else if contents.len() == FILE_HEADER_LEN {
            assert(earlier[earlier.len() - 1] == earlier.last());
        }
        lemma_one_answer_more(contents, log_file(batches, limits), batches, limits, target);
    }
}

/// A transaction that a log holds is a duplicate when it comes again, another one at its position
/// is a conflict, and a position at which the log holds nothing is reported as missing.
pub proof fn law_log_knows_every_transaction(
    batches: Seq<ModelBatchView>,
    payload: Seq<u8>,
    position: LogSequenceNumber,
    limits: BatchLimits,
)
    requires
        appendable(batches, limits),
    ensures
        forall|i: int|
            0 <= i < batches.len() && (#[trigger] batches[i]).end_lsn == position
                ==> compared_payload(log_file(batches, limits), limits, payload, position)
                == if encoded(batches[i], limits) == Ok::<Seq<u8>, BatchCodecError>(payload) {
                Ok::<AppendOutcome, DurableLogError>(AppendOutcome::Duplicate)
            } else {
                Err(DurableLogError::ConflictingReplay(position))
            },
        (forall|i: int| 0 <= i < batches.len() ==> (#[trigger] batches[i]).end_lsn != position)
            ==> compared_payload(log_file(batches, limits), limits, payload, position) == Err::<
            AppendOutcome,
            DurableLogError,
        >(DurableLogError::MissingHistoricalCheckpoint(position)),
{
    law_new_file_header_is_valid(records(batches, limits));
    lemma_log_answers(batches, limits, position);
    reveal(answers);
    reveal(held);
    assert forall|i: int| 0 <= i < batches.len() implies encoded(
        #[trigger] batches[i],
        limits,
    ) is Ok by {
        assert(replayable(batches[i], limits));
    }
}

/// A file is read exactly if it begins with the one file header: the magic, the version, a
/// reserved field and the checksum of these.
pub proof fn law_file_header_is_read_exactly(contents: Seq<u8>)
    ensures
        file_header_error(contents) is None <==> contents.len() >= 16 && contents.take(16)
            == file_header(),
        file_header().subrange(0, 8) == seq![0x56u8, 0x59, 0x52, 0x43, 0x44, 0x43, 0x30, 0x31],
        field(file_header(), 8, 10) == 1,
        field(file_header(), 10, 12) == 0,
        field(file_header(), 12, 16) == crc32c_of(file_header().take(12)),
        contents.len() < 16 ==> file_header_error(contents) == Some(
            DurableLogError::TornFileHeader,
        ),
{
    broadcast use lemma_le_bytes_len;

    lemma_pow256_values();
    let header = file_header();
    assert(FILE_MAGIC@ =~= seq![0x56u8, 0x59, 0x52, 0x43, 0x44, 0x43, 0x30, 0x31]);
    law_new_file_header_is_valid(Seq::empty());
    assert(header + Seq::<u8>::empty() =~= header);
    assert(header.take(12) =~= header.subrange(0, 12));
    if contents.len() >= 16 && contents.take(16) == header {
        law_new_file_header_is_valid(contents.skip(16));
        assert(contents =~= header + contents.skip(16));
    }
    if file_header_error(contents) is None {
        lemma_le_bytes_of_le_value(contents.subrange(8, 10));
        lemma_le_bytes_of_le_value(contents.subrange(10, 12));
        lemma_le_bytes_of_le_value(contents.subrange(12, 16));
        assert(contents.subrange(0, 12) =~= contents.subrange(0, 8) + contents.subrange(8, 10)
            + contents.subrange(10, 12));
        assert(contents.subrange(0, 12) =~= file_header_body());
        assert(contents.take(16) =~= contents.subrange(0, 12) + contents.subrange(12, 16));
    }
}

/// A record header is read exactly if it is the one header of what it says and announces no more
/// bytes than the limit: the magic, the version, a reserved field, the number of bytes of the
/// payload and their checksum, the position, a reserved field and the checksum of these.
pub proof fn law_record_header_is_read_exactly(
    header: Seq<u8>,
    parsed: ParsedRecordHeader,
    limits: BatchLimits,
)
    requires
        header.len() == 32,
        parsed.payload_len <= u32::MAX,
    ensures
        header_fields(header, limits) == Ok::<ParsedRecordHeader, DurableLogError>(parsed) <==> {
            &&& header == record_header_bytes(
                parsed.payload_len as nat,
                parsed.payload_crc,
                parsed.end_lsn,
            )
            &&& parsed.payload_len <= limits.max_encoded_bytes
        },
        ({
            let bytes = record_header_bytes(
                parsed.payload_len as nat,
                parsed.payload_crc,
                parsed.end_lsn,
            );
            &&& bytes.len() == 32
            &&& bytes.subrange(0, 4) == seq![0x54u8, 0x58, 0x4e, 0x31]
            &&& field(bytes, 4, 6) == 1
            &&& field(bytes, 6, 8) == 0
            &&& field(bytes, 8, 12) == parsed.payload_len
            &&& field(bytes, 12, 16) == parsed.payload_crc
            &&& field(bytes, 16, 24) == parsed.end_lsn.0
            &&& field(bytes, 24, 28) == 0
            &&& field(bytes, 28, 32) == crc32c_of(bytes.take(28))
        }),
{
    broadcast use lemma_le_bytes_len;

    lemma_pow256_values();
    let widest = BatchLimits { max_encoded_bytes: usize::MAX, ..limits };
    let bytes = record_header_bytes(parsed.payload_len as nat, parsed.payload_crc, parsed.end_lsn);
    assert(RECORD_MAGIC@ =~= seq![0x54u8, 0x58, 0x4e, 0x31]);
    lemma_header_fields(parsed.payload_len as nat, parsed.payload_crc, parsed.end_lsn, widest);
    lemma_le_value_bound(bytes.subrange(8, 12));
    lemma_le_value_bound(bytes.subrange(12, 16));
    lemma_le_value_bound(bytes.subrange(16, 24));
    assert(bytes.take(28) =~= bytes.subrange(0, 28));
    if parsed.payload_len <= limits.max_encoded_bytes {
        lemma_header_fields(parsed.payload_len as nat, parsed.payload_crc, parsed.end_lsn, limits);
    }
    if header_fields(header, limits) == Ok::<ParsedRecordHeader, DurableLogError>(parsed) {
        lemma_le_bytes_of_le_value(header.subrange(4, 6));
        lemma_le_bytes_of_le_value(header.subrange(6, 8));
        lemma_le_bytes_of_le_value(header.subrange(8, 12));
        lemma_le_bytes_of_le_value(header.subrange(12, 16));
        lemma_le_bytes_of_le_value(header.subrange(16, 24));
        lemma_le_bytes_of_le_value(header.subrange(24, 28));
        lemma_le_bytes_of_le_value(header.subrange(28, 32));
        lemma_le_value_bound(header.subrange(8, 12));
        lemma_le_value_bound(header.subrange(12, 16));
        lemma_le_value_bound(header.subrange(16, 24));
        assert(header.subrange(0, 28) =~= header.subrange(0, 4) + header.subrange(4, 6)
            + header.subrange(6, 8) + header.subrange(8, 12) + header.subrange(12, 16)
            + header.subrange(16, 24) + header.subrange(24, 28));
        assert(header.subrange(0, 28) =~= record_header_body(
            parsed.payload_len as nat,
            parsed.payload_crc,
            parsed.end_lsn,
        ));
        assert(header =~= header.subrange(0, 28) + header.subrange(28, 32));
    }
}

/// A record is taken exactly if its payload has the checksum and decodes to a transaction at the
/// position that its header says, behind the one before. What is taken is that transaction, and
/// each refusal names what is wrong.
pub proof fn law_record_is_taken_exactly_if_sound(
    header: ParsedRecordHeader,
    payload: Seq<u8>,
    previous: LogSequenceNumber,
    limits: BatchLimits,
)
    ensures
        ({
            let result = checked_record(header, payload, previous, limits);
            &&& result is Ok <==> {
                &&& crc32c_of(payload) == header.payload_crc
                &&& decoded(payload, limits) matches Ok(batch)
                &&& batch.end_lsn.0 == header.end_lsn.0
                &&& previous.0 < batch.end_lsn.0
            }
            &&& result matches Ok(batch) ==> decoded(payload, limits) == Ok::<
                ModelBatchView,
                BatchCodecError,
            >(batch)
            &&& result matches Err(error) ==> match error {
                DurableLogError::PayloadChecksumMismatch { end_lsn } => end_lsn == header.end_lsn
                    && crc32c_of(payload) != header.payload_crc,
                DurableLogError::Codec(error) => decoded(payload, limits) == Err::<
                    ModelBatchView,
                    BatchCodecError,
                >(error),
                DurableLogError::RecordLsnMismatch { header: stated, payload: held } => {
                    &&& stated == header.end_lsn
                    &&& decoded(payload, limits) matches Ok(batch)
                    &&& held == batch.end_lsn
                    &&& stated.0 != held.0
                },
                DurableLogError::NonMonotonicRecord { previous: before, current } => {
                    &&& before == previous
                    &&& current == header.end_lsn
                    &&& current.0 <= before.0
                },
                _ => false,
            }
        }),
{
}

/// A byte of a payload that was changed is noticed by the checksum of the payload, and one of a
/// record header in front of its checksum by the header.
pub proof fn law_changed_byte_of_a_record_is_noticed(
    before: Seq<u8>,
    byte: u8,
    other: u8,
    behind: Seq<u8>,
    parsed: ParsedRecordHeader,
    previous: LogSequenceNumber,
    limits: BatchLimits,
)
    requires
        byte != other,
        parsed.payload_len <= u32::MAX,
    ensures
        parsed.payload_crc == crc32c_of(before.push(byte) + behind) ==> checked_record(
            parsed,
            before.push(other) + behind,
            previous,
            limits,
        ) == Err::<ModelBatchView, DurableLogError>(
            DurableLogError::PayloadChecksumMismatch { end_lsn: parsed.end_lsn },
        ),
        before.len() < 28 && before.push(byte) + behind == record_header_bytes(
            parsed.payload_len as nat,
            parsed.payload_crc,
            parsed.end_lsn,
        ) ==> header_fields(before.push(other) + behind, limits) is Err,
{
    law_changed_byte_changes_the_checksum(before, byte, other, behind);
    let intact = before.push(byte) + behind;
    let changed = before.push(other) + behind;
    if before.len() < 28 && intact == record_header_bytes(
        parsed.payload_len as nat,
        parsed.payload_crc,
        parsed.end_lsn,
    ) {
        let widest = BatchLimits { max_encoded_bytes: usize::MAX, ..limits };
        lemma_header_fields(parsed.payload_len as nat, parsed.payload_crc, parsed.end_lsn, widest);
        law_record_header_is_read_exactly(intact, parsed, limits);
        let rest = behind.take(27 - before.len());
        law_changed_byte_changes_the_checksum(before, byte, other, rest);
        assert(intact.take(28) =~= before.push(byte) + rest);
        assert(changed.subrange(0, 28) =~= before.push(other) + rest);
        assert(changed.subrange(28, 32) =~= intact.subrange(28, 32));
    }
}

/// Only a record whose bytes are not all there is ever cut off: fewer than those of a header, or
/// fewer than a sound header announces.
pub proof fn law_only_missing_bytes_are_cut_off(
    contents: Seq<u8>,
    offset: nat,
    previous: LogSequenceNumber,
    limits: BatchLimits,
    after: Option<LogSequenceNumber>,
)
    ensures
        scanned(contents, offset, previous, limits, true, after) matches Ok(scan) ==> (
        scan.torn_at matches Some(at) ==> {
            &&& offset <= at < contents.len()
            &&& at + 32 <= contents.len() ==> (header_fields(
                contents.subrange(at as int, at as int + 32),
                limits,
            ) matches Ok(header) && contents.len() < at + 32 + header.payload_len)
        }),
    decreases bytes_left(contents, offset),
{
    if offset < contents.len() {
        match record_at(contents, offset, limits) {
            Ok(Some((header, payload))) => {
                let next = offset + RECORD_HEADER_LEN as nat + header.payload_len as nat;
                law_only_missing_bytes_are_cut_off(contents, next, header.end_lsn, limits, after);
            },
            _ => {
                reveal(record_at);
            },
        }
    }
}

/// The file after it was repaired.
pub open spec fn repaired(action: OpenAction, contents: Seq<u8>) -> Seq<u8> {
    match action {
        OpenAction::Keep => contents,
        OpenAction::WriteHeader(bytes) => bytes@,
        OpenAction::Truncate(len) => contents.take(len as int),
    }
}

proof fn lemma_whole_part_scans(
    contents: Seq<u8>,
    offset: nat,
    previous: LogSequenceNumber,
    limits: BatchLimits,
    after: Option<LogSequenceNumber>,
)
    ensures
        scanned(contents, offset, previous, limits, true, after) matches Ok(scan) ==> (
        scan.torn_at matches Some(at) ==> {
            &&& offset <= at <= contents.len()
            &&& scanned(contents.take(at as int), offset, previous, limits, false, after) == Ok::<
                ScanView,
                DurableLogError,
            >(ScanView { torn_at: None, ..scan })
        }),
        scanned(contents, offset, previous, limits, true, after) matches Ok(scan) ==> (scan.torn_at
            is None ==> scanned(contents, offset, previous, limits, false, after) == Ok::<
            ScanView,
            DurableLogError,
        >(scan)),
    decreases bytes_left(contents, offset),
{
    if offset < contents.len() {
        if let Ok(scan) = scanned(contents, offset, previous, limits, true, after) {
            match record_at(contents, offset, limits) {
                Ok(Some((header, payload))) => {
                    let next = offset + RECORD_HEADER_LEN as nat + header.payload_len as nat;
                    lemma_whole_part_scans(contents, next, header.end_lsn, limits, after);
                    if let Some(at) = scan.torn_at {
                        lemma_record_is_in_the_whole_part(contents, at, offset, limits);
                    }
                },
                _ => {},
            }
        }
    }
}

proof fn lemma_record_is_in_the_whole_part(
    contents: Seq<u8>,
    at: nat,
    offset: nat,
    limits: BatchLimits,
)
    requires
        at <= contents.len(),
        record_at(contents, offset, limits) matches Ok(Some((header, _))) && offset
            + RECORD_HEADER_LEN + header.payload_len <= at,
    ensures
        record_at(contents.take(at as int), offset, limits) == record_at(contents, offset, limits),
{
    reveal(record_at);
    let whole = contents.take(at as int);
    let start = offset + RECORD_HEADER_LEN;
    let (header, _) = record_at(contents, offset, limits)->Ok_0->Some_0;
    assert(whole.subrange(offset as int, start) =~= contents.subrange(offset as int, start));
    assert(whole.subrange(start, start + header.payload_len) =~= contents.subrange(
        start,
        start + header.payload_len,
    ));
}

/// A file that was opened and repaired as asked opens again to the same last position with
/// nothing left to repair, and everything that was whole in it replays. A new file is given a
/// header.
pub proof fn law_repair_leaves_a_whole_log(
    action: OpenAction,
    contents: Seq<u8>,
    limits: BatchLimits,
    after: LogSequenceNumber,
)
    requires
        opened(contents, limits) is Ok,
        repairs(action, contents, opened(contents, limits)->Ok_0),
    ensures
        ({
            let scan = opened(contents, limits)->Ok_0;
            let mended = repaired(action, contents);
            &&& opened(mended, limits) == Ok::<ScanView, DurableLogError>(
                ScanView { torn_at: None, ..scan },
            )
            &&& replayed(mended, limits, after) is Ok
            &&& contents.len() > 0 && scan.torn_at is None ==> mended == contents
            &&& mended.is_prefix_of(contents) || contents.len() == 0 && mended == file_header()
        }),
{
    let zero = LogSequenceNumber(0);
    let start = FILE_HEADER_LEN as nat;
    let mended = repaired(action, contents);
    if contents.len() == 0 {
        law_file_header_is_read_exactly(mended);
        law_new_file_header_is_valid(Seq::empty());
        assert(mended.take(16) =~= mended);
    } else {
        lemma_whole_part_scans(contents, start, zero, limits, None);
        let scan = opened(contents, limits)->Ok_0;
        law_file_header_is_read_exactly(contents);
        if let Some(at) = scan.torn_at {
            law_only_missing_bytes_are_cut_off(contents, start, zero, limits, None);
            assert(mended.take(16) =~= contents.take(16));
            law_file_header_is_read_exactly(mended);
        }
        lemma_strict_scan_is_lenient(mended, start, zero, limits, None, Some(after));
    }
}

proof fn lemma_strict_scan_is_lenient(
    contents: Seq<u8>,
    offset: nat,
    previous: LogSequenceNumber,
    limits: BatchLimits,
    after: Option<LogSequenceNumber>,
    other: Option<LogSequenceNumber>,
)
    ensures
        scanned(contents, offset, previous, limits, false, after) matches Ok(scan) ==> {
            &&& scan.torn_at is None
            &&& scanned(contents, offset, previous, limits, true, after) == Ok::<
                ScanView,
                DurableLogError,
            >(scan)
            &&& scanned(contents, offset, previous, limits, false, other) is Ok
        },
    decreases bytes_left(contents, offset),
{
    if offset < contents.len() {
        if let Ok(Some((header, payload))) = record_at(contents, offset, limits) {
            let next = offset + RECORD_HEADER_LEN as nat + header.payload_len as nat;
            lemma_strict_scan_is_lenient(contents, next, header.end_lsn, limits, after, other);
        }
    }
}

} // verus!
