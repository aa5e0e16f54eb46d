//! Durable checkpoint of the last applied transaction: record codec, transition rules and
//! recovery. File access is left to the caller.

use super::checksum::{crc32c, crc32c_of};
use super::lsn::{lsn_name, lsn_text, LogSequenceNumber};
use super::transaction::{batch_fingerprint, BatchView, TransactionBatch};
use super::wire::{
    le_bytes, le_value, lemma_le_bytes_len, lemma_le_bytes_of_le_value, lemma_le_value_bound,
    lemma_le_value_of_le_bytes, lemma_pow256_values, pow256, put_bytes, put_u16, put_u32, put_u64,
    read_le, same_bytes,
};
use crate::text::{decimal, decimal_text, joined};
use vstd::prelude::*;

verus! {

/// First field of every record.
pub const MAGIC: [u8; 4] = [0x56, 0x59, 0x41, 0x50];

/// Record format version.
pub const VERSION: u16 = 1;

/// Bytes of a record that its checksum covers.
pub const BODY_LEN: usize = 32;

/// Bytes of a record.
pub const RECORD_LEN: usize = 36;

/// The transaction that a projection applied last.
#[derive(Clone, Copy, Debug, PartialEq, Eq, Structural)]
pub struct AppliedState {
    pub commit_lsn: LogSequenceNumber,
    pub end_lsn: LogSequenceNumber,
    pub fingerprint: u64,
}

impl AppliedState {
    /// The commit position of the transaction.
    pub fn commit_lsn(self) -> (lsn: LogSequenceNumber)
        ensures
            lsn == self.commit_lsn,
    {
        self.commit_lsn
    }

    /// The position behind the transaction.
    pub fn end_lsn(self) -> (lsn: LogSequenceNumber)
        ensures
            lsn == self.end_lsn,
    {
        self.end_lsn
    }

    /// The fingerprint of the transaction.
    pub fn fingerprint(self) -> (hash: u64)
        ensures
            hash == self.fingerprint,
    {
        self.fingerprint
    }
}

/// The state before any transaction was applied.
pub open spec fn nothing_applied() -> AppliedState {
    AppliedState {
        commit_lsn: LogSequenceNumber(0),
        end_lsn: LogSequenceNumber(0),
        fingerprint: 0,
    }
}

impl Default for AppliedState {
    fn default() -> (state: Self)
        ensures
            state == nothing_applied(),
    {
        AppliedState {
            commit_lsn: LogSequenceNumber(0),
            end_lsn: LogSequenceNumber(0),
            fingerprint: 0,
        }
    }
}

/// The state after `batch` was applied.
pub open spec fn applied_state(batch: BatchView) -> AppliedState {
    AppliedState {
        commit_lsn: batch.commit_lsn,
        end_lsn: batch.end_lsn,
        fingerprint: batch_fingerprint(batch),
    }
}

/// Whether a step adds a record.
#[derive(Clone, Copy, Debug, PartialEq, Eq, Structural)]
pub enum CheckpointAdvance {
    Advanced,
    Duplicate,
}

/// Why a checkpoint or a step of it was refused.
#[derive(Clone, Debug, PartialEq, Eq)]
pub enum CheckpointError {
    /// A file operation failed; the text is what it reported.
    Io(String),
    InvalidMagic(u64),
    UnsupportedVersion(u16),
    ChecksumMismatch(u64),
    CorruptRecord,
    EndBeforeCommit,
    Regressed,
    ConflictingCommit(LogSequenceNumber),
    DurableMismatch(LogSequenceNumber),
    MissingFromJournal(LogSequenceNumber),
    LengthOverflow,
}

/// Whether `next` may follow `current`.
pub open spec fn transition(current: AppliedState, next: AppliedState) -> Result<
    (),
    CheckpointError,
> {
    if next.end_lsn.0 < next.commit_lsn.0 {
        Err(CheckpointError::EndBeforeCommit)
    } else if next.commit_lsn.0 < current.commit_lsn.0 || next.end_lsn.0 < current.end_lsn.0 {
        Err(CheckpointError::Regressed)
    } else if next.commit_lsn == current.commit_lsn && next != current {
        Err(CheckpointError::ConflictingCommit(next.commit_lsn))
    } else {
        Ok(())
    }
}

/// Decides whether `next` may follow `current`.
pub fn validate_transition(current: AppliedState, next: AppliedState) -> (result: Result<
    (),
    CheckpointError,
>)
    ensures
        result == transition(current, next),
{
    if next.end_lsn.0 < next.commit_lsn.0 {
        return Err(CheckpointError::EndBeforeCommit);
    }
    if next.commit_lsn.0 < current.commit_lsn.0 || next.end_lsn.0 < current.end_lsn.0 {
        return Err(CheckpointError::Regressed);
    }
    if next.commit_lsn == current.commit_lsn && next != current {
        return Err(CheckpointError::ConflictingCommit(next.commit_lsn));
    }
    Ok(())
}

/// The part of a record that its checksum covers.
pub open spec fn record_body(state: AppliedState) -> Seq<u8> {
    MAGIC@ + le_bytes(VERSION as nat, 2) + le_bytes(0, 2) + le_bytes(state.commit_lsn.0 as nat, 8)
        + le_bytes(state.end_lsn.0 as nat, 8) + le_bytes(state.fingerprint as nat, 8)
}

/// The record of a state.
pub open spec fn record(state: AppliedState) -> Seq<u8> {
    record_body(state) + le_bytes(crc32c_of(record_body(state)) as nat, 4)
}

/// The number in the bytes `start..end` of `input`.
pub open spec fn field(input: Seq<u8>, start: int, end: int) -> nat {
    le_value(input.subrange(start, end))
}

/// The state in a whole record that lies at `offset`.
pub open spec fn read_record(input: Seq<u8>, offset: u64) -> Result<AppliedState, CheckpointError> {
    if input.subrange(0, 4) != MAGIC@ {
        Err(CheckpointError::InvalidMagic(offset))
    } else if field(input, 4, 6) != VERSION {
        Err(CheckpointError::UnsupportedVersion(field(input, 4, 6) as u16))
    } else if crc32c_of(input.subrange(0, BODY_LEN as int)) != field(
        input,
        BODY_LEN as int,
        RECORD_LEN as int,
    ) {
        Err(CheckpointError::ChecksumMismatch(offset))
    } else {
        Ok(
            AppliedState {
                commit_lsn: LogSequenceNumber(field(input, 8, 16) as u64),
                end_lsn: LogSequenceNumber(field(input, 16, 24) as u64),
                fingerprint: field(input, 24, 32) as u64,
            },
        )
    }
}

/// Encodes a state as one record.
pub fn encode_record(state: AppliedState) -> (bytes: Vec<u8>)
    ensures
        bytes@ == record(state),
{
    let magic: [u8; 4] = MAGIC;
    let mut out: Vec<u8> = Vec::new();
    put_bytes(&mut out, magic.as_slice());
    put_u16(&mut out, VERSION);
    put_u16(&mut out, 0);
    put_u64(&mut out, state.commit_lsn.0);
    put_u64(&mut out, state.end_lsn.0);
    put_u64(&mut out, state.fingerprint);
    assert(out@ =~= record_body(state));
    let crc: u32 = crc32c(out.as_slice());
    put_u32(&mut out, crc);
    out
}

fn record_field(input: &[u8], start: usize, end: usize) -> (value: u64)
    requires
        start <= end <= input@.len(),
        end - start <= 8,
    ensures
        value as nat == field(input@, start as int, end as int),
        value < pow256((end - start) as nat),
{
    let bytes = vstd::slice::slice_subrange(input, start, end);
    proof {
        lemma_le_value_bound(bytes@);
    }
    read_le(bytes)
}

/// Decodes one record that lies at `offset`.
pub fn decode_record(input: &[u8], offset: u64) -> (result: Result<AppliedState, CheckpointError>)
    requires
        input@.len() == RECORD_LEN,
    ensures
        result == read_record(input@, offset),
{
    proof {
        lemma_pow256_values();
    }
    let magic: [u8; 4] = MAGIC;
    if !same_bytes(vstd::slice::slice_subrange(input, 0, 4), magic.as_slice()) {
        return Err(CheckpointError::InvalidMagic(offset));
    }
    let version: u16 = record_field(input, 4, 6) as u16;
    if version != VERSION {
        return Err(CheckpointError::UnsupportedVersion(version));
    }
    let body = vstd::slice::slice_subrange(input, 0, BODY_LEN);
    if crc32c(body) as u64 != record_field(input, BODY_LEN, RECORD_LEN) {
        return Err(CheckpointError::ChecksumMismatch(offset));
    }
    Ok(
        AppliedState {
            commit_lsn: LogSequenceNumber::new(record_field(input, 8, 16)),
            end_lsn: LogSequenceNumber::new(record_field(input, 16, 24)),
            fingerprint: record_field(input, 24, 32),
        },
    )
}

/// The number of bytes of a checkpoint file that form whole records; the rest is a torn tail.
pub fn complete_len(file_len: u64) -> (len: u64)
    ensures
        len == file_len - file_len % (RECORD_LEN as u64),
{
    file_len - file_len % (RECORD_LEN as u64)
}

/// The state after the whole records of `contents` from `offset` on, starting from `state`.
pub open spec fn recovered(contents: Seq<u8>, offset: nat, state: AppliedState) -> Result<
    AppliedState,
    CheckpointError,
>
    decreases contents.len() - offset,
{
    if offset + RECORD_LEN > contents.len() {
        Ok(state)
    } else {
        match read_record(
            contents.subrange(offset as int, offset + RECORD_LEN),
            offset as u64,
        ) {
            Err(error) => Err(error),
            Ok(next) => match transition(state, next) {
                Err(error) => Err(error),
                Ok(_) => recovered(contents, offset + RECORD_LEN as nat, next),
            },
        }
    }
}

/// A checkpoint, apart from its file.
#[derive(Debug)]
pub struct AppliedCheckpoint {
    state: AppliedState,
}

impl View for AppliedCheckpoint {
    type V = AppliedState;

    closed spec fn view(&self) -> AppliedState {
        self.state
    }
}

/// The step that `batch` asks of a checkpoint in `state`.
pub open spec fn advanced(state: AppliedState, batch: BatchView) -> Result<
    CheckpointAdvance,
    CheckpointError,
> {
    match transition(state, applied_state(batch)) {
        Err(error) => Err(error),
        Ok(_) => if applied_state(batch) == state {
            Ok(CheckpointAdvance::Duplicate)
        } else {
            Ok(CheckpointAdvance::Advanced)
        },
    }
}

impl AppliedCheckpoint {
    /// Opens a checkpoint with these contents; an incomplete last record is ignored.
    pub fn open(contents: &[u8]) -> (result: Result<Self, CheckpointError>)
        ensures
            match result {
                Ok(checkpoint) => recovered(contents@, 0, nothing_applied()) == Ok::<
                    AppliedState,
                    CheckpointError,
                >(checkpoint@),
                Err(error) => recovered(contents@, 0, nothing_applied()) == Err::<
                    AppliedState,
                    CheckpointError,
                >(error),
            },
    {
        let mut state = AppliedState::default();
        let mut offset: usize = 0;
        while contents.len() - offset >= RECORD_LEN
            invariant
                offset <= contents@.len(),
                recovered(contents@, 0, nothing_applied()) == recovered(
                    contents@,
                    offset as nat,
                    state,
                ),
            decreases contents@.len() - offset,
        {
            let bytes = vstd::slice::slice_subrange(contents, offset, offset + RECORD_LEN);
            let next = decode_record(bytes, offset as u64)?;
            validate_transition(state, next)?;
            state = next;
            offset = offset + RECORD_LEN;
        }
        Ok(AppliedCheckpoint { state })
    }

    /// The transaction applied last.
    pub fn state(&self) -> (state: AppliedState)
        ensures
            state == self@,
    {
        self.state
    }

    /// Decides how to advance to `batch`: with a record to write and synchronise, or without one
    /// for the transaction that is checkpointed already. The checkpoint moves at `confirm`.
    pub fn advance(&self, batch: &TransactionBatch) -> (result: Result<
        Option<Vec<u8>>,
        CheckpointError,
    >)
        ensures
            match advanced(self@, batch@) {
                Err(error) => result == Err::<Option<Vec<u8>>, CheckpointError>(error),
                Ok(CheckpointAdvance::Duplicate) => result == Ok::<
                    Option<Vec<u8>>,
                    CheckpointError,
                >(None),
                Ok(CheckpointAdvance::Advanced) => result matches Ok(Some(bytes)) && bytes@
                    == record(applied_state(batch@)),
            },
    {
        let next = AppliedState {
            commit_lsn: batch.commit_lsn(),
            end_lsn: batch.end_lsn(),
            fingerprint: batch.fingerprint(),
        };
        validate_transition(self.state, next)?;
        if next == self.state {
            return Ok(None);
        }
        Ok(Some(encode_record(next)))
    }

    /// Moves to `batch`, once its record is written and synchronised.
    pub fn confirm(&mut self, batch: &TransactionBatch)
        ensures
            final(self)@ == applied_state(batch@),
    {
        self.state = AppliedState {
            commit_lsn: batch.commit_lsn(),
            end_lsn: batch.end_lsn(),
            fingerprint: batch.fingerprint(),
        };
    }
}

// ---------------------------------------------------------------------------------------------
// Laws
// ---------------------------------------------------------------------------------------------

/// Reading the record of a state gives that state.
pub proof fn law_record_round_trip(state: AppliedState, offset: u64)
    ensures
        record(state).len() == RECORD_LEN,
        read_record(record(state), offset) == Ok::<AppliedState, CheckpointError>(state),
{
    broadcast use lemma_le_bytes_len;

    lemma_pow256_values();
    let input = record(state);
    assert(MAGIC@.len() == 4);
    assert(input.subrange(0, 4) =~= MAGIC@);
    assert(input.subrange(4, 6) =~= le_bytes(VERSION as nat, 2));
    assert(input.subrange(8, 16) =~= le_bytes(state.commit_lsn.0 as nat, 8));
    assert(input.subrange(16, 24) =~= le_bytes(state.end_lsn.0 as nat, 8));
    assert(input.subrange(24, 32) =~= le_bytes(state.fingerprint as nat, 8));
    assert(input.subrange(0, 32) =~= record_body(state));
    assert(input.subrange(32, 36) =~= le_bytes(crc32c_of(record_body(state)) as nat, 4));
    lemma_le_value_of_le_bytes(VERSION as nat, 2);
    lemma_le_value_of_le_bytes(state.commit_lsn.0 as nat, 8);
    lemma_le_value_of_le_bytes(state.end_lsn.0 as nat, 8);
    lemma_le_value_of_le_bytes(state.fingerprint as nat, 8);
    lemma_le_value_of_le_bytes(crc32c_of(record_body(state)) as nat, 4);
}

proof fn lemma_recovered_continues(
    contents: Seq<u8>,
    tail: Seq<u8>,
    offset: nat,
    state: AppliedState,
)
    requires
        offset <= contents.len(),
        (contents.len() - offset) % (RECORD_LEN as int) == 0,
    ensures
        recovered(contents, offset, state) matches Ok(last) ==> recovered(
            contents + tail,
            offset,
            state,
        ) == recovered(contents + tail, contents.len(), last),
    decreases contents.len() - offset,
{
    if offset < contents.len() {
        assert(contents.len() - offset >= RECORD_LEN);
        let here = contents.subrange(offset as int, offset + RECORD_LEN);
        assert((contents + tail).subrange(offset as int, offset + RECORD_LEN) =~= here);
        if let Ok(next) = read_record(here, offset as u64) {
            lemma_recovered_continues(contents, tail, offset + RECORD_LEN as nat, next);
        }
    }
}

/// Appending the record of an allowed next state to whole records recovers that state, and any
/// incomplete record behind them changes nothing.
pub proof fn law_recovery_returns_the_last_whole_record(
    contents: Seq<u8>,
    next: AppliedState,
    tail: Seq<u8>,
)
    requires
        contents.len() % (RECORD_LEN as nat) == 0,
        tail.len() < RECORD_LEN,
    ensures
        recovered(contents, 0, nothing_applied()) matches Ok(last) ==> {
            &&& recovered(contents + tail, 0, nothing_applied()) == Ok::<
                AppliedState,
                CheckpointError,
            >(last)
            &&& transition(last, next) is Ok ==> recovered(
                contents + record(next) + tail,
                0,
                nothing_applied(),
            ) == Ok::<AppliedState, CheckpointError>(next)
        },
{
    if let Ok(last) = recovered(contents, 0, nothing_applied()) {
        lemma_recovered_continues(contents, tail, 0, nothing_applied());
        if transition(last, next) is Ok {
            let more = record(next) + tail;
            assert(contents + record(next) + tail =~= contents + more);
            lemma_recovered_continues(contents, more, 0, nothing_applied());
            law_record_round_trip(next, contents.len() as u64);
            let at = contents.len() as int;
            assert((contents + more).subrange(at, at + RECORD_LEN) =~= record(next));
            assert(recovered(contents + more, (at + RECORD_LEN) as nat, next) == Ok::<
                AppliedState,
                CheckpointError,
            >(next));
        }
    }
}

/// A checkpoint that recovers never ends before any of the states it went through.
pub proof fn law_recovered_checkpoint_never_regresses(
    contents: Seq<u8>,
    offset: nat,
    state: AppliedState,
)
    ensures
        recovered(contents, offset, state) matches Ok(last) ==> state.commit_lsn.0
            <= last.commit_lsn.0 && state.end_lsn.0 <= last.end_lsn.0,
    decreases contents.len() - offset,
{
    if offset + RECORD_LEN <= contents.len() {
        if let Ok(next) = read_record(
            contents.subrange(offset as int, offset + RECORD_LEN),
            offset as u64,
        ) {
            law_recovered_checkpoint_never_regresses(contents, offset + RECORD_LEN as nat, next);
        }
    }
}

/// Advancing moves forward: to the transaction's own state, which is behind no earlier one; a
/// second advance to the same transaction is a duplicate.
pub proof fn law_advance_is_monotone_and_idempotent(state: AppliedState, batch: BatchView)
    requires
        batch.ordered(),
    ensures
        advanced(state, batch) is Ok ==> state.commit_lsn.0 <= batch.commit_lsn.0
            && state.end_lsn.0 <= batch.end_lsn.0,
        advanced(applied_state(batch), batch) == Ok::<CheckpointAdvance, CheckpointError>(
            CheckpointAdvance::Duplicate,
        ),
{
}

impl CheckpointError {
    /// The diagnostic text of this error.
    pub open spec fn spec_message(self) -> Seq<char> {
        match self {
            CheckpointError::Io(detail) => "checkpoint I/O: "@ + detail@,
            CheckpointError::InvalidMagic(at) => "invalid checkpoint magic at "@ + decimal(
                at as int,
            ),
            CheckpointError::UnsupportedVersion(version) => "unsupported checkpoint version "@
                + decimal(version as int),
            CheckpointError::ChecksumMismatch(at) => "checkpoint checksum mismatch at "@ + decimal(
                at as int,
            ),
            CheckpointError::CorruptRecord => "corrupt checkpoint record"@,
            CheckpointError::EndBeforeCommit => "checkpoint end LSN is before commit LSN"@,
            CheckpointError::Regressed => "checkpoint LSN regressed"@,
            CheckpointError::ConflictingCommit(lsn) => {
                "conflicting checkpoint at "@ + lsn_name(lsn)
            },
            CheckpointError::DurableMismatch(lsn) => {
                "checkpoint does not match durable transaction at "@ + lsn_name(lsn)
            },
            CheckpointError::MissingFromJournal(lsn) => {
                "checkpoint transaction is missing from journal at "@ + lsn_name(lsn)
            },
            CheckpointError::LengthOverflow => "checkpoint length overflow"@,
        }
    }

    /// The diagnostic text of this error.
    pub fn message(&self) -> (text: String)
        ensures
            text@ == self.spec_message(),
    {
        match self {
            CheckpointError::Io(detail) => joined("checkpoint I/O: ", detail.as_str()),
            CheckpointError::InvalidMagic(at) => {
                joined("invalid checkpoint magic at ", decimal_text(*at).as_str())
            },
            CheckpointError::UnsupportedVersion(version) => {
                joined("unsupported checkpoint version ", decimal_text(*version as u64).as_str())
            },
            CheckpointError::ChecksumMismatch(at) => {
                joined("checkpoint checksum mismatch at ", decimal_text(*at).as_str())
            },
            CheckpointError::CorruptRecord => "corrupt checkpoint record".to_owned(),
            CheckpointError::EndBeforeCommit => {
                "checkpoint end LSN is before commit LSN".to_owned()
            },
            CheckpointError::Regressed => "checkpoint LSN regressed".to_owned(),
            CheckpointError::ConflictingCommit(lsn) => {
                joined(
                    "conflicting checkpoint at ",
                    lsn_text(*lsn).as_str(),
                )
            },
            CheckpointError::DurableMismatch(lsn) => {
                joined(
                    "checkpoint does not match durable transaction at ",
                    lsn_text(*lsn).as_str(),
                )
            },
            CheckpointError::MissingFromJournal(lsn) => {
                joined(
                    "checkpoint transaction is missing from journal at ",
                    lsn_text(*lsn).as_str(),
                )
            },
            CheckpointError::LengthOverflow => "checkpoint length overflow".to_owned(),
        }
    }
}

/// A checkpoint of a transaction names its commit position, the position behind it and its
/// fingerprint.
pub proof fn law_checkpoint_names_its_transaction(batch: BatchView)
    ensures
        applied_state(batch).commit_lsn == batch.commit_lsn,
        applied_state(batch).end_lsn == batch.end_lsn,
        applied_state(batch).fingerprint == batch_fingerprint(batch),
{
}

/// Every transaction behind the checkpointed one advances the checkpoint. One before it is
/// refused, and so is another one at its commit position.
pub proof fn law_every_later_transaction_advances(state: AppliedState, batch: BatchView)
    requires
        batch.ordered(),
    ensures
        state.commit_lsn.0 < batch.commit_lsn.0 && state.end_lsn.0 <= batch.end_lsn.0 ==> advanced(
            state,
            batch,
        ) == Ok::<CheckpointAdvance, CheckpointError>(CheckpointAdvance::Advanced),
        batch.commit_lsn.0 < state.commit_lsn.0 || batch.end_lsn.0 < state.end_lsn.0 ==> advanced(
            state,
            batch,
        ) == Err::<CheckpointAdvance, CheckpointError>(CheckpointError::Regressed),
        batch.commit_lsn == state.commit_lsn && batch.end_lsn.0 >= state.end_lsn.0 && !(
        batch.end_lsn == state.end_lsn && batch_fingerprint(batch) == state.fingerprint)
            ==> advanced(state, batch) == Err::<CheckpointAdvance, CheckpointError>(
            CheckpointError::ConflictingCommit(batch.commit_lsn),
        ),
{
}

/// A record is read only if it starts with the magic, has the version and carries the checksum of
/// its own body; what is read is what its fields say.
pub proof fn law_checkpoint_record_is_read_only_if_sound(input: Seq<u8>, offset: u64)
    requires
        input.len() == RECORD_LEN,
    ensures
        read_record(input, offset) is Ok <==> {
            &&& input.subrange(0, 4) == MAGIC@
            &&& field(input, 4, 6) == VERSION
            &&& field(input, 32, 36) == crc32c_of(input.subrange(0, 32))
        },
        read_record(input, offset) matches Ok(state) ==> {
            &&& le_bytes(state.commit_lsn.0 as nat, 8) == input.subrange(8, 16)
            &&& le_bytes(state.end_lsn.0 as nat, 8) == input.subrange(16, 24)
            &&& le_bytes(state.fingerprint as nat, 8) == input.subrange(24, 32)
        },
{
    lemma_pow256_values();
    lemma_le_bytes_of_le_value(input.subrange(8, 16));
    lemma_le_bytes_of_le_value(input.subrange(16, 24));
    lemma_le_bytes_of_le_value(input.subrange(24, 32));
    lemma_le_value_bound(input.subrange(8, 16));
    lemma_le_value_bound(input.subrange(16, 24));
    lemma_le_value_bound(input.subrange(24, 32));
}

/// The records of some states, one behind the other.
pub open spec fn records(states: Seq<AppliedState>) -> Seq<u8>
    decreases states.len(),
{
    if states.len() == 0 {
        Seq::empty()
    } else {
        records(states.drop_last()) + record(states.last())
    }
}

/// A checkpoint file that was only ever advanced recovers to the last state that was written, and
/// to nothing applied where none was.
pub proof fn law_checkpoint_recovers_the_last_state(states: Seq<AppliedState>)
    requires
        forall|i: int|
            0 <= i < states.len() ==> transition(
                if i == 0 {
                    nothing_applied()
                } else {
                    states[i - 1]
                },
                #[trigger] states[i],
            ) is Ok,
    ensures
        records(states).len() == states.len() * RECORD_LEN,
        recovered(records(states), 0, nothing_applied()) == Ok::<AppliedState, CheckpointError>(
            if states.len() == 0 {
                nothing_applied()
            } else {
                states.last()
            },
        ),
    decreases states.len(),
{
    if states.len() > 0 {
        let front = states.drop_last();
        let last = states[states.len() - 1];
        assert forall|i: int| 0 <= i < front.len() implies transition(
            if i == 0 {
                nothing_applied()
            } else {
                front[i - 1]
            },
            #[trigger] front[i],
        ) is Ok by {
            assert(front[i] == states[i]);
            if i > 0 {
                assert(front[i - 1] == states[i - 1]);
            }
        }
        law_checkpoint_recovers_the_last_state(front);
        law_record_round_trip(last, 0);
        let written = records(front);
        assert(written.len() % (RECORD_LEN as nat) == 0) by {
            vstd::arithmetic::div_mod::lemma_mod_multiples_basic(
                front.len() as int,
                RECORD_LEN as int,
            );
        }
        assert(transition(
            if front.len() == 0 {
                nothing_applied()
            } else {
                front.last()
            },
            last,
        ) is Ok);
        law_recovery_returns_the_last_whole_record(written, last, Seq::empty());
        assert(written + record(last) + Seq::<u8>::empty() =~= records(states));
        assert((states.len() - 1) * RECORD_LEN + RECORD_LEN == states.len() * RECORD_LEN)
            by (nonlinear_arith);
    }
}

/// A record is its magic, its version, a reserved field, the commit position, the end position,
/// the fingerprint and the checksum of these, every number with its least significant byte first.
pub proof fn law_checkpoint_record_is_laid_out(state: AppliedState)
    ensures
        ({
            let bytes = record(state);
            &&& bytes.len() == 36
            &&& bytes.subrange(0, 4) == seq![0x56u8, 0x59, 0x41, 0x50]
            &&& field(bytes, 4, 6) == 1
            &&& field(bytes, 6, 8) == 0
            &&& field(bytes, 8, 16) == state.commit_lsn.0
            &&& field(bytes, 16, 24) == state.end_lsn.0
            &&& field(bytes, 24, 32) == state.fingerprint
            &&& field(bytes, 32, 36) == crc32c_of(bytes.take(32))
        }),
{
    broadcast use lemma_le_bytes_len;

    lemma_pow256_values();
    let bytes = record(state);
    let body = record_body(state);
    assert(MAGIC@ =~= seq![0x56u8, 0x59, 0x41, 0x50]);
    assert(bytes.subrange(0, 4) =~= MAGIC@);
    assert(bytes.subrange(4, 6) =~= le_bytes(VERSION as nat, 2));
    assert(bytes.subrange(6, 8) =~= le_bytes(0, 2));
    assert(bytes.subrange(8, 16) =~= le_bytes(state.commit_lsn.0 as nat, 8));
    assert(bytes.subrange(16, 24) =~= le_bytes(state.end_lsn.0 as nat, 8));
    assert(bytes.subrange(24, 32) =~= le_bytes(state.fingerprint as nat, 8));
    assert(bytes.take(32) =~= body);
    assert(bytes.subrange(32, 36) =~= le_bytes(crc32c_of(body) as nat, 4));
    lemma_le_value_of_le_bytes(VERSION as nat, 2);
    lemma_le_value_of_le_bytes(0, 2);
    lemma_le_value_of_le_bytes(state.commit_lsn.0 as nat, 8);
    lemma_le_value_of_le_bytes(state.end_lsn.0 as nat, 8);
    lemma_le_value_of_le_bytes(state.fingerprint as nat, 8);
    lemma_le_value_of_le_bytes(crc32c_of(body) as nat, 4);
}

/// A state may follow another exactly if it ends no earlier than it commits, goes back in neither
/// position, and is the same state where it has the same commit position. Every state in order may
/// follow where nothing was applied, unless it claims the commit position zero.
pub proof fn law_state_follows_exactly_if_it_goes_on(current: AppliedState, next: AppliedState)
    ensures
        transition(current, next) is Ok <==> {
            &&& next.commit_lsn.0 <= next.end_lsn.0
            &&& current.commit_lsn.0 <= next.commit_lsn.0
            &&& current.end_lsn.0 <= next.end_lsn.0
            &&& current.commit_lsn.0 == next.commit_lsn.0 ==> current.end_lsn.0 == next.end_lsn.0
                && current.fingerprint == next.fingerprint
        },
        transition(current, next) == Err::<(), CheckpointError>(CheckpointError::EndBeforeCommit)
            <==> next.end_lsn.0 < next.commit_lsn.0,
        transition(current, next) == Err::<(), CheckpointError>(CheckpointError::Regressed)
            ==> next.commit_lsn.0 < current.commit_lsn.0 || next.end_lsn.0 < current.end_lsn.0,
        0 < next.commit_lsn.0 <= next.end_lsn.0 ==> transition(nothing_applied(), next) is Ok,
        nothing_applied().commit_lsn.0 == 0,
        nothing_applied().end_lsn.0 == 0,
{
}

} // verus!
