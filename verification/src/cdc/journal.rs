//! Append-only journal of complete transactions: payload codec, record framing, recovery scan
//! and redelivery detection. File access is left to the caller.

use super::checksum::{crc32c, crc32c_of};
use super::lsn::{lsn_name, lsn_text, LogSequenceNumber};
use super::transaction::{
    batch_fingerprint, changes_view, checked_batch, tuple_view, BatchView, ChangeKind, RowChange,
    RowChangeView, TransactionBatch, TransactionValidationError,
};
use super::wire::{
    le_bytes, lemma_le_bytes_len, lemma_le_value_of_le_bytes, lemma_next_bytes_of_concat,
    lemma_next_le_inverse, lemma_next_le_of_le_bytes, lemma_pow256_values, next_bytes, next_le,
    next_u8, pow256, put_bytes, put_u16, put_u32, put_u64, read_le, same_bytes, Cursor,
};
use crate::text::{bracketed, bracketed_text, decimal, joined, numbered_text};
use vstd::prelude::*;

verus! {

/// First field of every record.
pub const MAGIC: [u8; 4] = [0x56, 0x59, 0x43, 0x44];

/// Record format version.
pub const VERSION: u16 = 1;

/// Bytes before the payload of a record.
pub const HEADER_LEN: usize = 32;

/// Bytes behind the payload of a record.
pub const CRC_LEN: usize = 4;

/// Largest payload of a record and largest tuple in it.
pub const MAX_RECORD_BYTES: usize = 67_108_864;

/// Most changes in one record.
pub const MAX_CHANGES: usize = 1_000_000;

/// Why journal bytes or a transaction were refused.
#[derive(Clone, Debug, PartialEq, Eq)]
pub enum JournalError {
    /// A file operation failed; the text is what it reported.
    Io(String),
    InvalidMagic(u64),
    UnsupportedVersion(u16),
    CorruptHeader,
    RecordTooLarge(usize),
    TupleTooLarge(usize),
    TooManyChanges(usize),
    IncompleteTail(u64),
    ChecksumMismatch(u64),
    HeaderPayloadMismatch(u64),
    UnexpectedEof,
    LengthOverflow,
    InvalidChangeKind(u8),
    InvalidOptionTag(u8),
    TrailingBytes(usize),
    InvalidTransaction(TransactionValidationError),
    ConflictingReplay(LogSequenceNumber),
    DuplicateDurableRecord(LogSequenceNumber),
}

// ---------------------------------------------------------------------------------------------
// Payload format
// ---------------------------------------------------------------------------------------------

/// The payload bytes of an optional tuple.
pub open spec fn payload_tuple(tuple: Option<Seq<u8>>) -> Seq<u8> {
    match tuple {
        Some(bytes) => seq![1u8] + (le_bytes(bytes.len(), 4) + bytes),
        None => seq![0u8],
    }
}

/// The payload bytes of one change.
pub open spec fn payload_change(change: RowChangeView) -> Seq<u8> {
    le_bytes(change.relation_id as nat, 4) + (seq![change.kind.spec_code()] + (payload_tuple(
        change.old_tuple,
    ) + payload_tuple(change.new_tuple)))
}

/// The payload bytes of a list of changes.
pub open spec fn payload_changes(changes: Seq<RowChangeView>) -> Seq<u8>
    decreases changes.len(),
{
    if changes.len() == 0 {
        Seq::empty()
    } else {
        payload_change(changes[0]) + payload_changes(changes.drop_first())
    }
}

/// The payload bytes of a transaction.
pub open spec fn payload(batch: BatchView) -> Seq<u8> {
    le_bytes(batch.xid as nat, 4) + (le_bytes(batch.final_lsn.0 as nat, 8) + (le_bytes(
        batch.commit_lsn.0 as nat,
        8,
    ) + (le_bytes(batch.end_lsn.0 as nat, 8) + (le_bytes(batch.changes.len(), 4)
        + payload_changes(batch.changes)))))
}

/// The length of `tuple` where it exceeds the tuple limit.
pub open spec fn oversize(tuple: Option<Seq<u8>>) -> Option<nat> {
    match tuple {
        Some(bytes) if bytes.len() > MAX_RECORD_BYTES => Some(bytes.len()),
        _ => None,
    }
}

/// The length of the first tuple that exceeds the tuple limit, in payload order.
pub open spec fn first_oversize(changes: Seq<RowChangeView>) -> Option<nat>
    decreases changes.len(),
{
    if changes.len() == 0 {
        None
    } else if oversize(changes[0].old_tuple) is Some {
        oversize(changes[0].old_tuple)
    } else if oversize(changes[0].new_tuple) is Some {
        oversize(changes[0].new_tuple)
    } else {
        first_oversize(changes.drop_first())
    }
}

/// The payload of a transaction that respects the format's limits, or the limit it breaks.
pub open spec fn encoded(batch: BatchView) -> Result<Seq<u8>, JournalError> {
    if batch.changes.len() > MAX_CHANGES {
        Err(JournalError::TooManyChanges(batch.changes.len() as usize))
    } else {
        match first_oversize(batch.changes) {
            Some(len) => Err(JournalError::TupleTooLarge(len as usize)),
            None => Ok(payload(batch)),
        }
    }
}

/// An optional tuple at the start of `input`, and what follows it.
pub open spec fn parse_tuple(input: Seq<u8>) -> Result<
    (Option<Seq<u8>>, Seq<u8>),
    JournalError,
> {
    match next_u8(input) {
        None => Err(JournalError::UnexpectedEof),
        Some((tag, rest)) => if tag == 0 {
            Ok((None, rest))
        } else if tag == 1 {
            match next_le(rest, 4) {
                None => Err(JournalError::UnexpectedEof),
                Some((len, rest)) => if len > MAX_RECORD_BYTES {
                    Err(JournalError::TupleTooLarge(len as usize))
                } else {
                    match next_bytes(rest, len) {
                        None => Err(JournalError::UnexpectedEof),
                        Some((bytes, rest)) => Ok((Some(bytes), rest)),
                    }
                },
            }
        } else {
            Err(JournalError::InvalidOptionTag(tag))
        },
    }
}

/// A change at the start of `input`, and what follows it.
pub open spec fn parse_change(input: Seq<u8>) -> Result<(RowChangeView, Seq<u8>), JournalError> {
    match next_le(input, 4) {
        None => Err(JournalError::UnexpectedEof),
        Some((relation_id, rest)) => match next_u8(rest) {
            None => Err(JournalError::UnexpectedEof),
            Some((code, rest)) => match ChangeKind::spec_from_code(code) {
                None => Err(JournalError::InvalidChangeKind(code)),
                Some(kind) => match parse_tuple(rest) {
                    Err(error) => Err(error),
                    Ok((old_tuple, rest)) => match parse_tuple(rest) {
                        Err(error) => Err(error),
                        Ok((new_tuple, rest)) => Ok(
                            (
                                RowChangeView {
                                    relation_id: relation_id as u32,
                                    kind,
                                    old_tuple,
                                    new_tuple,
                                },
                                rest,
                            ),
                        ),
                    },
                },
            },
        },
    }
}

/// `done` put in front of a parsed list.
pub open spec fn prepended(
    done: Seq<RowChangeView>,
    parsed: Result<(Seq<RowChangeView>, Seq<u8>), JournalError>,
) -> Result<(Seq<RowChangeView>, Seq<u8>), JournalError> {
    match parsed {
        Ok((more, rest)) => Ok((done + more, rest)),
        Err(error) => Err(error),
    }
}

/// `count` changes at the start of `input`, and what follows them.
pub open spec fn parse_changes(input: Seq<u8>, count: nat) -> Result<
    (Seq<RowChangeView>, Seq<u8>),
    JournalError,
>
    decreases count,
{
    if count == 0 {
        Ok((Seq::empty(), input))
    } else {
        match parse_change(input) {
            Err(error) => Err(error),
            Ok((change, rest)) => prepended(
                seq![change],
                parse_changes(rest, (count - 1) as nat),
            ),
        }
    }
}

/// The transaction that a whole payload holds.
#[verifier::opaque]
pub open spec fn parse_payload(input: Seq<u8>) -> Result<BatchView, JournalError> {
    match next_le(input, 4) {
        None => Err(JournalError::UnexpectedEof),
        Some((xid, rest)) => match next_le(rest, 8) {
            None => Err(JournalError::UnexpectedEof),
            Some((final_lsn, rest)) => match next_le(rest, 8) {
                None => Err(JournalError::UnexpectedEof),
                Some((commit_lsn, rest)) => match next_le(rest, 8) {
                    None => Err(JournalError::UnexpectedEof),
                    Some((end_lsn, rest)) => match next_le(rest, 4) {
                        None => Err(JournalError::UnexpectedEof),
                        Some((count, rest)) => if count > MAX_CHANGES {
                            Err(JournalError::TooManyChanges(count as usize))
                        } else {
                            match parse_changes(rest, count) {
                                Err(error) => Err(error),
                                Ok((changes, rest)) => if rest.len() > 0 {
                                    Err(JournalError::TrailingBytes(rest.len() as usize))
                                } else {
                                    match checked_batch(
                                        BatchView {
                                            xid: xid as u32,
                                            final_lsn: LogSequenceNumber(final_lsn as u64),
                                            commit_lsn: LogSequenceNumber(commit_lsn as u64),
                                            end_lsn: LogSequenceNumber(end_lsn as u64),
                                            changes,
                                        },
                                    ) {
                                        Ok(batch) => Ok(batch),
                                        Err(error) => Err(
                                            JournalError::InvalidTransaction(error),
                                        ),
                                    }
                                },
                            }
                        },
                    },
                },
            },
        },
    }
}

// ---------------------------------------------------------------------------------------------
// Payload codec
// ---------------------------------------------------------------------------------------------

fn encode_optional(out: &mut Vec<u8>, tuple: &Option<Vec<u8>>) -> (result: Result<
    (),
    JournalError,
>)
    ensures
        match oversize(tuple_view(*tuple)) {
            Some(len) => result == Err::<(), JournalError>(
                JournalError::TupleTooLarge(len as usize),
            ),
            None => result is Ok && final(out)@ == old(out)@ + payload_tuple(tuple_view(*tuple)),
        },
{
    let ghost start = out@;
    match tuple {
        Some(bytes) => {
            if bytes.len() > MAX_RECORD_BYTES {
                return Err(JournalError::TupleTooLarge(bytes.len()));
            }
            out.push(1);
            put_u32(out, bytes.len() as u32);
            put_bytes(out, bytes.as_slice());
            assert(out@ =~= start + (seq![1u8] + (le_bytes(bytes@.len(), 4) + bytes@)));
        },
        None => {
            out.push(0);
            assert(out@ =~= start + seq![0u8]);
        },
    }
    Ok(())
}

/// Encodes a transaction as a journal payload.
pub fn encode_batch(batch: &TransactionBatch) -> (result: Result<Vec<u8>, JournalError>)
    ensures
        match result {
            Ok(bytes) => encoded(batch@) == Ok::<Seq<u8>, JournalError>(bytes@),
            Err(error) => encoded(batch@) == Err::<Seq<u8>, JournalError>(error),
        },
{
    let changes = batch.changes();
    if changes.len() > MAX_CHANGES {
        return Err(JournalError::TooManyChanges(changes.len()));
    }
    let mut out: Vec<u8> = Vec::new();
    put_u32(&mut out, batch.xid());
    put_u64(&mut out, batch.final_lsn().get());
    put_u64(&mut out, batch.commit_lsn().get());
    put_u64(&mut out, batch.end_lsn().get());
    put_u32(&mut out, changes.len() as u32);
    let ghost views = batch@.changes;
    assert(views.skip(0) =~= views);
    assert(out@ + payload_changes(views) =~= payload(batch@));
    let mut index: usize = 0;
    while index < changes.len()
        invariant
            index <= changes@.len() <= MAX_CHANGES,
            views == changes_view(changes@),
            views == batch@.changes,
            out@ + payload_changes(views.skip(index as int)) == payload(batch@),
            first_oversize(views) == first_oversize(views.skip(index as int)),
        decreases changes@.len() - index,
    {
        let change = &changes[index];
        let ghost before = out@;
        let ghost left = views.skip(index as int);
        assert(left[0] == change@);
        assert(left.drop_first() =~= views.skip(index + 1));
        put_u32(&mut out, change.relation_id);
        out.push(change.kind.code());
        encode_optional(&mut out, &change.old_tuple)?;
        encode_optional(&mut out, &change.new_tuple)?;
        assert(out@ =~= before + payload_change(change@));
        assert(before + (payload_change(change@) + payload_changes(left.drop_first())) =~= out@
            + payload_changes(left.drop_first()));
        index = index + 1;
    }
    assert(views.skip(views.len() as int) =~= Seq::empty());
    assert(out@ =~= payload(batch@));
    Ok(out)
}

fn decode_optional(cursor: &mut Cursor<'_>) -> (result: Result<Option<Vec<u8>>, JournalError>)
    ensures
        match result {
            Ok(tuple) => parse_tuple(old(cursor).rest()) == Ok::<
                (Option<Seq<u8>>, Seq<u8>),
                JournalError,
            >((tuple_view(tuple), final(cursor).rest())),
            Err(error) => parse_tuple(old(cursor).rest()) == Err::<
                (Option<Seq<u8>>, Seq<u8>),
                JournalError,
            >(error),
        },
{
    let tag: u8 = match cursor.u8() {
        Some(tag) => tag,
        None => return Err(JournalError::UnexpectedEof),
    };
    if tag == 0 {
        return Ok(None);
    }
    if tag != 1 {
        return Err(JournalError::InvalidOptionTag(tag));
    }
    proof {
        lemma_pow256_values();
    }
    let len: usize = match cursor.le(4) {
        Some(len) => len as usize,
        None => return Err(JournalError::UnexpectedEof),
    };
    if len > MAX_RECORD_BYTES {
        return Err(JournalError::TupleTooLarge(len));
    }
    match cursor.take(len) {
        Some(bytes) => Ok(Some(vstd::slice::slice_to_vec(bytes))),
        None => Err(JournalError::UnexpectedEof),
    }
}

fn decode_change(cursor: &mut Cursor<'_>) -> (result: Result<RowChange, JournalError>)
    ensures
        match result {
            Ok(change) => parse_change(old(cursor).rest()) == Ok::<
                (RowChangeView, Seq<u8>),
                JournalError,
            >((change@, final(cursor).rest())),
            Err(error) => parse_change(old(cursor).rest()) == Err::<
                (RowChangeView, Seq<u8>),
                JournalError,
            >(error),
        },
{
    proof {
        lemma_pow256_values();
    }
    let relation_id: u32 = match cursor.le(4) {
        Some(value) => value as u32,
        None => return Err(JournalError::UnexpectedEof),
    };
    let code: u8 = match cursor.u8() {
        Some(code) => code,
        None => return Err(JournalError::UnexpectedEof),
    };
    let kind = match ChangeKind::from_code(code) {
        Some(kind) => kind,
        None => return Err(JournalError::InvalidChangeKind(code)),
    };
    let old_tuple = decode_optional(cursor)?;
    let new_tuple = decode_optional(cursor)?;
    Ok(RowChange::new(relation_id, kind, old_tuple, new_tuple))
}

/// Decodes a whole journal payload.
#[verifier::loop_isolation(false)]
pub fn decode_batch(bytes: &[u8]) -> (result: Result<TransactionBatch, JournalError>)
    ensures
        match result {
            Ok(batch) => parse_payload(bytes@) == Ok::<BatchView, JournalError>(batch@),
            Err(error) => parse_payload(bytes@) == Err::<BatchView, JournalError>(error),
        },
{
    proof {
        reveal(parse_payload);
        lemma_pow256_values();
    }
    let mut cursor = Cursor::new(bytes);
    let xid: u32 = match cursor.le(4) {
        Some(value) => value as u32,
        None => return Err(JournalError::UnexpectedEof),
    };
    let final_lsn: u64 = match cursor.le(8) {
        Some(value) => value,
        None => return Err(JournalError::UnexpectedEof),
    };
    let commit_lsn: u64 = match cursor.le(8) {
        Some(value) => value,
        None => return Err(JournalError::UnexpectedEof),
    };
    let end_lsn: u64 = match cursor.le(8) {
        Some(value) => value,
        None => return Err(JournalError::UnexpectedEof),
    };
    let count: usize = match cursor.le(4) {
        Some(value) => value as usize,
        None => return Err(JournalError::UnexpectedEof),
    };
    if count > MAX_CHANGES {
        return Err(JournalError::TooManyChanges(count));
    }
    let ghost start = cursor.rest();
    let mut changes: Vec<RowChange> = Vec::with_capacity(count);
    let mut index: usize = 0;
    assert(changes_view(changes@) =~= Seq::empty());
    proof {
        lemma_prepend_nothing(parse_changes(start, count as nat));
    }
    while index < count
        invariant
            index <= count,
            parse_changes(start, count as nat) == prepended(
                changes_view(changes@),
                parse_changes(cursor.rest(), (count - index) as nat),
            ),
        decreases count - index,
    {
        let ghost done = changes_view(changes@);
        let ghost rest = cursor.rest();
        let change = decode_change(&mut cursor)?;
        proof {
            let more = parse_changes(cursor.rest(), (count - index - 1) as nat);
            if more is Ok {
                assert(done + (seq![change@] + more->Ok_0.0) =~= done.push(change@)
                    + more->Ok_0.0);
            }
        }
        changes.push(change);
        assert(changes_view(changes@) =~= done.push(change@));
        index = index + 1;
    }
    assert(changes_view(changes@) + Seq::<RowChangeView>::empty() =~= changes_view(changes@));
    let left: usize = cursor.remaining();
    if left > 0 {
        return Err(JournalError::TrailingBytes(left));
    }
    match TransactionBatch::try_new(
        xid,
        LogSequenceNumber::new(final_lsn),
        LogSequenceNumber::new(commit_lsn),
        LogSequenceNumber::new(end_lsn),
        changes,
    ) {
        Ok(batch) => Ok(batch),
        Err(error) => Err(JournalError::InvalidTransaction(error)),
    }
}

proof fn lemma_prepend_nothing(parsed: Result<(Seq<RowChangeView>, Seq<u8>), JournalError>)
    ensures
        prepended(Seq::empty(), parsed) == parsed,
{
    if parsed is Ok {
        assert(Seq::<RowChangeView>::empty() + parsed->Ok_0.0 =~= parsed->Ok_0.0);
    }
}


// ---------------------------------------------------------------------------------------------
// Payload laws
// ---------------------------------------------------------------------------------------------

proof fn lemma_parse_tuple(tuple: Option<Seq<u8>>, rest: Seq<u8>)
    requires
        oversize(tuple) is None,
    ensures
        parse_tuple(payload_tuple(tuple) + rest) == Ok::<(Option<Seq<u8>>, Seq<u8>), JournalError>(
            (tuple, rest),
        ),
{
    let input = payload_tuple(tuple) + rest;
    match tuple {
        Some(bytes) => {
            lemma_pow256_values();
            assert(input.skip(1) =~= le_bytes(bytes.len(), 4) + (bytes + rest));
            lemma_next_le_of_le_bytes(bytes.len(), 4, bytes + rest);
            lemma_next_bytes_of_concat(bytes, rest);
        },
        None => {
            assert(input.skip(1) =~= rest);
        },
    }
}

proof fn lemma_parse_tuple_inverse(input: Seq<u8>)
    ensures
        parse_tuple(input) matches Ok((tuple, rest)) ==> input == payload_tuple(tuple) + rest
            && oversize(tuple) is None,
{
    if let Ok((tuple, rest)) = parse_tuple(input) {
        let after = input.skip(1);
        assert(input =~= seq![input[0]] + after);
        if tuple is Some {
            lemma_next_le_inverse(after, 4);
            let body = next_le(after, 4)->Some_0.1;
            assert(body =~= tuple->Some_0 + rest);
            assert(input =~= payload_tuple(tuple) + rest);
        } else {
            assert(input =~= payload_tuple(tuple) + rest);
        }
    }
}

proof fn lemma_parse_change(change: RowChangeView, rest: Seq<u8>)
    requires
        oversize(change.old_tuple) is None,
        oversize(change.new_tuple) is None,
    ensures
        parse_change(payload_change(change) + rest) == Ok::<(RowChangeView, Seq<u8>), JournalError>(
            (change, rest),
        ),
{
    lemma_pow256_values();
    let input = payload_change(change) + rest;
    let tuples = payload_tuple(change.old_tuple) + (payload_tuple(change.new_tuple) + rest);
    let coded = seq![change.kind.spec_code()] + tuples;
    assert(input =~= le_bytes(change.relation_id as nat, 4) + coded);
    lemma_next_le_of_le_bytes(change.relation_id as nat, 4, coded);
    assert(coded.skip(1) =~= tuples);
    lemma_parse_tuple(change.old_tuple, payload_tuple(change.new_tuple) + rest);
    lemma_parse_tuple(change.new_tuple, rest);
}

proof fn lemma_regrouped(
    relation: Seq<u8>,
    code: Seq<u8>,
    first: Seq<u8>,
    last: Seq<u8>,
    rest: Seq<u8>,
)
    ensures
        relation + (code + (first + (last + rest))) == (relation + (code + (first + last))) + rest,
{
    assert(first + (last + rest) =~= (first + last) + rest);
    assert(code + ((first + last) + rest) =~= (code + (first + last)) + rest);
    assert(relation + ((code + (first + last)) + rest) =~= (relation + (code + (first + last)))
        + rest);
}

#[verifier::spinoff_prover]
#[verifier::rlimit(40)]
proof fn lemma_parse_change_inverse(input: Seq<u8>)
    ensures
        parse_change(input) matches Ok((change, rest)) ==> {
            &&& input == payload_change(change) + rest
            &&& oversize(change.old_tuple) is None
            &&& oversize(change.new_tuple) is None
        },
{
    if let Ok((change, rest)) = parse_change(input) {
        lemma_pow256_values();
        lemma_next_le_inverse(input, 4);
        let coded = next_le(input, 4)->Some_0.1;
        let tuples = coded.skip(1);
        assert(coded =~= seq![coded[0]] + tuples);
        lemma_parse_tuple_inverse(tuples);
        let second = parse_tuple(tuples)->Ok_0.1;
        lemma_parse_tuple_inverse(second);
        let relation = le_bytes(change.relation_id as nat, 4);
        let code = seq![change.kind.spec_code()];
        let first = payload_tuple(change.old_tuple);
        let last = payload_tuple(change.new_tuple);
        assert(input == relation + (code + (first + (last + rest))));
        lemma_regrouped(relation, code, first, last, rest);
    }
}

proof fn lemma_parse_changes(changes: Seq<RowChangeView>, rest: Seq<u8>)
    requires
        first_oversize(changes) is None,
    ensures
        parse_changes(payload_changes(changes) + rest, changes.len()) == Ok::<
            (Seq<RowChangeView>, Seq<u8>),
            JournalError,
        >((changes, rest)),
    decreases changes.len(),
{
    if changes.len() == 0 {
        assert(payload_changes(changes) + rest =~= rest);
        assert(changes =~= Seq::empty());
    } else {
        let tail = changes.drop_first();
        assert(payload_changes(changes) + rest =~= payload_change(changes[0]) + (payload_changes(
            tail,
        ) + rest));
        lemma_parse_change(changes[0], payload_changes(tail) + rest);
        lemma_parse_changes(tail, rest);
        assert(seq![changes[0]] + tail =~= changes);
    }
}

proof fn lemma_parse_changes_inverse(input: Seq<u8>, count: nat)
    ensures
        parse_changes(input, count) matches Ok((changes, rest)) ==> {
            &&& input == payload_changes(changes) + rest
            &&& changes.len() == count
            &&& first_oversize(changes) is None
        },
    decreases count,
{
    if let Ok((changes, rest)) = parse_changes(input, count) {
        if count == 0 {
            assert(input =~= payload_changes(changes) + rest);
        } else {
            lemma_parse_change_inverse(input);
            let (change, middle) = parse_change(input)->Ok_0;
            lemma_parse_changes_inverse(middle, (count - 1) as nat);
            let tail = parse_changes(middle, (count - 1) as nat)->Ok_0.0;
            assert(changes =~= seq![change] + tail);
            assert(changes.drop_first() =~= tail);
            assert(input =~= payload_changes(changes) + rest);
        }
    }
}

/// Whether a transaction can be stored: its positions are ordered, it respects the payload
/// limits, and its payload fits a record.
pub open spec fn storable(batch: BatchView) -> bool {
    &&& batch.ordered()
    &&& encoded(batch) is Ok
    &&& payload(batch).len() <= MAX_RECORD_BYTES
}

/// Decoding the payload of a transaction that respects the limits gives that transaction.
pub proof fn law_payload_round_trip(batch: BatchView)
    requires
        batch.ordered(),
        encoded(batch) is Ok,
    ensures
        parse_payload(payload(batch)) == Ok::<BatchView, JournalError>(batch),
{
    reveal(parse_payload);
    lemma_pow256_values();
    let counted = le_bytes(batch.changes.len(), 4) + payload_changes(batch.changes);
    let ended = le_bytes(batch.end_lsn.0 as nat, 8) + counted;
    let committed = le_bytes(batch.commit_lsn.0 as nat, 8) + ended;
    let begun = le_bytes(batch.final_lsn.0 as nat, 8) + committed;
    lemma_next_le_of_le_bytes(batch.xid as nat, 4, begun);
    lemma_next_le_of_le_bytes(batch.final_lsn.0 as nat, 8, committed);
    lemma_next_le_of_le_bytes(batch.commit_lsn.0 as nat, 8, ended);
    lemma_next_le_of_le_bytes(batch.end_lsn.0 as nat, 8, counted);
    lemma_next_le_of_le_bytes(batch.changes.len(), 4, payload_changes(batch.changes));
    lemma_parse_changes(batch.changes, Seq::empty());
    assert(payload_changes(batch.changes) + Seq::<u8>::empty() =~= payload_changes(
        batch.changes,
    ));
}

/// A payload that decodes is the one payload of its transaction, which respects the limits.
pub proof fn law_payload_is_canonical(input: Seq<u8>)
    ensures
        parse_payload(input) matches Ok(batch) ==> {
            &&& input == payload(batch)
            &&& batch.ordered()
            &&& encoded(batch) is Ok
        },
{
    reveal(parse_payload);
    if let Ok(batch) = parse_payload(input) {
        lemma_pow256_values();
        lemma_next_le_inverse(input, 4);
        let begun = next_le(input, 4)->Some_0.1;
        lemma_next_le_inverse(begun, 8);
        let committed = next_le(begun, 8)->Some_0.1;
        lemma_next_le_inverse(committed, 8);
        let ended = next_le(committed, 8)->Some_0.1;
        lemma_next_le_inverse(ended, 8);
        let counted = next_le(ended, 8)->Some_0.1;
        lemma_next_le_inverse(counted, 4);
        let (count, listed) = next_le(counted, 4)->Some_0;
        lemma_parse_changes_inverse(listed, count);
        let rest = parse_changes(listed, count)->Ok_0.1;
        assert(payload_changes(batch.changes) + rest =~= payload_changes(batch.changes));
    }
}

// ---------------------------------------------------------------------------------------------
// Record framing
// ---------------------------------------------------------------------------------------------

/// The record header of a transaction.
pub open spec fn record_header(batch: BatchView) -> Seq<u8> {
    MAGIC@ + le_bytes(VERSION as nat, 2) + le_bytes(0, 2) + le_bytes(payload(batch).len(), 8)
        + le_bytes(batch.commit_lsn.0 as nat, 8) + le_bytes(batch_fingerprint(batch) as nat, 8)
}

/// The record of a transaction: header, payload and payload checksum.
pub open spec fn record(batch: BatchView) -> Seq<u8> {
    record_header(batch) + payload(batch) + le_bytes(crc32c_of(payload(batch)) as nat, 4)
}

/// The number in the bytes `start..end` of `input`.
pub open spec fn field(input: Seq<u8>, start: int, end: int) -> nat {
    crate::cdc::wire::le_value(input.subrange(start, end))
}

/// The record at the start of `rest` with its length; `None` where `rest` ends inside it.
pub open spec fn read_record(rest: Seq<u8>, offset: u64) -> Result<
    Option<(BatchView, nat)>,
    JournalError,
> {
    if rest.len() < HEADER_LEN {
        Ok(None)
    } else if rest.subrange(0, 4) != MAGIC@ {
        Err(JournalError::InvalidMagic(offset))
    } else if field(rest, 4, 6) != VERSION {
        Err(JournalError::UnsupportedVersion(field(rest, 4, 6) as u16))
    } else if field(rest, 8, 16) > MAX_RECORD_BYTES {
        Err(JournalError::RecordTooLarge((MAX_RECORD_BYTES + 1) as usize))
    } else {
        let end = HEADER_LEN + field(rest, 8, 16);
        if rest.len() < end + CRC_LEN {
            Ok(None)
        } else {
            let body = rest.subrange(HEADER_LEN as int, end as int);
            if crc32c_of(body) != field(rest, end as int, end + CRC_LEN) {
                Err(JournalError::ChecksumMismatch(offset))
            } else {
                match parse_payload(body) {
                    Err(error) => Err(error),
                    Ok(batch) => if batch.commit_lsn.0 != field(rest, 16, 24) || batch_fingerprint(
                        batch,
                    ) != field(rest, 24, 32) {
                        Err(JournalError::HeaderPayloadMismatch(offset))
                    } else {
                        Ok(Some((batch, (end + CRC_LEN) as nat)))
                    },
                }
            }
        }
    }
}

/// The transactions of `contents` from `offset` on. Where the contents end inside a record,
/// a lenient scan reports where that record starts and a strict scan fails.
pub open spec fn scanned(contents: Seq<u8>, offset: nat, lenient: bool) -> Result<
    (Seq<BatchView>, Option<u64>),
    JournalError,
>
    decreases contents.len() - offset,
{
    if offset >= contents.len() {
        Ok((Seq::empty(), None))
    } else {
        match read_record(contents.skip(offset as int), offset as u64) {
            Err(error) => Err(error),
            Ok(None) => if lenient {
                Ok((Seq::empty(), Some(offset as u64)))
            } else {
                Err(JournalError::IncompleteTail(offset as u64))
            },
            Ok(Some((batch, len))) => if len == 0 {
                Ok((Seq::empty(), None))
            } else {
                followed(seq![batch], scanned(contents, offset + len, lenient))
            },
        }
    }
}

/// `done` put in front of a scan result.
pub open spec fn followed(
    done: Seq<BatchView>,
    more: Result<(Seq<BatchView>, Option<u64>), JournalError>,
) -> Result<(Seq<BatchView>, Option<u64>), JournalError> {
    match more {
        Ok((batches, torn)) => Ok((done + batches, torn)),
        Err(error) => Err(error),
    }
}

/// The contents of a list of transactions, in order.
pub open spec fn batches_view(batches: Seq<TransactionBatch>) -> Seq<BatchView> {
    Seq::new(batches.len(), |i: int| batches[i]@)
}

fn header_field(rest: &[u8], start: usize, end: usize) -> (value: u64)
    requires
        start <= end <= rest@.len(),
        end - start <= 8,
    ensures
        value as nat == field(rest@, start as int, end as int),
        value < pow256((end - start) as nat),
{
    let bytes = vstd::slice::slice_subrange(rest, start, end);
    proof {
        crate::cdc::wire::lemma_le_value_bound(bytes@);
    }
    read_le(bytes)
}

/// Reads the record at the start of `rest`, which lies at `offset` in the journal.
fn next_record(rest: &[u8], offset: u64) -> (result: Result<
    Option<(TransactionBatch, usize)>,
    JournalError,
>)
    ensures
        match result {
            Ok(None) => read_record(rest@, offset) == Ok::<
                Option<(BatchView, nat)>,
                JournalError,
            >(None),
            Ok(Some((batch, len))) => {
                &&& read_record(rest@, offset) == Ok::<Option<(BatchView, nat)>, JournalError>(
                    Some((batch@, len as nat)),
                )
                &&& 0 < len <= rest@.len()
            },
            Err(error) => read_record(rest@, offset) == Err::<
                Option<(BatchView, nat)>,
                JournalError,
            >(error),
        },
{
    proof {
        lemma_pow256_values();
    }
    if rest.len() < HEADER_LEN {
        return Ok(None);
    }
    let magic: [u8; 4] = MAGIC;
    if !same_bytes(vstd::slice::slice_subrange(rest, 0, 4), magic.as_slice()) {
        return Err(JournalError::InvalidMagic(offset));
    }
    let version: u16 = header_field(rest, 4, 6) as u16;
    if version != VERSION {
        return Err(JournalError::UnsupportedVersion(version));
    }
    let payload_len: u64 = header_field(rest, 8, 16);
    if payload_len > MAX_RECORD_BYTES as u64 {
        return Err(JournalError::RecordTooLarge(MAX_RECORD_BYTES + 1));
    }
    let end: usize = HEADER_LEN + payload_len as usize;
    let total: usize = end + CRC_LEN;
    if rest.len() < total {
        return Ok(None);
    }
    let body = vstd::slice::slice_subrange(rest, HEADER_LEN, end);
    if crc32c(body) as u64 != header_field(rest, end, total) {
        return Err(JournalError::ChecksumMismatch(offset));
    }
    let batch = decode_batch(body)?;
    if batch.commit_lsn().get() != header_field(rest, 16, 24) || batch.fingerprint()
        != header_field(rest, 24, 32) {
        return Err(JournalError::HeaderPayloadMismatch(offset));
    }
    Ok(Some((batch, total)))
}

/// Reads every transaction of a journal. A journal that ends inside a record yields the offset
/// of that record where `lenient`, and an error otherwise.
#[verifier::loop_isolation(false)]
pub fn scan(contents: &[u8], lenient: bool) -> (result: Result<
    (Vec<TransactionBatch>, Option<u64>),
    JournalError,
>)
    ensures
        match result {
            Ok((batches, torn)) => scanned(contents@, 0, lenient) == Ok::<
                (Seq<BatchView>, Option<u64>),
                JournalError,
            >((batches_view(batches@), torn)),
            Err(error) => scanned(contents@, 0, lenient) == Err::<
                (Seq<BatchView>, Option<u64>),
                JournalError,
            >(error),
        },
{
    let mut batches: Vec<TransactionBatch> = Vec::new();
    let mut offset: usize = 0;
    assert(batches_view(batches@) =~= Seq::empty());
    proof {
        let all = scanned(contents@, 0, lenient);
        if all is Ok {
            assert(Seq::<BatchView>::empty() + all->Ok_0.0 =~= all->Ok_0.0);
        }
    }
    while offset < contents.len()
        invariant
            offset <= contents@.len(),
            scanned(contents@, 0, lenient) == followed(
                batches_view(batches@),
                scanned(contents@, offset as nat, lenient),
            ),
        decreases contents@.len() - offset,
    {
        let rest = vstd::slice::slice_subrange(contents, offset, contents.len());
        assert(rest@ =~= contents@.skip(offset as int));
        match next_record(rest, offset as u64)? {
            None => {
                if lenient {
                    assert(batches_view(batches@) + Seq::<BatchView>::empty() =~= batches_view(
                        batches@,
                    ));
                    return Ok((batches, Some(offset as u64)));
                }
                return Err(JournalError::IncompleteTail(offset as u64));
            },
            Some((batch, len)) => {
                let ghost done = batches_view(batches@);
                proof {
                    let more = scanned(contents@, (offset + len) as nat, lenient);
                    if more is Ok {
                        assert(done + (seq![batch@] + more->Ok_0.0) =~= done.push(batch@)
                            + more->Ok_0.0);
                    }
                }
                batches.push(batch);
                assert(batches_view(batches@) =~= done.push(batch@));
                offset = offset + len;
            },
        }
    }
    assert(batches_view(batches@) + Seq::<BatchView>::empty() =~= batches_view(batches@));
    Ok((batches, None))
}

/// The bytes that store a transaction, or the limit that it breaks.
pub open spec fn stored(batch: BatchView) -> Result<Seq<u8>, JournalError> {
    match encoded(batch) {
        Err(error) => Err(error),
        Ok(bytes) => if bytes.len() > MAX_RECORD_BYTES {
            Err(JournalError::RecordTooLarge(bytes.len() as usize))
        } else {
            Ok(record(batch))
        },
    }
}

/// Frames a transaction as one journal record.
pub fn encode_record(batch: &TransactionBatch) -> (result: Result<Vec<u8>, JournalError>)
    ensures
        match result {
            Ok(bytes) => stored(batch@) == Ok::<Seq<u8>, JournalError>(bytes@),
            Err(error) => stored(batch@) == Err::<Seq<u8>, JournalError>(error),
        },
{
    let body = encode_batch(batch)?;
    if body.len() > MAX_RECORD_BYTES {
        return Err(JournalError::RecordTooLarge(body.len()));
    }
    let magic: [u8; 4] = MAGIC;
    let mut out: Vec<u8> = Vec::new();
    put_bytes(&mut out, magic.as_slice());
    put_u16(&mut out, VERSION);
    put_u16(&mut out, 0);
    put_u64(&mut out, body.len() as u64);
    put_u64(&mut out, batch.commit_lsn().get());
    put_u64(&mut out, batch.fingerprint());
    assert(out@ =~= record_header(batch@));
    put_bytes(&mut out, body.as_slice());
    put_u32(&mut out, crc32c(body.as_slice()));
    Ok(out)
}

// ---------------------------------------------------------------------------------------------
// Journal laws
// ---------------------------------------------------------------------------------------------

proof fn lemma_record_fields(batch: BatchView, more: Seq<u8>)
    ensures
        ({
            let input = record(batch) + more;
            let end = HEADER_LEN + payload(batch).len();
            &&& record(batch).len() == end + CRC_LEN
            &&& input.subrange(0, 4) == MAGIC@
            &&& input.subrange(4, 6) == le_bytes(VERSION as nat, 2)
            &&& input.subrange(8, 16) == le_bytes(payload(batch).len(), 8)
            &&& input.subrange(16, 24) == le_bytes(batch.commit_lsn.0 as nat, 8)
            &&& input.subrange(24, 32) == le_bytes(batch_fingerprint(batch) as nat, 8)
            &&& input.subrange(HEADER_LEN as int, end) == payload(batch)
            &&& input.subrange(end, end + CRC_LEN) == le_bytes(
                crc32c_of(payload(batch)) as nat,
                4,
            )
        }),
{
    broadcast use lemma_le_bytes_len;

    let input = record(batch) + more;
    let end = HEADER_LEN + payload(batch).len();
    assert(MAGIC@.len() == 4);
    assert(input.subrange(0, 4) =~= MAGIC@);
    assert(input.subrange(4, 6) =~= le_bytes(VERSION as nat, 2));
    assert(input.subrange(8, 16) =~= le_bytes(payload(batch).len(), 8));
    assert(input.subrange(16, 24) =~= le_bytes(batch.commit_lsn.0 as nat, 8));
    assert(input.subrange(24, 32) =~= le_bytes(batch_fingerprint(batch) as nat, 8));
    assert(input.subrange(HEADER_LEN as int, end) =~= payload(batch));
    assert(input.subrange(end, end + CRC_LEN) =~= le_bytes(crc32c_of(payload(batch)) as nat, 4));
}

proof fn lemma_record_field_values(batch: BatchView)
    requires
        storable(batch),
    ensures
        crate::cdc::wire::le_value(le_bytes(VERSION as nat, 2)) == VERSION,
        crate::cdc::wire::le_value(le_bytes(payload(batch).len(), 8)) == payload(batch).len(),
        crate::cdc::wire::le_value(le_bytes(batch.commit_lsn.0 as nat, 8)) == batch.commit_lsn.0,
        crate::cdc::wire::le_value(le_bytes(batch_fingerprint(batch) as nat, 8))
            == batch_fingerprint(batch),
        crate::cdc::wire::le_value(le_bytes(crc32c_of(payload(batch)) as nat, 4)) == crc32c_of(
            payload(batch),
        ),
{
    lemma_pow256_values();
    crate::cdc::wire::lemma_le_value_of_le_bytes(VERSION as nat, 2);
    crate::cdc::wire::lemma_le_value_of_le_bytes(payload(batch).len(), 8);
    crate::cdc::wire::lemma_le_value_of_le_bytes(batch.commit_lsn.0 as nat, 8);
    crate::cdc::wire::lemma_le_value_of_le_bytes(batch_fingerprint(batch) as nat, 8);
    crate::cdc::wire::lemma_le_value_of_le_bytes(crc32c_of(payload(batch)) as nat, 4);
}

proof fn lemma_read_record(batch: BatchView, more: Seq<u8>, offset: u64)
    requires
        storable(batch),
    ensures
        read_record(record(batch) + more, offset) == Ok::<Option<(BatchView, nat)>, JournalError>(
            Some((batch, record(batch).len())),
        ),
{
    lemma_record_fields(batch, more);
    lemma_record_field_values(batch);
    law_payload_round_trip(batch);
}

proof fn lemma_read_torn_record(batch: BatchView, len: nat, offset: u64)
    requires
        storable(batch),
        len < record(batch).len(),
    ensures
        read_record(record(batch).take(len as int), offset) == Ok::<
            Option<(BatchView, nat)>,
            JournalError,
        >(None),
{
    let torn = record(batch).take(len as int);
    if len >= HEADER_LEN {
        lemma_record_fields(batch, Seq::empty());
        lemma_record_field_values(batch);
        let whole = record(batch) + Seq::<u8>::empty();
        assert(torn.subrange(0, 4) =~= whole.subrange(0, 4));
        assert(torn.subrange(4, 6) =~= whole.subrange(4, 6));
        assert(torn.subrange(8, 16) =~= whole.subrange(8, 16));
    }
}

#[verifier::rlimit(40)]
proof fn lemma_read_record_keeps(rest: Seq<u8>, more: Seq<u8>, offset: u64)
    ensures
        read_record(rest, offset) matches Ok(Some((_, len))) ==> 0 < len <= rest.len()
            && read_record(rest + more, offset) == read_record(rest, offset),
{
    if let Ok(Some((_, len))) = read_record(rest, offset) {
        let both = rest + more;
        let end = HEADER_LEN + field(rest, 8, 16);
        assert(both.subrange(0, 4) =~= rest.subrange(0, 4));
        assert(both.subrange(4, 6) =~= rest.subrange(4, 6));
        assert(both.subrange(8, 16) =~= rest.subrange(8, 16));
        assert(both.subrange(16, 24) =~= rest.subrange(16, 24));
        assert(both.subrange(24, 32) =~= rest.subrange(24, 32));
        assert(both.subrange(HEADER_LEN as int, end) =~= rest.subrange(HEADER_LEN as int, end));
        assert(both.subrange(end, end + CRC_LEN) =~= rest.subrange(end, end + CRC_LEN));
    }
}

proof fn lemma_scan_continues(contents: Seq<u8>, tail: Seq<u8>, offset: nat, lenient: bool)
    requires
        offset <= contents.len(),
    ensures
        scanned(contents, offset, true) matches Ok((batches, None)) ==> scanned(
            contents + tail,
            offset,
            lenient,
        ) == followed(batches, scanned(contents + tail, contents.len(), lenient)),
    decreases contents.len() - offset,
{
    if let Ok((batches, None)) = scanned(contents, offset, true) {
        let rest_of_scan = scanned(contents + tail, contents.len(), lenient);
        if offset == contents.len() {
            if rest_of_scan is Ok {
                assert(Seq::<BatchView>::empty() + rest_of_scan->Ok_0.0
                    =~= rest_of_scan->Ok_0.0);
            }
        } else {
            let here = contents.skip(offset as int);
            assert((contents + tail).skip(offset as int) =~= here + tail);
            lemma_read_record_keeps(here, tail, offset as u64);
            let (batch, len) = read_record(here, offset as u64)->Ok_0->Some_0;
            lemma_scan_continues(contents, tail, offset + len, lenient);
            let after = scanned(contents, offset + len, true)->Ok_0.0;
            if rest_of_scan is Ok {
                assert(seq![batch] + (after + rest_of_scan->Ok_0.0) =~= seq![batch] + after
                    + rest_of_scan->Ok_0.0);
            }
        }
    }
}

/// Appending the record of a storable transaction to a whole journal adds exactly that
/// transaction, last, to what the journal replays.
pub proof fn law_replay_returns_what_was_appended(
    contents: Seq<u8>,
    batch: BatchView,
    lenient: bool,
)
    requires
        storable(batch),
    ensures
        scanned(contents, 0, true) matches Ok((batches, None)) ==> scanned(
            contents + record(batch),
            0,
            lenient,
        ) == Ok::<(Seq<BatchView>, Option<u64>), JournalError>((batches.push(batch), None)),
{
    if let Ok((batches, None)) = scanned(contents, 0, true) {
        let longer = contents + record(batch);
        lemma_scan_continues(contents, record(batch), 0, lenient);
        assert(longer.skip(contents.len() as int) =~= record(batch) + Seq::<u8>::empty());
        lemma_record_fields(batch, Seq::empty());
        lemma_read_record(batch, Seq::empty(), contents.len() as u64);
        assert(scanned(longer, contents.len() + record(batch).len(), lenient) == Ok::<
            (Seq<BatchView>, Option<u64>),
            JournalError,
        >((Seq::empty(), None)));
        assert(seq![batch] + Seq::<BatchView>::empty() =~= seq![batch]);
        assert(batches + seq![batch] =~= batches.push(batch));
    }
}

/// A whole journal followed by any proper, non-empty prefix of a record: recovery keeps every
/// complete transaction and cuts the journal where the torn record starts; a strict replay
/// refuses the journal there.
pub proof fn law_torn_record_is_cut_off(contents: Seq<u8>, batch: BatchView, len: nat)
    requires
        storable(batch),
        0 < len < record(batch).len(),
    ensures
        scanned(contents, 0, true) matches Ok((batches, None)) ==> {
            &&& scanned(contents + record(batch).take(len as int), 0, true) == Ok::<
                (Seq<BatchView>, Option<u64>),
                JournalError,
            >((batches, Some(contents.len() as u64)))
            &&& scanned(contents + record(batch).take(len as int), 0, false) == Err::<
                (Seq<BatchView>, Option<u64>),
                JournalError,
            >(JournalError::IncompleteTail(contents.len() as u64))
        },
{
    if let Ok((batches, None)) = scanned(contents, 0, true) {
        let torn = record(batch).take(len as int);
        let longer = contents + torn;
        lemma_scan_continues(contents, torn, 0, true);
        lemma_scan_continues(contents, torn, 0, false);
        assert(longer.skip(contents.len() as int) =~= torn);
        lemma_read_torn_record(batch, len, contents.len() as u64);
        assert(batches + Seq::<BatchView>::empty() =~= batches);
    }
}

proof fn lemma_scan_prefix(contents: Seq<u8>, offset: nat)
    requires
        offset <= contents.len() <= u64::MAX,
    ensures
        scanned(contents, offset, true) matches Ok((batches, Some(cut))) ==> {
            &&& offset <= cut < contents.len()
            &&& scanned(contents.take(cut as int), offset, true) == Ok::<
                (Seq<BatchView>, Option<u64>),
                JournalError,
            >((batches, None))
        },
    decreases contents.len() - offset,
{
    if let Ok((batches, Some(cut))) = scanned(contents, offset, true) {
        let here = contents.skip(offset as int);
        if let Ok(Some((batch, len))) = read_record(here, offset as u64) {
            lemma_read_record_keeps(here, Seq::empty(), offset as u64);
            lemma_scan_prefix(contents, offset + len);
            let kept = contents.take(cut as int);
            lemma_scan_within(contents, offset, cut as nat);
            assert(kept.skip(offset as int) =~= here.take(cut - offset));
        }
    }
}

#[verifier::rlimit(40)]
proof fn lemma_scan_within(contents: Seq<u8>, offset: nat, cut: nat)
    requires
        offset + field(contents.skip(offset as int), 8, 16) + HEADER_LEN + CRC_LEN <= cut
            <= contents.len(),
        read_record(contents.skip(offset as int), offset as u64) matches Ok(Some(_)),
    ensures
        read_record(contents.take(cut as int).skip(offset as int), offset as u64) == read_record(
            contents.skip(offset as int),
            offset as u64,
        ),
{
    let here = contents.skip(offset as int);
    let kept = contents.take(cut as int).skip(offset as int);
    let end = HEADER_LEN + field(here, 8, 16);
    assert(kept.subrange(0, 4) =~= here.subrange(0, 4));
    assert(kept.subrange(4, 6) =~= here.subrange(4, 6));
    assert(kept.subrange(8, 16) =~= here.subrange(8, 16));
    assert(kept.subrange(16, 24) =~= here.subrange(16, 24));
    assert(kept.subrange(24, 32) =~= here.subrange(24, 32));
    assert(kept.subrange(HEADER_LEN as int, end) =~= here.subrange(HEADER_LEN as int, end));
    assert(kept.subrange(end, end + CRC_LEN) =~= here.subrange(end, end + CRC_LEN));
}

/// Cutting a journal where recovery says leaves a whole journal with the same transactions.
pub proof fn law_recovery_leaves_a_whole_journal(contents: Seq<u8>)
    requires
        contents.len() <= u64::MAX,
    ensures
        scanned(contents, 0, true) matches Ok((batches, Some(cut))) ==> {
            &&& cut < contents.len()
            &&& scanned(contents.take(cut as int), 0, true) == Ok::<
                (Seq<BatchView>, Option<u64>),
                JournalError,
            >((batches, None))
        },
{
    lemma_scan_prefix(contents, 0);
}

// ---------------------------------------------------------------------------------------------
// Redelivery detection
// ---------------------------------------------------------------------------------------------

/// Whether a transaction is new or already durable.
#[derive(Clone, Copy, Debug, PartialEq, Eq, Structural)]
pub enum ReplayDecision {
    Apply,
    Duplicate,
}

/// How a transaction relates to the fingerprints of the durable ones, by commit position.
pub open spec fn classified(known: Map<u64, u64>, batch: BatchView) -> Result<
    ReplayDecision,
    JournalError,
> {
    if !known.contains_key(batch.commit_lsn.0) {
        Ok(ReplayDecision::Apply)
    } else if known[batch.commit_lsn.0] == batch_fingerprint(batch) {
        Ok(ReplayDecision::Duplicate)
    } else {
        Err(JournalError::ConflictingReplay(batch.commit_lsn))
    }
}

/// The known fingerprints with one more transaction.
pub open spec fn noted(known: Map<u64, u64>, batch: BatchView) -> Map<u64, u64> {
    known.insert(batch.commit_lsn.0, batch_fingerprint(batch))
}

/// Detects redelivery and refuses different contents under one commit position.
#[derive(Debug)]
pub struct ReplayGuard {
    fingerprints: std::collections::BTreeMap<u64, u64>,
}

impl View for ReplayGuard {
    type V = Map<u64, u64>;

    closed spec fn view(&self) -> Map<u64, u64> {
        self.fingerprints@
    }
}

/// `lsn` is the highest commit position in `known`, or zero where there is none.
pub open spec fn is_highest(known: Map<u64, u64>, lsn: u64) -> bool {
    &&& forall|other: u64| #[trigger] known.contains_key(other) ==> other <= lsn
    &&& known.contains_key(lsn) || lsn == 0
}

impl ReplayGuard {
    /// A guard that knows no transaction.
    pub fn new() -> (guard: Self)
        ensures
            guard@ == Map::<u64, u64>::empty(),
    {
        ReplayGuard { fingerprints: std::collections::BTreeMap::new() }
    }

    /// How a transaction relates to the known ones.
    pub fn classify(&self, batch: &TransactionBatch) -> (result: Result<
        ReplayDecision,
        JournalError,
    >)
        ensures
            result == classified(self@, batch@),
    {
        broadcast use vstd::std_specs::btree::group_btree_axioms;

        let lsn = batch.commit_lsn();
        let fingerprint: u64 = batch.fingerprint();
        match self.fingerprints.get(&lsn.0) {
            Some(existing) => if *existing == fingerprint {
                Ok(ReplayDecision::Duplicate)
            } else {
                Err(JournalError::ConflictingReplay(lsn))
            },
            None => Ok(ReplayDecision::Apply),
        }
    }

    /// Notes a transaction as known.
    pub fn record(&mut self, batch: &TransactionBatch)
        ensures
            final(self)@ == noted(old(self)@, batch@),
    {
        broadcast use vstd::std_specs::btree::group_btree_axioms;

        self.fingerprints.insert(batch.commit_lsn().0, batch.fingerprint());
    }

    /// Classifies a transaction and notes it where it is new.
    pub fn observe(&mut self, batch: &TransactionBatch) -> (result: Result<
        ReplayDecision,
        JournalError,
    >)
        ensures
            result == classified(old(self)@, batch@),
            final(self)@ == if result == Ok::<ReplayDecision, JournalError>(
                ReplayDecision::Apply,
            ) {
                noted(old(self)@, batch@)
            } else {
                old(self)@
            },
    {
        let decision = self.classify(batch)?;
        if decision == ReplayDecision::Apply {
            self.record(batch);
        }
        Ok(decision)
    }

    /// The highest known commit position, zero where none is known.
    pub fn highest_commit_lsn(&self) -> (lsn: LogSequenceNumber)
        ensures
            is_highest(self@, lsn.0),
    {
        broadcast use vstd::std_specs::btree::group_btree_axioms;

        let mut highest: u64 = 0;
        let ghost known = self.fingerprints@;
        for key in iter: self.fingerprints.keys()
            invariant
                known == self.fingerprints@,
                iter.seq().unref().to_set() == known.dom(),
                forall|i: int| 0 <= i < iter.index() ==> *(#[trigger] iter.seq()[i]) <= highest,
                known.contains_key(highest) || highest == 0,
        {
            proof {
                let here = iter.seq().unref();
                assert(here[iter.index()] == *key);
                assert(here.to_set().contains(*key));
            }
            if *key > highest {
                highest = *key;
            }
        }
        LogSequenceNumber(highest)
    }
}

impl Default for ReplayGuard {
    fn default() -> (guard: Self)
        ensures
            guard@ == Map::<u64, u64>::empty(),
    {
        ReplayGuard::new()
    }
}


// ---------------------------------------------------------------------------------------------
// Journal
// ---------------------------------------------------------------------------------------------

/// The fingerprints of `batches` on top of `known`; fails where two share a commit position.
pub open spec fn recovered(known: Map<u64, u64>, batches: Seq<BatchView>) -> Result<
    Map<u64, u64>,
    JournalError,
>
    decreases batches.len(),
{
    if batches.len() == 0 {
        Ok(known)
    } else {
        match classified(known, batches[0]) {
            Err(error) => Err(error),
            Ok(ReplayDecision::Duplicate) => Err(
                JournalError::DuplicateDurableRecord(batches[0].commit_lsn),
            ),
            Ok(ReplayDecision::Apply) => recovered(
                noted(known, batches[0]),
                batches.drop_first(),
            ),
        }
    }
}

/// What appending a transaction takes.
#[derive(Clone, Debug, PartialEq, Eq)]
pub enum JournalAppend {
    /// The exact transaction is durable already; nothing is written.
    Duplicate,
    /// These bytes have to be written and synchronised; `Journal::confirm` then notes the
    /// transaction as durable.
    Write(Vec<u8>),
}

/// State of an append-only journal of complete transactions, apart from its file.
#[derive(Debug)]
pub struct Journal {
    guard: ReplayGuard,
}

impl View for Journal {
    type V = Map<u64, u64>;

    closed spec fn view(&self) -> Map<u64, u64> {
        self.guard@
    }
}

impl Journal {
    /// The journal that holds `batches`.
    pub fn recover(batches: &Vec<TransactionBatch>) -> (result: Result<Self, JournalError>)
        ensures
            match result {
                Ok(journal) => recovered(Map::empty(), batches_view(batches@)) == Ok::<
                    Map<u64, u64>,
                    JournalError,
                >(journal@),
                Err(error) => recovered(Map::empty(), batches_view(batches@)) == Err::<
                    Map<u64, u64>,
                    JournalError,
                >(error),
            },
    {
        let ghost views = batches_view(batches@);
        let mut guard = ReplayGuard::new();
        let mut index: usize = 0;
        assert(views.skip(0) =~= views);
        while index < batches.len()
            invariant
                index <= batches@.len(),
                views == batches_view(batches@),
                recovered(Map::empty(), views) == recovered(guard@, views.skip(index as int)),
            decreases batches@.len() - index,
        {
            let ghost left = views.skip(index as int);
            assert(left[0] == batches@[index as int]@);
            assert(left.drop_first() =~= views.skip(index + 1));
            let batch = &batches[index];
            let decision = guard.observe(batch)?;
            if decision != ReplayDecision::Apply {
                return Err(JournalError::DuplicateDurableRecord(batch.commit_lsn()));
            }
            index = index + 1;
        }
        Ok(Journal { guard })
    }

    /// Opens a journal with these contents. The second part of the result is where the contents
    /// have to be cut, for contents that end inside a record.
    pub fn open(contents: &[u8]) -> (result: Result<(Self, Option<u64>), JournalError>)
        ensures
            match (result, scanned(contents@, 0, true)) {
                (Ok((journal, cut)), Ok((batches, torn))) => recovered(Map::empty(), batches)
                    == Ok::<Map<u64, u64>, JournalError>(journal@) && cut == torn,
                (Err(error), Ok((batches, _))) => recovered(Map::empty(), batches) == Err::<
                    Map<u64, u64>,
                    JournalError,
                >(error),
                (Err(error), Err(expected)) => error == expected,
                (Ok(_), Err(_)) => false,
            },
    {
        let (batches, cut) = scan(contents, true)?;
        let journal = Journal::recover(&batches)?;
        Ok((journal, cut))
    }

    /// Decides how to append a transaction. Nothing is noted as durable yet.
    pub fn append(&self, batch: &TransactionBatch) -> (result: Result<JournalAppend, JournalError>)
        ensures
            match classified(self@, batch@) {
                Err(error) => result == Err::<JournalAppend, JournalError>(error),
                Ok(ReplayDecision::Duplicate) => result == Ok::<JournalAppend, JournalError>(
                    JournalAppend::Duplicate,
                ),
                Ok(ReplayDecision::Apply) => match stored(batch@) {
                    Err(error) => result == Err::<JournalAppend, JournalError>(error),
                    Ok(bytes) => result matches Ok(JournalAppend::Write(out)) && out@ == bytes,
                },
            },
    {
        match self.guard.classify(batch)? {
            ReplayDecision::Duplicate => Ok(JournalAppend::Duplicate),
            ReplayDecision::Apply => {
                let out = encode_record(batch)?;
                Ok(JournalAppend::Write(out))
            },
        }
    }

    /// Notes a transaction as durable, once its record is written and synchronised.
    pub fn confirm(&mut self, batch: &TransactionBatch)
        ensures
            final(self)@ == noted(old(self)@, batch@),
    {
        self.guard.record(batch);
    }

    /// The highest durable commit position, zero for an empty journal.
    pub fn highest_commit_lsn(&self) -> (lsn: LogSequenceNumber)
        ensures
            is_highest(self@, lsn.0),
    {
        self.guard.highest_commit_lsn()
    }

    /// Every transaction of a journal with these contents, in order of appending.
    pub fn replay(contents: &[u8]) -> (result: Result<Vec<TransactionBatch>, JournalError>)
        ensures
            match (result, scanned(contents@, 0, false)) {
                (Ok(batches), Ok((expected, _))) => batches_view(batches@) == expected,
                (Err(error), Err(expected)) => error == expected,
                _ => false,
            },
    {
        let (batches, _) = scan(contents, false)?;
        Ok(batches)
    }
}

proof fn lemma_recovered_knows(known: Map<u64, u64>, batches: Seq<BatchView>)
    ensures
        recovered(known, batches) matches Ok(after) ==> {
            &&& known.submap_of(after)
            &&& forall|i: int|
                0 <= i < batches.len() ==> {
                    &&& !known.contains_key((#[trigger] batches[i]).commit_lsn.0)
                    &&& after.contains_key(batches[i].commit_lsn.0)
                    &&& after[batches[i].commit_lsn.0] == batch_fingerprint(batches[i])
                }
            &&& forall|i: int, j: int|
                0 <= i < j < batches.len() ==> (#[trigger] batches[i]).commit_lsn != (
                #[trigger] batches[j]).commit_lsn
            &&& forall|lsn: u64| #[trigger]
                after.contains_key(lsn) ==> known.contains_key(lsn) || exists|i: int|
                    0 <= i < batches.len() && (#[trigger] batches[i]).commit_lsn.0 == lsn
        },
    decreases batches.len(),
{
    if batches.len() > 0 {
        if let Ok(after) = recovered(known, batches) {
            let tail = batches.drop_first();
            let next = noted(known, batches[0]);
            lemma_recovered_knows(next, tail);
            assert(next.contains_key(batches[0].commit_lsn.0));
            assert forall|lsn: u64| #[trigger] known.dom().contains(lsn) implies after.dom().contains(
                lsn,
            ) && known[lsn] == after[lsn] by {
                assert(lsn != batches[0].commit_lsn.0);
                assert(next.dom().contains(lsn));
                assert(next[lsn] == known[lsn]);
                assert(next.submap_of(after));
                assert(after.dom().contains(lsn));
            }
            assert(known.submap_of(after));
            assert(next.dom().contains(batches[0].commit_lsn.0));
            assert forall|i: int| 0 <= i < batches.len() implies {
                &&& !known.contains_key((#[trigger] batches[i]).commit_lsn.0)
                &&& after.contains_key(batches[i].commit_lsn.0)
                &&& after[batches[i].commit_lsn.0] == batch_fingerprint(batches[i])
            } by {
                if i > 0 {
                    assert(batches[i] == tail[i - 1]);
                }
            }
            assert forall|i: int, j: int| 0 <= i < j < batches.len() implies (
            #[trigger] batches[i]).commit_lsn != (#[trigger] batches[j]).commit_lsn by {
                assert(batches[j] == tail[j - 1]);
                if i > 0 {
                    assert(batches[i] == tail[i - 1]);
                }
            }
            assert forall|lsn: u64| #[trigger] after.contains_key(lsn) implies known.contains_key(
                lsn,
            ) || exists|i: int|
                0 <= i < batches.len() && (#[trigger] batches[i]).commit_lsn.0 == lsn by {
                if !next.contains_key(lsn) {
                    let k = choose|k: int|
                        0 <= k < tail.len() && (#[trigger] tail[k]).commit_lsn.0 == lsn;
                    assert(batches[k + 1] == tail[k]);
                } else if !known.contains_key(lsn) {
                    assert(batches[0].commit_lsn.0 == lsn);
                }
            }
        }
    }
}

/// A journal opens only where every durable transaction has a commit position of its own; it
/// then knows exactly those positions, each with the fingerprint of its transaction.
pub proof fn law_recovered_journal_knows_its_transactions(batches: Seq<BatchView>)
    ensures
        recovered(Map::empty(), batches) matches Ok(known) ==> {
            &&& forall|i: int, j: int|
                0 <= i < j < batches.len() ==> (#[trigger] batches[i]).commit_lsn != (
                #[trigger] batches[j]).commit_lsn
            &&& forall|i: int|
                0 <= i < batches.len() ==> known.contains_key(
                    (#[trigger] batches[i]).commit_lsn.0,
                ) && known[batches[i].commit_lsn.0] == batch_fingerprint(batches[i])
            &&& forall|lsn: u64| #[trigger]
                known.contains_key(lsn) ==> exists|i: int|
                    0 <= i < batches.len() && (#[trigger] batches[i]).commit_lsn.0 == lsn
        },
{
    lemma_recovered_knows(Map::empty(), batches);
}

/// Once a transaction is noted, delivering it again is a duplicate, and a transaction with the
/// same commit position and another fingerprint is refused.
pub proof fn law_redelivery_is_idempotent(known: Map<u64, u64>, batch: BatchView, other: BatchView)
    requires
        other.commit_lsn == batch.commit_lsn,
    ensures
        classified(noted(known, batch), batch) == Ok::<ReplayDecision, JournalError>(
            ReplayDecision::Duplicate,
        ),
        batch_fingerprint(other) != batch_fingerprint(batch) ==> classified(
            noted(known, batch),
            other,
        ) == Err::<ReplayDecision, JournalError>(
            JournalError::ConflictingReplay(batch.commit_lsn),
        ),
{
}

/// The name of a transaction validation error.
pub open spec fn validation_name(error: TransactionValidationError) -> Seq<char> {
    match error {
        TransactionValidationError::CommitBeforeBegin => "CommitBeforeBegin"@,
        TransactionValidationError::CommitBeforeFinal => "CommitBeforeFinal"@,
        TransactionValidationError::EndBeforeCommit => "EndBeforeCommit"@,
        TransactionValidationError::EmptyChanges => "EmptyChanges"@,
    }
}

fn validation_name_text(error: TransactionValidationError) -> (text: &'static str)
    ensures
        text@ == validation_name(error),
{
    match error {
        TransactionValidationError::CommitBeforeBegin => "CommitBeforeBegin",
        TransactionValidationError::CommitBeforeFinal => "CommitBeforeFinal",
        TransactionValidationError::EndBeforeCommit => "EndBeforeCommit",
        TransactionValidationError::EmptyChanges => "EmptyChanges",
    }
}

impl JournalError {
    /// The diagnostic text of this error.
    pub open spec fn spec_message(self) -> Seq<char> {
        match self {
            JournalError::Io(detail) => "journal I/O error: "@ + detail@,
            JournalError::InvalidMagic(at) => bracketed("InvalidMagic"@, decimal(at as int)),
            JournalError::UnsupportedVersion(version) => bracketed(
                "UnsupportedVersion"@,
                decimal(version as int),
            ),
            JournalError::CorruptHeader => "CorruptHeader"@,
            JournalError::RecordTooLarge(len) => bracketed("RecordTooLarge"@, decimal(len as int)),
            JournalError::TupleTooLarge(len) => bracketed("TupleTooLarge"@, decimal(len as int)),
            JournalError::TooManyChanges(count) => bracketed(
                "TooManyChanges"@,
                decimal(count as int),
            ),
            JournalError::IncompleteTail(at) => bracketed("IncompleteTail"@, decimal(at as int)),
            JournalError::ChecksumMismatch(at) => bracketed(
                "ChecksumMismatch"@,
                decimal(at as int),
            ),
            JournalError::HeaderPayloadMismatch(at) => bracketed(
                "HeaderPayloadMismatch"@,
                decimal(at as int),
            ),
            JournalError::UnexpectedEof => "UnexpectedEof"@,
            JournalError::LengthOverflow => "LengthOverflow"@,
            JournalError::InvalidChangeKind(code) => bracketed(
                "InvalidChangeKind"@,
                decimal(code as int),
            ),
            JournalError::InvalidOptionTag(tag) => bracketed(
                "InvalidOptionTag"@,
                decimal(tag as int),
            ),
            JournalError::TrailingBytes(count) => bracketed(
                "TrailingBytes"@,
                decimal(count as int),
            ),
            JournalError::InvalidTransaction(error) => bracketed(
                "InvalidTransaction"@,
                validation_name(error),
            ),
            JournalError::ConflictingReplay(lsn) => bracketed(
                "ConflictingReplay"@,
                lsn_name(lsn),
            ),
            JournalError::DuplicateDurableRecord(lsn) => bracketed(
                "DuplicateDurableRecord"@,
                lsn_name(lsn),
            ),
        }
    }

    /// The diagnostic text of this error.
    pub fn message(&self) -> (text: String)
        ensures
            text@ == self.spec_message(),
    {
        match self {
            JournalError::Io(detail) => joined("journal I/O error: ", detail.as_str()),
            JournalError::InvalidMagic(at) => numbered_text("InvalidMagic", *at),
            JournalError::UnsupportedVersion(version) => {
                numbered_text("UnsupportedVersion", *version as u64)
            },
            JournalError::CorruptHeader => "CorruptHeader".to_owned(),
            JournalError::RecordTooLarge(len) => numbered_text("RecordTooLarge", *len as u64),
            JournalError::TupleTooLarge(len) => numbered_text("TupleTooLarge", *len as u64),
            JournalError::TooManyChanges(count) => numbered_text("TooManyChanges", *count as u64),
            JournalError::IncompleteTail(at) => numbered_text("IncompleteTail", *at),
            JournalError::ChecksumMismatch(at) => numbered_text("ChecksumMismatch", *at),
            JournalError::HeaderPayloadMismatch(at) => {
                numbered_text("HeaderPayloadMismatch", *at)
            },
            JournalError::UnexpectedEof => "UnexpectedEof".to_owned(),
            JournalError::LengthOverflow => "LengthOverflow".to_owned(),
            JournalError::InvalidChangeKind(code) => {
                numbered_text("InvalidChangeKind", *code as u64)
            },
            JournalError::InvalidOptionTag(tag) => numbered_text("InvalidOptionTag", *tag as u64),
            JournalError::TrailingBytes(count) => numbered_text("TrailingBytes", *count as u64),
            JournalError::InvalidTransaction(error) => {
                bracketed_text("InvalidTransaction", validation_name_text(*error))
            },
            JournalError::ConflictingReplay(lsn) => {
                bracketed_text("ConflictingReplay", lsn_text(*lsn).as_str())
            },
            JournalError::DuplicateDurableRecord(lsn) => {
                bracketed_text("DuplicateDurableRecord", lsn_text(*lsn).as_str())
            },
        }
    }
}

// ---------------------------------------------------------------------------------------------
// What a journal keeps
// ---------------------------------------------------------------------------------------------

/// Whether a change has no tuple above the limit.
pub open spec fn bounded_change(change: RowChangeView) -> bool {
    &&& change.old_tuple matches Some(bytes) ==> bytes.len() <= 67_108_864
    &&& change.new_tuple matches Some(bytes) ==> bytes.len() <= 67_108_864
}

proof fn lemma_no_oversize(changes: Seq<RowChangeView>)
    ensures
        first_oversize(changes) is None <==> forall|i: int|
            0 <= i < changes.len() ==> bounded_change(#[trigger] changes[i]),
    decreases changes.len(),
{
    if changes.len() > 0 {
        let tail = changes.drop_first();
        lemma_no_oversize(tail);
        if forall|i: int| 0 <= i < changes.len() ==> bounded_change(#[trigger] changes[i]) {
            assert(bounded_change(changes[0]));
            assert forall|i: int| 0 <= i < tail.len() implies bounded_change(
                #[trigger] tail[i],
            ) by {
                assert(tail[i] == changes[i + 1]);
            }
        }
        if first_oversize(changes) is None {
            assert forall|i: int| 0 <= i < changes.len() implies bounded_change(
                #[trigger] changes[i],
            ) by {
                if i > 0 {
                    assert(tail[i - 1] == changes[i]);
                }
            }
        }
    }
}

/// Every transaction within the limits can be stored, whatever its changes are, and the bytes that
/// store it replay to exactly that transaction.
pub proof fn law_every_bounded_transaction_is_stored(batch: BatchView)
    requires
        batch.ordered(),
    ensures
        stored(batch) is Ok <==> {
            &&& batch.changes.len() <= 1_000_000
            &&& payload(batch).len() <= 67_108_864
            &&& forall|i: int|
                0 <= i < batch.changes.len() ==> bounded_change(#[trigger] batch.changes[i])
        },
        stored(batch) matches Ok(bytes) ==> scanned(bytes, 0, false) == Ok::<
            (Seq<BatchView>, Option<u64>),
            JournalError,
        >((seq![batch], None)),
{
    lemma_no_oversize(batch.changes);
    if stored(batch) is Ok {
        let none = Seq::<u8>::empty();
        assert(scanned(none, 0, true) == Ok::<(Seq<BatchView>, Option<u64>), JournalError>(
            (Seq::empty(), None),
        ));
        law_replay_returns_what_was_appended(none, batch, false);
        assert(none + record(batch) =~= record(batch));
        assert(Seq::<BatchView>::empty().push(batch) =~= seq![batch]);
    }
}

/// The bytes of a tuple in a payload.
pub open spec fn tuple_space(tuple: Option<Seq<u8>>) -> nat {
    match tuple {
        Some(bytes) => 5 + bytes.len(),
        None => 1,
    }
}

proof fn lemma_payload_changes_push(changes: Seq<RowChangeView>, change: RowChangeView)
    ensures
        payload_changes(changes.push(change)) == payload_changes(changes) + payload_change(change),
    decreases changes.len(),
{
    reveal_with_fuel(payload_changes, 3);
    let all = changes.push(change);
    let tail = changes.drop_first();
    let (first, last) = (payload_change(all[0]), payload_change(change));
    if changes.len() == 0 {
        assert(all.drop_first() =~= Seq::empty());
        assert(first + Seq::<u8>::empty() =~= Seq::<u8>::empty() + last);
    } else {
        assert(all.drop_first() =~= tail.push(change));
        lemma_payload_changes_push(tail, change);
        assert(first + (payload_changes(tail) + last) =~= (first + payload_changes(tail)) + last);
    }
}

/// A payload takes 32 bytes and, for each of its changes, five bytes and the space of its two
/// tuples.
pub proof fn law_payload_takes_the_space_of_its_changes(batch: BatchView, change: RowChangeView)
    ensures
        batch.changes.len() == 0 ==> payload(batch).len() == 32,
        payload(BatchView { changes: batch.changes.push(change), ..batch }).len() == payload(
            batch,
        ).len() + 5 + tuple_space(change.old_tuple) + tuple_space(change.new_tuple),
{
    broadcast use lemma_le_bytes_len;

    lemma_payload_changes_push(batch.changes, change);
}

/// The records of some transactions, one behind the other.
pub open spec fn records(batches: Seq<BatchView>) -> Seq<u8>
    decreases batches.len(),
{
    if batches.len() == 0 {
        Seq::empty()
    } else {
        records(batches.drop_last()) + record(batches.last())
    }
}

/// Whether a journal with these contents is whole and replays these transactions.
#[verifier::opaque]
spec fn holds_exactly(contents: Seq<u8>, batches: Seq<BatchView>, lenient: bool) -> bool {
    scanned(contents, 0, lenient) == Ok::<(Seq<BatchView>, Option<u64>), JournalError>(
        (batches, None),
    )
}

/// Whether a transaction can be stored.
#[verifier::opaque]
spec fn fits_a_record(batch: BatchView) -> bool {
    storable(batch)
}

proof fn lemma_one_record_more(
    contents: Seq<u8>,
    batches: Seq<BatchView>,
    batch: BatchView,
    lenient: bool,
)
    requires
        fits_a_record(batch),
        holds_exactly(contents, batches, true),
    ensures
        holds_exactly(contents + record(batch), batches.push(batch), lenient),
{
    reveal(fits_a_record);
    reveal(holds_exactly);
    law_replay_returns_what_was_appended(contents, batch, lenient);
}

proof fn lemma_no_record_yet(lenient: bool)
    ensures
        holds_exactly(Seq::empty(), Seq::empty(), lenient),
{
    reveal(holds_exactly);
}

proof fn lemma_records_replay(batches: Seq<BatchView>, lenient: bool)
    requires
        forall|i: int| 0 <= i < batches.len() ==> fits_a_record(#[trigger] batches[i]),
    ensures
        holds_exactly(records(batches), batches, lenient),
    decreases batches.len(),
{
    if batches.len() == 0 {
        assert(batches =~= Seq::empty());
        lemma_no_record_yet(lenient);
    } else {
        let front = batches.drop_last();
        let last = batches[batches.len() - 1];
        assert forall|i: int| 0 <= i < front.len() implies fits_a_record(#[trigger] front[i]) by {
            assert(front[i] == batches[i]);
        }
        lemma_records_replay(front, true);
        lemma_one_record_more(records(front), front, last, lenient);
        assert(front.push(last) =~= batches);
    }
}

/// A journal replays all that was appended to it, in the order it was appended, and nothing else.
pub proof fn law_journal_replays_everything_in_order(batches: Seq<BatchView>, lenient: bool)
    requires
        forall|i: int| 0 <= i < batches.len() ==> storable(#[trigger] batches[i]),
    ensures
        scanned(records(batches), 0, lenient) == Ok::<
            (Seq<BatchView>, Option<u64>),
            JournalError,
        >((batches, None)),
{
    assert forall|i: int| 0 <= i < batches.len() implies fits_a_record(#[trigger] batches[i]) by {
        reveal(fits_a_record);
    }
    lemma_records_replay(batches, lenient);
    reveal(holds_exactly);
}

/// A record is read only if all of it holds: it is long enough, its payload is the payload of the
/// transaction that is read, its checksum is that of the payload, and its header names the commit
/// position and the fingerprint of the transaction.
pub proof fn law_record_is_read_only_if_it_is_sound(rest: Seq<u8>, offset: u64)
    ensures
        read_record(rest, offset) matches Ok(Some((batch, len))) ==> {
            let end = HEADER_LEN + payload(batch).len();
            &&& len == end + CRC_LEN
            &&& len <= rest.len()
            &&& rest.subrange(0, 4) == MAGIC@
            &&& rest.subrange(HEADER_LEN as int, end) == payload(batch)
            &&& field(rest, end, end + CRC_LEN) == crc32c_of(payload(batch))
            &&& field(rest, 16, 24) == batch.commit_lsn.0
            &&& field(rest, 24, 32) == batch_fingerprint(batch)
            &&& batch.ordered()
            &&& encoded(batch) is Ok
        },
{
    if let Ok(Some((batch, len))) = read_record(rest, offset) {
        let end = HEADER_LEN + field(rest, 8, 16);
        law_payload_is_canonical(rest.subrange(HEADER_LEN as int, end));
    }
}

/// A record that is all there and whose checksum is not that of its payload is refused; it is
/// never taken for the torn end of a journal.
pub proof fn law_corrupt_record_is_never_taken_for_a_torn_one(rest: Seq<u8>, offset: u64)
    requires
        rest.len() >= HEADER_LEN + field(rest, 8, 16) + CRC_LEN,
        rest.subrange(0, 4) == MAGIC@,
        field(rest, 4, 6) == VERSION,
        field(rest, 8, 16) <= 67_108_864,
        ({
            let end = HEADER_LEN + field(rest, 8, 16);
            crc32c_of(rest.subrange(HEADER_LEN as int, end)) != field(rest, end, end + CRC_LEN)
        }),
    ensures
        read_record(rest, offset) == Err::<Option<(BatchView, nat)>, JournalError>(
            JournalError::ChecksumMismatch(offset),
        ),
{
}

/// Bytes that are long enough for a header and do not start with the magic of a record are
/// refused, and so are records of another version.
pub proof fn law_foreign_record_is_refused(rest: Seq<u8>, offset: u64)
    requires
        rest.len() >= HEADER_LEN,
    ensures
        rest.subrange(0, 4) != MAGIC@ ==> read_record(rest, offset) == Err::<
            Option<(BatchView, nat)>,
            JournalError,
        >(JournalError::InvalidMagic(offset)),
        rest.subrange(0, 4) == MAGIC@ && field(rest, 4, 6) != VERSION ==> read_record(rest, offset)
            == Err::<Option<(BatchView, nat)>, JournalError>(
            JournalError::UnsupportedVersion(field(rest, 4, 6) as u16),
        ),
{
}

/// A transaction at a commit position that is not known is new; noting it makes its position known
/// with its fingerprint and leaves every other position as it was.
pub proof fn law_unknown_transaction_is_new(
    known: Map<u64, u64>,
    batch: BatchView,
    other: BatchView,
)
    ensures
        !known.contains_key(batch.commit_lsn.0) ==> classified(known, batch) == Ok::<
            ReplayDecision,
            JournalError,
        >(ReplayDecision::Apply),
        noted(known, batch).contains_key(batch.commit_lsn.0),
        other.commit_lsn != batch.commit_lsn ==> classified(noted(known, batch), other)
            == classified(known, other),
{
}

proof fn lemma_distinct_recover(known: Map<u64, u64>, batches: Seq<BatchView>)
    requires
        forall|i: int|
            0 <= i < batches.len() ==> !known.contains_key((#[trigger] batches[i]).commit_lsn.0),
        forall|i: int, j: int|
            0 <= i < j < batches.len() ==> (#[trigger] batches[i]).commit_lsn != (
            #[trigger] batches[j]).commit_lsn,
    ensures
        recovered(known, batches) is Ok,
    decreases batches.len(),
{
    if batches.len() > 0 {
        let tail = batches.drop_first();
        let next = noted(known, batches[0]);
        assert forall|i: int| 0 <= i < tail.len() implies !next.contains_key(
            (#[trigger] tail[i]).commit_lsn.0,
        ) by {
            assert(tail[i] == batches[i + 1]);
            assert(batches[0].commit_lsn != batches[i + 1].commit_lsn);
        }
        assert forall|i: int, j: int| 0 <= i < j < tail.len() implies (
        #[trigger] tail[i]).commit_lsn != (#[trigger] tail[j]).commit_lsn by {
            assert(tail[i] == batches[i + 1] && tail[j] == batches[j + 1]);
        }
        lemma_distinct_recover(next, tail);
    }
}

/// A journal whose transactions have commit positions of their own opens.
pub proof fn law_journal_of_distinct_transactions_opens(batches: Seq<BatchView>)
    requires
        forall|i: int, j: int|
            0 <= i < j < batches.len() ==> (#[trigger] batches[i]).commit_lsn != (
            #[trigger] batches[j]).commit_lsn,
    ensures
        recovered(Map::empty(), batches) is Ok,
{
    lemma_distinct_recover(Map::empty(), batches);
}

/// A record is its magic, its version, a reserved field, the number of bytes of its payload, the
/// commit position, the fingerprint, the payload and the checksum of the payload. The payload is
/// the number of the transaction, its three positions in the order final, commit and end, the
/// number of its changes, and the changes in order. Every number has its least significant byte
/// first.
pub proof fn law_journal_record_is_laid_out(batch: BatchView)
    requires
        payload(batch).len() <= u64::MAX,
        batch.changes.len() <= u32::MAX,
    ensures
        ({
            let bytes = record(batch);
            let end = 32 + payload(batch).len() as int;
            &&& bytes.len() == end + 4
            &&& bytes.subrange(0, 4) == seq![0x56u8, 0x59, 0x43, 0x44]
            &&& field(bytes, 4, 6) == 1
            &&& field(bytes, 6, 8) == 0
            &&& field(bytes, 8, 16) == payload(batch).len()
            &&& field(bytes, 16, 24) == batch.commit_lsn.0
            &&& field(bytes, 24, 32) == batch_fingerprint(batch)
            &&& bytes.subrange(32, end) == payload(batch)
            &&& field(bytes, end, end + 4) == crc32c_of(payload(batch))
        }),
        ({
            let bytes = payload(batch);
            &&& field(bytes, 0, 4) == batch.xid
            &&& field(bytes, 4, 12) == batch.final_lsn.0
            &&& field(bytes, 12, 20) == batch.commit_lsn.0
            &&& field(bytes, 20, 28) == batch.end_lsn.0
            &&& field(bytes, 28, 32) == batch.changes.len()
            &&& bytes.skip(32) == payload_changes(batch.changes)
        }),
{
    broadcast use lemma_le_bytes_len;

    lemma_pow256_values();
    let held = payload(batch);
    let bytes = record(batch);
    let end = 32 + held.len() as int;
    assert(MAGIC@ =~= seq![0x56u8, 0x59, 0x43, 0x44]);
    assert(bytes.subrange(0, 4) =~= MAGIC@);
    assert(bytes.subrange(4, 6) =~= le_bytes(VERSION as nat, 2));
    assert(bytes.subrange(6, 8) =~= le_bytes(0, 2));
    assert(bytes.subrange(8, 16) =~= le_bytes(held.len(), 8));
    assert(bytes.subrange(16, 24) =~= le_bytes(batch.commit_lsn.0 as nat, 8));
    assert(bytes.subrange(24, 32) =~= le_bytes(batch_fingerprint(batch) as nat, 8));
    assert(bytes.subrange(32, end) =~= held);
    assert(bytes.subrange(end, end + 4) =~= le_bytes(crc32c_of(held) as nat, 4));
    assert(held.subrange(0, 4) =~= le_bytes(batch.xid as nat, 4));
    assert(held.subrange(4, 12) =~= le_bytes(batch.final_lsn.0 as nat, 8));
    assert(held.subrange(12, 20) =~= le_bytes(batch.commit_lsn.0 as nat, 8));
    assert(held.subrange(20, 28) =~= le_bytes(batch.end_lsn.0 as nat, 8));
    assert(held.subrange(28, 32) =~= le_bytes(batch.changes.len(), 4));
    assert(held.skip(32) =~= payload_changes(batch.changes));
    lemma_le_value_of_le_bytes(VERSION as nat, 2);
    lemma_le_value_of_le_bytes(0, 2);
    lemma_le_value_of_le_bytes(held.len(), 8);
    lemma_le_value_of_le_bytes(batch.commit_lsn.0 as nat, 8);
    lemma_le_value_of_le_bytes(batch_fingerprint(batch) as nat, 8);
    lemma_le_value_of_le_bytes(crc32c_of(held) as nat, 4);
    lemma_le_value_of_le_bytes(batch.xid as nat, 4);
    lemma_le_value_of_le_bytes(batch.final_lsn.0 as nat, 8);
    lemma_le_value_of_le_bytes(batch.end_lsn.0 as nat, 8);
    lemma_le_value_of_le_bytes(batch.changes.len(), 4);
}

/// A change is its relation, its kind, its old tuple and its new tuple. A tuple that is there is
/// a one, the number of its bytes and the bytes; one that is not is a zero. Changes follow each
/// other in order.
pub proof fn law_journal_change_is_laid_out(
    changes: Seq<RowChangeView>,
    change: RowChangeView,
    tuple: Seq<u8>,
)
    requires
        tuple.len() <= u32::MAX,
    ensures
        payload_changes(Seq::empty()).len() == 0,
        payload_changes(changes.push(change)) == payload_changes(changes) + payload_change(change),
        field(payload_change(change), 0, 4) == change.relation_id,
        payload_change(change)[4] == change.kind.spec_code(),
        payload_change(change).skip(5) == payload_tuple(change.old_tuple) + payload_tuple(
            change.new_tuple,
        ),
        payload_tuple(None) == seq![0u8],
        payload_tuple(Some(tuple))[0] == 1,
        field(payload_tuple(Some(tuple)), 1, 5) == tuple.len(),
        payload_tuple(Some(tuple)).skip(5) == tuple,
    decreases changes.len(),
{
    broadcast use lemma_le_bytes_len;

    lemma_pow256_values();
    if changes.len() == 0 {
        reveal_with_fuel(payload_changes, 2);
        assert(changes.push(change).drop_first() =~= Seq::<RowChangeView>::empty());
    } else {
        law_journal_change_is_laid_out(changes.drop_first(), change, tuple);
        assert(changes.push(change).drop_first() =~= changes.drop_first().push(change));
    }
    assert(payload_changes(changes.push(change)) =~= payload_changes(changes) + payload_change(
        change,
    ));
    let bytes = payload_change(change);
    assert(bytes.subrange(0, 4) =~= le_bytes(change.relation_id as nat, 4));
    assert(bytes.skip(5) =~= payload_tuple(change.old_tuple) + payload_tuple(change.new_tuple));
    lemma_le_value_of_le_bytes(change.relation_id as nat, 4);
    let there = payload_tuple(Some(tuple));
    assert(there.subrange(1, 5) =~= le_bytes(tuple.len(), 4));
    assert(there.skip(5) =~= tuple);
    lemma_le_value_of_le_bytes(tuple.len(), 4);
}

/// Whether one of the tuples of a change has this many bytes.
pub open spec fn has_tuple_of(change: RowChangeView, len: nat) -> bool {
    ||| change.old_tuple matches Some(bytes) && bytes.len() == len
    ||| change.new_tuple matches Some(bytes) && bytes.len() == len
}

proof fn lemma_first_oversize_is_there(changes: Seq<RowChangeView>)
    ensures
        first_oversize(changes) matches Some(len) ==> len > 67_108_864 && exists|i: int|
            0 <= i < changes.len() && has_tuple_of(#[trigger] changes[i], len),
    decreases changes.len(),
{
    if let Some(len) = first_oversize(changes) {
        if oversize(changes[0].old_tuple) is Some || oversize(changes[0].new_tuple) is Some {
            assert(has_tuple_of(changes[0], len));
        } else {
            let tail = changes.drop_first();
            lemma_first_oversize_is_there(tail);
            let i = choose|i: int| 0 <= i < tail.len() && has_tuple_of(#[trigger] tail[i], len);
            assert(has_tuple_of(changes[i + 1], len));
        }
    }
}

/// Each refusal to store a transaction is true: it has too many changes, one of its tuples is too
/// large, or its payload is, and the refusal tells by how much.
pub proof fn law_unstorable_transaction_is_refused_truly(batch: BatchView)
    ensures
        stored(batch) matches Err(error) ==> match error {
            JournalError::TooManyChanges(count) => {
                &&& 1_000_000 < batch.changes.len()
                &&& batch.changes.len() <= usize::MAX ==> count == batch.changes.len()
            },
            JournalError::TupleTooLarge(told) => exists|i: int, len: nat|
                0 <= i < batch.changes.len() && 67_108_864 < len && #[trigger] has_tuple_of(
                    batch.changes[i],
                    len,
                ) && (len <= usize::MAX ==> told == len),
            JournalError::RecordTooLarge(len) => {
                &&& 67_108_864 < payload(batch).len()
                &&& payload(batch).len() <= usize::MAX ==> len == payload(batch).len()
            },
            _ => false,
        },
{
    lemma_first_oversize_is_there(batch.changes);
    if let Some(len) = first_oversize(batch.changes) {
        let i = choose|i: int|
            0 <= i < batch.changes.len() && has_tuple_of(#[trigger] batch.changes[i], len);
        assert(has_tuple_of(batch.changes[i], len));
    }
}

/// A record that announces more bytes than the limit is refused for that, before its bytes are
/// there. A whole record whose header does not name the position and the fingerprint of its
/// payload is refused for that.
pub proof fn law_unsound_header_is_refused(rest: Seq<u8>, offset: u64)
    requires
        rest.len() >= 32,
        rest.subrange(0, 4) == seq![0x56u8, 0x59, 0x43, 0x44],
        field(rest, 4, 6) == 1,
    ensures
        field(rest, 8, 16) > 67_108_864 ==> read_record(rest, offset) matches Err(
            JournalError::RecordTooLarge(_),
        ),
        field(rest, 8, 16) <= 67_108_864 ==> ({
            let end = 32 + field(rest, 8, 16) as int;
            let body = rest.subrange(32, end);
            &&& rest.len() < end + 4 ==> read_record(rest, offset) == Ok::<
                Option<(BatchView, nat)>,
                JournalError,
            >(None)
            &&& rest.len() >= end + 4 && crc32c_of(body) == field(rest, end, end + 4) ==> {
                &&& parse_payload(body) matches Err(error) ==> read_record(rest, offset) == Err::<
                    Option<(BatchView, nat)>,
                    JournalError,
                >(error)
                &&& parse_payload(body) matches Ok(batch) ==> field(rest, 16, 24)
                    != batch.commit_lsn.0 || field(rest, 24, 32) != batch_fingerprint(batch)
                    ==> read_record(rest, offset) == Err::<Option<(BatchView, nat)>, JournalError>(
                    JournalError::HeaderPayloadMismatch(offset),
                )
            }
        }),
{
    assert(MAGIC@ =~= seq![0x56u8, 0x59, 0x43, 0x44]);
}

/// A journal in which two transactions share a commit position does not open.
pub proof fn law_journal_with_a_position_twice_does_not_open(
    known: Map<u64, u64>,
    batches: Seq<BatchView>,
    i: int,
)
    requires
        0 <= i < batches.len(),
        known.contains_key(batches[i].commit_lsn.0) || exists|j: int|
            0 <= j < i && (#[trigger] batches[j]).commit_lsn == batches[i].commit_lsn,
    ensures
        recovered(known, batches) is Err,
    decreases batches.len(),
{
    if i > 0 {
        let tail = batches.drop_first();
        let next = noted(known, batches[0]);
        assert(tail[i - 1] == batches[i]);
        if known.contains_key(batches[i].commit_lsn.0) || batches[0].commit_lsn
            == batches[i].commit_lsn {
            assert(next.contains_key(tail[i - 1].commit_lsn.0));
        } else {
            let j = choose|j: int|
                0 <= j < i && (#[trigger] batches[j]).commit_lsn == batches[i].commit_lsn;
            assert(tail[j - 1] == batches[j]);
        }
        law_journal_with_a_position_twice_does_not_open(next, tail, i - 1);
    }
}

/// The highest known position is one, lies before none, and is the later of itself and the
/// position of a transaction once that is noted.
pub proof fn law_highest_position_is_the_greatest(
    known: Map<u64, u64>,
    highest: u64,
    other: u64,
    batch: BatchView,
)
    requires
        is_highest(known, highest),
    ensures
        known.contains_key(other) ==> other <= highest,
        known.contains_key(highest) || highest == 0,
        is_highest(known, other) ==> other == highest,
        is_highest(
            noted(known, batch),
            if highest <= batch.commit_lsn.0 {
                batch.commit_lsn.0
            } else {
                highest
            },
        ),
{
}

} // verus!
