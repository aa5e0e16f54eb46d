//! Canonical little-endian bytes of one complete transaction.

use super::lsn::LogSequenceNumber;
use super::model::{
    items_view, sizes, sizes_text, BatchLimits, BatchValidationError, ItemView,
    LogicalMessage, LogicalMessageView, ModelBatchView, TransactionBatch, TransactionItem, WalChunk,
    WalView,
};
use super::wire::{
    le_bytes, le_value, lemma_i64_bits_round_trip, lemma_le_bytes_len,
    lemma_le_value_of_le_bytes, lemma_next_bytes_of_concat, lemma_next_le_inverse,
    lemma_next_le_of_le_bytes, lemma_pow256_values, lemma_u64_bits_round_trip, next_bytes, next_le,
    next_u8, put_bytes, put_u16, put_u32, put_u64, same_bytes, utf8_text, Cursor,
};
use crate::text::{byte_len, decimal, decimal_text, joined, joined3};
use vstd::prelude::*;
use vstd::utf8::{
    decode_utf8, decode_utf8_encode_utf8, encode_utf8, encode_utf8_decode_utf8,
    encode_utf8_valid_utf8, valid_utf8,
};

verus! {

/// First field of every encoded transaction.
pub const MAGIC: [u8; 8] = [0x56, 0x59, 0x52, 0x54, 0x58, 0x4e, 0x30, 0x31];

/// Format version.
pub const VERSION: u16 = 1;

/// Bytes in front of the number of items.
pub const HEADER_LEN: usize = 48;

/// Bytes of the number of items.
pub const ITEM_COUNT_LEN: usize = 4;

/// Bytes of a data item without its data.
pub const WAL_FIXED_LEN: usize = 29;

/// Bytes of a message item in front of its prefix.
pub const MESSAGE_FIXED_LEN: usize = 13;

/// Bytes of the length of a message's body.
pub const CONTENT_LENGTH_LEN: usize = 4;

/// Tag of a data item.
pub const ITEM_WAL: u8 = 1;

/// Tag of a message item.
pub const ITEM_MESSAGE: u8 = 2;

/// Why transaction bytes are corrupt, incompatible or out of bounds.
#[derive(Clone, Debug, PartialEq, Eq)]
pub enum BatchCodecError {
    InvalidMagic,
    UnsupportedVersion(u16),
    NonZeroReserved,
    UnexpectedEof,
    LengthOverflow,
    LengthTooLarge { actual: usize, maximum: usize },
    TooManyItems { actual: usize, maximum: usize },
    InvalidUtf8Prefix,
    UnknownItemTag(u8),
    TrailingBytes(usize),
    EncodedTooLarge { actual: usize, maximum: usize },
    Validation(BatchValidationError),
}

// ---------------------------------------------------------------------------------------------
// Format
// ---------------------------------------------------------------------------------------------

/// The bytes of a data item.
pub open spec fn wal_bytes(chunk: WalView) -> Seq<u8> {
    seq![ITEM_WAL] + (le_bytes(chunk.wal_start.0 as nat, 8) + (le_bytes(chunk.wal_end.0 as nat, 8)
        + (le_bytes((chunk.server_time_micros as u64) as nat, 8) + (le_bytes(chunk.data.len(), 4)
        + chunk.data))))
}

/// The bytes of a message item.
pub open spec fn message_bytes(message: LogicalMessageView) -> Seq<u8> {
    seq![ITEM_MESSAGE] + (le_bytes(message.lsn.0 as nat, 8) + (le_bytes(message.prefix_len(), 4) + (
    encode_utf8(message.prefix) + (le_bytes(message.content.len(), 4) + message.content))))
}

/// The bytes of an item.
pub open spec fn item_bytes(item: ItemView) -> Seq<u8> {
    match item {
        ItemView::Wal(chunk) => wal_bytes(chunk),
        ItemView::Message(message) => message_bytes(message),
    }
}

/// The bytes of a list of items.
pub open spec fn items_bytes(items: Seq<ItemView>) -> Seq<u8>
    decreases items.len(),
{
    if items.len() == 0 {
        Seq::empty()
    } else {
        item_bytes(items[0]) + items_bytes(items.drop_first())
    }
}

/// The bytes of a transaction.
pub open spec fn batch_bytes(batch: ModelBatchView) -> Seq<u8> {
    MAGIC@ + (le_bytes(VERSION as nat, 2) + (le_bytes(0, 2) + (le_bytes(batch.xid as nat, 4) + (
    le_bytes(batch.begin_final_lsn.0 as nat, 8) + (le_bytes(batch.commit_lsn.0 as nat, 8) + (
    le_bytes(batch.end_lsn.0 as nat, 8) + (le_bytes((batch.commit_time_micros as u64) as nat, 8) + (
    le_bytes(batch.items.len(), 4) + items_bytes(batch.items)))))))))
}

/// The number of bytes of an item.
pub open spec fn item_len(item: ItemView) -> nat {
    match item {
        ItemView::Wal(chunk) => WAL_FIXED_LEN as nat + chunk.data.len(),
        ItemView::Message(message) => MESSAGE_FIXED_LEN as nat + message.prefix_len()
            + CONTENT_LENGTH_LEN as nat + message.content.len(),
    }
}

/// The number of bytes of a list of items.
pub open spec fn items_len(items: Seq<ItemView>) -> nat
    decreases items.len(),
{
    if items.len() == 0 {
        0
    } else {
        item_len(items[0]) + items_len(items.drop_first())
    }
}

/// The number of bytes of a transaction.
pub open spec fn batch_len(batch: ModelBatchView) -> nat {
    counted_len(batch) + ITEM_COUNT_LEN as nat
}

/// The number of bytes that an encoder holds against the bound: all but those of the number of
/// items.
pub open spec fn counted_len(batch: ModelBatchView) -> nat {
    HEADER_LEN as nat + items_len(batch.items)
}

/// Whether the lengths inside an item can be written down.
pub open spec fn item_fits(item: ItemView) -> bool {
    match item {
        ItemView::Wal(chunk) => chunk.data.len() <= u32::MAX,
        ItemView::Message(message) => message.prefix_len() <= u32::MAX && message.content.len()
            <= u32::MAX,
    }
}

/// Whether the lengths inside all items can be written down.
pub open spec fn items_fit(items: Seq<ItemView>) -> bool {
    forall|i: int| 0 <= i < items.len() ==> item_fits(#[trigger] items[i])
}

/// The bytes of a transaction that respects the bounds, or what it breaks.
pub open spec fn encoded(batch: ModelBatchView, limits: BatchLimits) -> Result<
    Seq<u8>,
    BatchCodecError,
> {
    if batch.items.len() > u32::MAX || counted_len(batch) > usize::MAX {
        Err(BatchCodecError::LengthOverflow)
    } else if counted_len(batch) > limits.max_encoded_bytes {
        Err(
            BatchCodecError::EncodedTooLarge {
                actual: counted_len(batch) as usize,
                maximum: limits.max_encoded_bytes,
            },
        )
    } else if !items_fit(batch.items) {
        Err(BatchCodecError::LengthOverflow)
    } else {
        Ok(batch_bytes(batch))
    }
}

/// A parsed value and what follows it.
pub type Parsed<V> = Result<(V, Seq<u8>), BatchCodecError>;

/// A number of `width` bytes at the start of `input`.
pub open spec fn number_at(input: Seq<u8>, width: nat) -> Parsed<nat> {
    match next_le(input, width) {
        Some(found) => Ok(found),
        None => Err(BatchCodecError::UnexpectedEof),
    }
}

/// A field at the start of `input`: its length, which is bounded, and its bytes.
pub open spec fn sized_at(input: Seq<u8>, maximum: usize) -> Parsed<Seq<u8>> {
    match number_at(input, 4) {
        Err(error) => Err(error),
        Ok((len, rest)) => if len > maximum {
            Err(BatchCodecError::LengthTooLarge { actual: len as usize, maximum })
        } else {
            match next_bytes(rest, len) {
                Some(found) => Ok(found),
                None => Err(BatchCodecError::UnexpectedEof),
            }
        },
    }
}

/// The body of a data item at the start of `input`.
pub open spec fn wal_at(input: Seq<u8>, limits: BatchLimits) -> Parsed<WalView> {
    match number_at(input, 8) {
        Err(error) => Err(error),
        Ok((wal_start, rest)) => match number_at(rest, 8) {
            Err(error) => Err(error),
            Ok((wal_end, rest)) => match number_at(rest, 8) {
                Err(error) => Err(error),
                Ok((micros, rest)) => match sized_at(rest, limits.max_item_bytes) {
                    Err(error) => Err(error),
                    Ok((data, rest)) => {
                        let chunk = WalView {
                            wal_start: LogSequenceNumber(wal_start as u64),
                            wal_end: LogSequenceNumber(wal_end as u64),
                            server_time_micros: (micros as u64) as i64,
                            data,
                        };
                        match chunk.error(limits) {
                            Some(error) => Err(BatchCodecError::Validation(error)),
                            None => Ok((chunk, rest)),
                        }
                    },
                },
            },
        },
    }
}

/// The body of a message item at the start of `input`.
pub open spec fn message_at(input: Seq<u8>, limits: BatchLimits) -> Parsed<LogicalMessageView> {
    match number_at(input, 8) {
        Err(error) => Err(error),
        Ok((lsn, rest)) => match sized_at(rest, limits.max_prefix_bytes) {
            Err(error) => Err(error),
            Ok((prefix, rest)) => if !valid_utf8(prefix) {
                Err(BatchCodecError::InvalidUtf8Prefix)
            } else {
                match sized_at(rest, limits.max_item_bytes) {
                    Err(error) => Err(error),
                    Ok((content, rest)) => Ok(
                        (
                            LogicalMessageView {
                                lsn: LogSequenceNumber(lsn as u64),
                                prefix: decode_utf8(prefix),
                                content,
                            },
                            rest,
                        ),
                    ),
                }
            },
        },
    }
}

/// An item at the start of `input`.
#[verifier::opaque]
pub open spec fn item_at(input: Seq<u8>, limits: BatchLimits) -> Parsed<ItemView> {
    match next_u8(input) {
        None => Err(BatchCodecError::UnexpectedEof),
        Some((tag, rest)) => if tag == ITEM_WAL {
            match wal_at(rest, limits) {
                Ok((chunk, rest)) => Ok((ItemView::Wal(chunk), rest)),
                Err(error) => Err(error),
            }
        } else if tag == ITEM_MESSAGE {
            match message_at(rest, limits) {
                Ok((message, rest)) => Ok((ItemView::Message(message), rest)),
                Err(error) => Err(error),
            }
        } else {
            Err(BatchCodecError::UnknownItemTag(tag))
        },
    }
}

/// `done` put in front of a parsed list.
pub open spec fn prepended(done: Seq<ItemView>, parsed: Parsed<Seq<ItemView>>) -> Parsed<
    Seq<ItemView>,
> {
    match parsed {
        Ok((more, rest)) => Ok((done + more, rest)),
        Err(error) => Err(error),
    }
}

/// `count` items at the start of `input`.
pub open spec fn items_at(input: Seq<u8>, count: nat, limits: BatchLimits) -> Parsed<Seq<ItemView>>
    decreases count,
{
    if count == 0 {
        Ok((Seq::empty(), input))
    } else {
        match item_at(input, limits) {
            Err(error) => Err(error),
            Ok((item, rest)) => prepended(
                seq![item],
                items_at(rest, (count - 1) as nat, limits),
            ),
        }
    }
}

/// The fields in front of the items.
#[verifier::ext_equal]
pub struct HeaderView {
    pub xid: u32,
    pub begin_final_lsn: LogSequenceNumber,
    pub commit_lsn: LogSequenceNumber,
    pub end_lsn: LogSequenceNumber,
    pub commit_time_micros: i64,
    pub count: nat,
}

/// The fields behind the reserved one at the start of `input`.
pub open spec fn fields_at(input: Seq<u8>) -> Parsed<HeaderView> {
    match number_at(input, 4) {
        Err(error) => Err(error),
        Ok((xid, rest)) => match number_at(rest, 8) {
            Err(error) => Err(error),
            Ok((begin_final_lsn, rest)) => match number_at(rest, 8) {
                Err(error) => Err(error),
                Ok((commit_lsn, rest)) => match number_at(rest, 8) {
                    Err(error) => Err(error),
                    Ok((end_lsn, rest)) => match number_at(rest, 8) {
                        Err(error) => Err(error),
                        Ok((micros, rest)) => match number_at(rest, 4) {
                            Err(error) => Err(error),
                            Ok((count, rest)) => Ok(
                                (
                                    HeaderView {
                                        xid: xid as u32,
                                        begin_final_lsn: LogSequenceNumber(begin_final_lsn as u64),
                                        commit_lsn: LogSequenceNumber(commit_lsn as u64),
                                        end_lsn: LogSequenceNumber(end_lsn as u64),
                                        commit_time_micros: (micros as u64) as i64,
                                        count,
                                    },
                                    rest,
                                ),
                            ),
                        },
                    },
                },
            },
        },
    }
}

/// The header at the start of `input`.
pub open spec fn header_at(input: Seq<u8>) -> Parsed<HeaderView> {
    match next_bytes(input, 8) {
        None => Err(BatchCodecError::UnexpectedEof),
        Some((magic, rest)) => if magic != MAGIC@ {
            Err(BatchCodecError::InvalidMagic)
        } else {
            match number_at(rest, 2) {
                Err(error) => Err(error),
                Ok((version, rest)) => if version != VERSION {
                    Err(BatchCodecError::UnsupportedVersion(version as u16))
                } else {
                    match number_at(rest, 2) {
                        Err(error) => Err(error),
                        Ok((reserved, rest)) => if reserved != 0 {
                            Err(BatchCodecError::NonZeroReserved)
                        } else {
                            fields_at(rest)
                        },
                    }
                },
            }
        },
    }
}

/// The transaction of a header and its items.
pub open spec fn assembled(header: HeaderView, items: Seq<ItemView>) -> ModelBatchView {
    ModelBatchView {
        xid: header.xid,
        begin_final_lsn: header.begin_final_lsn,
        commit_lsn: header.commit_lsn,
        end_lsn: header.end_lsn,
        commit_time_micros: header.commit_time_micros,
        items,
    }
}

/// The transaction that `input` holds.
pub open spec fn decoded(input: Seq<u8>, limits: BatchLimits) -> Result<
    ModelBatchView,
    BatchCodecError,
> {
    if input.len() > limits.max_encoded_bytes {
        Err(
            BatchCodecError::EncodedTooLarge {
                actual: input.len() as usize,
                maximum: limits.max_encoded_bytes,
            },
        )
    } else {
        match header_at(input) {
            Err(error) => Err(error),
            Ok((header, rest)) => if header.count > limits.max_items {
                Err(
                    BatchCodecError::TooManyItems {
                        actual: header.count as usize,
                        maximum: limits.max_items,
                    },
                )
            } else {
                match items_at(rest, header.count, limits) {
                    Err(error) => Err(error),
                    Ok((items, rest)) => if rest.len() > 0 {
                        Err(BatchCodecError::TrailingBytes(rest.len() as usize))
                    } else {
                        match assembled(header, items).error(limits) {
                            Some(error) => Err(BatchCodecError::Validation(error)),
                            None => Ok(assembled(header, items)),
                        }
                    },
                }
            },
        }
    }
}

// ---------------------------------------------------------------------------------------------
// Codec
// ---------------------------------------------------------------------------------------------

fn encoded_item_len(item: &TransactionItem) -> (len: Option<usize>)
    ensures
        match len {
            Some(len) => len as nat == item_len(item@),
            None => item_len(item@) > usize::MAX,
        },
{
    match item {
        TransactionItem::Wal(chunk) => WAL_FIXED_LEN.checked_add(chunk.data().len()),
        TransactionItem::Message(message) => {
            let fixed: usize = MESSAGE_FIXED_LEN + CONTENT_LENGTH_LEN;
            match fixed.checked_add(byte_len(message.prefix())) {
                Some(len) => len.checked_add(message.content().len()),
                None => None,
            }
        },
    }
}

fn encoded_len(items: &[TransactionItem]) -> (len: Option<usize>)
    ensures
        match len {
            Some(len) => len as nat == HEADER_LEN + items_len(items_view(items@)),
            None => HEADER_LEN + items_len(items_view(items@)) > usize::MAX,
        },
{
    let ghost views = items_view(items@);
    let mut len: usize = HEADER_LEN;
    let mut index: usize = 0;
    assert(views.skip(0) =~= views);
    while index < items.len()
        invariant
            index <= items@.len(),
            views == items_view(items@),
            HEADER_LEN + items_len(views) == len + items_len(views.skip(index as int)),
        decreases items@.len() - index,
    {
        let ghost left = views.skip(index as int);
        assert(left[0] == items@[index as int]@);
        assert(left.drop_first() =~= views.skip(index + 1));
        let more: usize = match encoded_item_len(&items[index]) {
            Some(more) => more,
            None => return None,
        };
        len = match len.checked_add(more) {
            Some(len) => len,
            None => return None,
        };
        index = index + 1;
    }
    assert(views.skip(index as int) =~= Seq::empty());
    Some(len)
}

fn put_item(out: &mut Vec<u8>, item: &TransactionItem) -> (written: bool)
    ensures
        written == item_fits(item@),
        written ==> final(out)@ == old(out)@ + item_bytes(item@),
{
    let ghost start = out@;
    match item {
        TransactionItem::Wal(chunk) => {
            let data = chunk.data();
            if data.len() > u32::MAX as usize {
                return false;
            }
            out.push(ITEM_WAL);
            put_u64(out, chunk.wal_start().get());
            put_u64(out, chunk.wal_end().get());
            put_u64(out, chunk.server_time_micros() as u64);
            put_u32(out, data.len() as u32);
            put_bytes(out, data);
        },
        TransactionItem::Message(message) => {
            let prefix = message.prefix().as_bytes();
            let content = message.content();
            if prefix.len() > u32::MAX as usize || content.len() > u32::MAX as usize {
                return false;
            }
            out.push(ITEM_MESSAGE);
            put_u64(out, message.lsn().get());
            put_u32(out, prefix.len() as u32);
            put_bytes(out, prefix);
            put_u32(out, content.len() as u32);
            put_bytes(out, content);
        },
    }
    assert(out@ =~= start + item_bytes(item@));
    true
}

/// Encodes one complete transaction.
pub fn encode_transaction_batch(batch: &TransactionBatch, limits: BatchLimits) -> (result: Result<
    Vec<u8>,
    BatchCodecError,
>)
    ensures
        match result {
            Ok(bytes) => encoded(batch@, limits) == Ok::<Seq<u8>, BatchCodecError>(bytes@),
            Err(error) => encoded(batch@, limits) == Err::<Seq<u8>, BatchCodecError>(error),
        },
{
    let items = batch.items();
    if items.len() > u32::MAX as usize {
        return Err(BatchCodecError::LengthOverflow);
    }
    let len: usize = match encoded_len(items) {
        Some(len) => len,
        None => return Err(BatchCodecError::LengthOverflow),
    };
    if len > limits.max_encoded_bytes {
        return Err(
            BatchCodecError::EncodedTooLarge { actual: len, maximum: limits.max_encoded_bytes },
        );
    }
    let magic: [u8; 8] = MAGIC;
    let mut out: Vec<u8> = Vec::with_capacity(len);
    put_bytes(&mut out, magic.as_slice());
    put_u16(&mut out, VERSION);
    put_u16(&mut out, 0);
    put_u32(&mut out, batch.xid());
    put_u64(&mut out, batch.begin_final_lsn().get());
    put_u64(&mut out, batch.commit_lsn().get());
    put_u64(&mut out, batch.end_lsn().get());
    put_u64(&mut out, batch.commit_time_micros() as u64);
    put_u32(&mut out, items.len() as u32);
    let ghost views = batch@.items;
    assert(views.skip(0) =~= views);
    assert(out@ + items_bytes(views) =~= batch_bytes(batch@));
    let mut index: usize = 0;
    while index < items.len()
        invariant
            index <= items@.len() <= u32::MAX,
            views == items_view(items@),
            views == batch@.items,
            counted_len(batch@) <= usize::MAX,
            counted_len(batch@) <= limits.max_encoded_bytes,
            forall|i: int| 0 <= i < index ==> item_fits(#[trigger] views[i]),
            out@ + items_bytes(views.skip(index as int)) == batch_bytes(batch@),
        decreases items@.len() - index,
    {
        let ghost before = out@;
        let ghost left = views.skip(index as int);
        assert(left[0] == items@[index as int]@);
        assert(left[0] == views[index as int]);
        assert(left.drop_first() =~= views.skip(index + 1));
        if !put_item(&mut out, &items[index]) {
            assert(!items_fit(views));
            return Err(BatchCodecError::LengthOverflow);
        }
        assert(before + (item_bytes(left[0]) + items_bytes(left.drop_first())) =~= out@
            + items_bytes(left.drop_first()));
        index = index + 1;
    }
    assert(views.skip(index as int) =~= Seq::empty());
    assert(out@ =~= batch_bytes(batch@));
    Ok(out)
}

fn take_number(cursor: &mut Cursor<'_>, width: usize) -> (result: Result<u64, BatchCodecError>)
    requires
        width <= 8,
    ensures
        match result {
            Ok(value) => number_at(old(cursor).rest(), width as nat) == Ok::<
                (nat, Seq<u8>),
                BatchCodecError,
            >((value as nat, final(cursor).rest())),
            Err(error) => number_at(old(cursor).rest(), width as nat) == Err::<
                (nat, Seq<u8>),
                BatchCodecError,
            >(error),
        },
        result matches Ok(value) ==> value < super::wire::pow256(width as nat),
{
    match cursor.le(width) {
        Some(value) => Ok(value),
        None => Err(BatchCodecError::UnexpectedEof),
    }
}

fn take_sized<'a>(cursor: &mut Cursor<'a>, maximum: usize) -> (result: Result<
    &'a [u8],
    BatchCodecError,
>)
    ensures
        match result {
            Ok(bytes) => sized_at(old(cursor).rest(), maximum) == Ok::<
                (Seq<u8>, Seq<u8>),
                BatchCodecError,
            >((bytes@, final(cursor).rest())),
            Err(error) => sized_at(old(cursor).rest(), maximum) == Err::<
                (Seq<u8>, Seq<u8>),
                BatchCodecError,
            >(error),
        },
{
    proof {
        lemma_pow256_values();
    }
    let len: usize = take_number(cursor, 4)? as usize;
    if len > maximum {
        return Err(BatchCodecError::LengthTooLarge { actual: len, maximum });
    }
    match cursor.take(len) {
        Some(bytes) => Ok(bytes),
        None => Err(BatchCodecError::UnexpectedEof),
    }
}

fn decode_wal(cursor: &mut Cursor<'_>, limits: BatchLimits) -> (result: Result<
    WalChunk,
    BatchCodecError,
>)
    ensures
        match result {
            Ok(chunk) => wal_at(old(cursor).rest(), limits) == Ok::<
                (WalView, Seq<u8>),
                BatchCodecError,
            >((chunk@, final(cursor).rest())),
            Err(error) => wal_at(old(cursor).rest(), limits) == Err::<
                (WalView, Seq<u8>),
                BatchCodecError,
            >(error),
        },
{
    let wal_start: u64 = take_number(cursor, 8)?;
    let wal_end: u64 = take_number(cursor, 8)?;
    let micros: u64 = take_number(cursor, 8)?;
    let data = take_sized(cursor, limits.max_item_bytes)?;
    match WalChunk::try_new(
        LogSequenceNumber::new(wal_start),
        LogSequenceNumber::new(wal_end),
        micros as i64,
        vstd::slice::slice_to_vec(data),
        limits,
    ) {
        Ok(chunk) => Ok(chunk),
        Err(error) => Err(BatchCodecError::Validation(error)),
    }
}

proof fn lemma_sized_is_bounded(input: Seq<u8>, maximum: usize)
    ensures
        sized_at(input, maximum) matches Ok((bytes, rest)) ==> bytes.len() <= maximum,
{
}

fn decode_message(cursor: &mut Cursor<'_>, limits: BatchLimits) -> (result: Result<
    LogicalMessage,
    BatchCodecError,
>)
    ensures
        match result {
            Ok(message) => message_at(old(cursor).rest(), limits) == Ok::<
                (LogicalMessageView, Seq<u8>),
                BatchCodecError,
            >((message@, final(cursor).rest())),
            Err(error) => message_at(old(cursor).rest(), limits) == Err::<
                (LogicalMessageView, Seq<u8>),
                BatchCodecError,
            >(error),
        },
{
    let lsn: u64 = take_number(cursor, 8)?;
    let ghost before_prefix = cursor.rest();
    let prefix_bytes = take_sized(cursor, limits.max_prefix_bytes)?;
    let prefix = match utf8_text(prefix_bytes) {
        Some(prefix) => prefix,
        None => return Err(BatchCodecError::InvalidUtf8Prefix),
    };
    let ghost before_content = cursor.rest();
    let content = take_sized(cursor, limits.max_item_bytes)?;
    proof {
        lemma_sized_is_bounded(before_prefix, limits.max_prefix_bytes);
        lemma_sized_is_bounded(before_content, limits.max_item_bytes);
        decode_utf8_encode_utf8(prefix_bytes@);
    }
    match LogicalMessage::try_new(
        LogSequenceNumber::new(lsn),
        prefix,
        vstd::slice::slice_to_vec(content),
        limits,
    ) {
        Ok(message) => Ok(message),
        Err(error) => Err(BatchCodecError::Validation(error)),
    }
}

fn decode_item(cursor: &mut Cursor<'_>, limits: BatchLimits) -> (result: Result<
    TransactionItem,
    BatchCodecError,
>)
    ensures
        match result {
            Ok(item) => item_at(old(cursor).rest(), limits) == Ok::<
                (ItemView, Seq<u8>),
                BatchCodecError,
            >((item@, final(cursor).rest())),
            Err(error) => item_at(old(cursor).rest(), limits) == Err::<
                (ItemView, Seq<u8>),
                BatchCodecError,
            >(error),
        },
{
    reveal(item_at);
    let tag: u8 = match cursor.u8() {
        Some(tag) => tag,
        None => return Err(BatchCodecError::UnexpectedEof),
    };
    if tag == ITEM_WAL {
        let chunk = decode_wal(cursor, limits)?;
        Ok(TransactionItem::Wal(chunk))
    } else if tag == ITEM_MESSAGE {
        let message = decode_message(cursor, limits)?;
        Ok(TransactionItem::Message(message))
    } else {
        Err(BatchCodecError::UnknownItemTag(tag))
    }
}

proof fn lemma_prepend_nothing(parsed: Parsed<Seq<ItemView>>)
    ensures
        prepended(Seq::empty(), parsed) == parsed,
{
    if parsed is Ok {
        assert(Seq::<ItemView>::empty() + parsed->Ok_0.0 =~= parsed->Ok_0.0);
    }
}

#[verifier::loop_isolation(false)]
fn decode_items(cursor: &mut Cursor<'_>, count: usize, limits: BatchLimits) -> (result: Result<
    Vec<TransactionItem>,
    BatchCodecError,
>)
    ensures
        match result {
            Ok(items) => items_at(old(cursor).rest(), count as nat, limits) == Ok::<
                (Seq<ItemView>, Seq<u8>),
                BatchCodecError,
            >((items_view(items@), final(cursor).rest())),
            Err(error) => items_at(old(cursor).rest(), count as nat, limits) == Err::<
                (Seq<ItemView>, Seq<u8>),
                BatchCodecError,
            >(error),
        },
{
    let ghost start = cursor.rest();
    let mut items: Vec<TransactionItem> = Vec::new();
    let mut index: usize = 0;
    assert(items_view(items@) =~= Seq::empty());
    proof {
        lemma_prepend_nothing(items_at(start, count as nat, limits));
    }
    while index < count
        invariant
            index <= count,
            items_at(start, count as nat, limits) == prepended(
                items_view(items@),
                items_at(cursor.rest(), (count - index) as nat, limits),
            ),
        decreases count - index,
    {
        let ghost done = items_view(items@);
        let item = decode_item(cursor, limits)?;
        proof {
            let more = items_at(cursor.rest(), (count - index - 1) as nat, limits);
            if more is Ok {
                assert(done + (seq![item@] + more->Ok_0.0) =~= done.push(item@) + more->Ok_0.0);
            }
        }
        items.push(item);
        assert(items_view(items@) =~= done.push(item@));
        index = index + 1;
    }
    assert(items_view(items@) + Seq::<ItemView>::empty() =~= items_view(items@));
    Ok(items)
}

/// Decodes and validates durable bytes that are not trusted.
pub fn decode_transaction_batch(bytes: &[u8], limits: BatchLimits) -> (result: Result<
    TransactionBatch,
    BatchCodecError,
>)
    ensures
        match result {
            Ok(batch) => decoded(bytes@, limits) == Ok::<ModelBatchView, BatchCodecError>(batch@),
            Err(error) => decoded(bytes@, limits) == Err::<ModelBatchView, BatchCodecError>(error),
        },
{
    proof {
        lemma_pow256_values();
    }
    if bytes.len() > limits.max_encoded_bytes {
        return Err(
            BatchCodecError::EncodedTooLarge {
                actual: bytes.len(),
                maximum: limits.max_encoded_bytes,
            },
        );
    }
    let expected: [u8; 8] = MAGIC;
    let mut cursor = Cursor::new(bytes);
    let magic = match cursor.take(8) {
        Some(magic) => magic,
        None => return Err(BatchCodecError::UnexpectedEof),
    };
    if !same_bytes(magic, expected.as_slice()) {
        return Err(BatchCodecError::InvalidMagic);
    }
    let version: u16 = take_number(&mut cursor, 2)? as u16;
    if version != VERSION {
        return Err(BatchCodecError::UnsupportedVersion(version));
    }
    if take_number(&mut cursor, 2)? != 0 {
        return Err(BatchCodecError::NonZeroReserved);
    }
    let xid: u32 = take_number(&mut cursor, 4)? as u32;
    let begin_final_lsn: u64 = take_number(&mut cursor, 8)?;
    let commit_lsn: u64 = take_number(&mut cursor, 8)?;
    let end_lsn: u64 = take_number(&mut cursor, 8)?;
    let micros: u64 = take_number(&mut cursor, 8)?;
    let count: usize = take_number(&mut cursor, 4)? as usize;
    if count > limits.max_items {
        return Err(BatchCodecError::TooManyItems { actual: count, maximum: limits.max_items });
    }
    let items = decode_items(&mut cursor, count, limits)?;
    let left: usize = cursor.remaining();
    if left > 0 {
        return Err(BatchCodecError::TrailingBytes(left));
    }
    match TransactionBatch::try_new(
        xid,
        LogSequenceNumber::new(begin_final_lsn),
        LogSequenceNumber::new(commit_lsn),
        LogSequenceNumber::new(end_lsn),
        micros as i64,
        items,
        limits,
    ) {
        Ok(batch) => Ok(batch),
        Err(error) => Err(BatchCodecError::Validation(error)),
    }
}

// ---------------------------------------------------------------------------------------------
// Laws
// ---------------------------------------------------------------------------------------------

proof fn lemma_items_bytes_len(items: Seq<ItemView>)
    ensures
        items_bytes(items).len() == items_len(items),
    decreases items.len(),
{
    broadcast use lemma_le_bytes_len;

    if items.len() > 0 {
        lemma_items_bytes_len(items.drop_first());
    }
}

/// The bytes of a transaction are as many as the lengths of its parts say.
pub proof fn law_encoded_length_is_exact(batch: ModelBatchView)
    ensures
        batch_bytes(batch).len() == batch_len(batch),
{
    broadcast use lemma_le_bytes_len;

    lemma_items_bytes_len(batch.items);
    assert(MAGIC@.len() == 8);
}

proof fn lemma_sized_at(bytes: Seq<u8>, rest: Seq<u8>, maximum: usize)
    requires
        bytes.len() <= maximum,
        bytes.len() <= u32::MAX,
    ensures
        sized_at(le_bytes(bytes.len(), 4) + (bytes + rest), maximum) == Ok::<
            (Seq<u8>, Seq<u8>),
            BatchCodecError,
        >((bytes, rest)),
{
    lemma_pow256_values();
    lemma_next_le_of_le_bytes(bytes.len(), 4, bytes + rest);
    lemma_next_bytes_of_concat(bytes, rest);
}

proof fn lemma_wal_at(chunk: WalView, rest: Seq<u8>, limits: BatchLimits)
    requires
        chunk.error(limits) is None,
        chunk.data.len() <= u32::MAX,
    ensures
        item_at(wal_bytes(chunk) + rest, limits) == Ok::<(ItemView, Seq<u8>), BatchCodecError>(
            (ItemView::Wal(chunk), rest),
        ),
{
    reveal(item_at);
    lemma_pow256_values();
    lemma_i64_bits_round_trip(chunk.server_time_micros);
    let input = wal_bytes(chunk) + rest;
    let sized = le_bytes(chunk.data.len(), 4) + (chunk.data + rest);
    let timed = le_bytes((chunk.server_time_micros as u64) as nat, 8) + sized;
    let ended = le_bytes(chunk.wal_end.0 as nat, 8) + timed;
    let started = le_bytes(chunk.wal_start.0 as nat, 8) + ended;
    assert(input =~= seq![ITEM_WAL] + started);
    assert(input.skip(1) =~= started);
    lemma_next_le_of_le_bytes(chunk.wal_start.0 as nat, 8, ended);
    lemma_next_le_of_le_bytes(chunk.wal_end.0 as nat, 8, timed);
    lemma_next_le_of_le_bytes((chunk.server_time_micros as u64) as nat, 8, sized);
    lemma_sized_at(chunk.data, rest, limits.max_item_bytes);
}

proof fn lemma_message_at(message: LogicalMessageView, rest: Seq<u8>, limits: BatchLimits)
    requires
        message.error(limits) is None,
        message.prefix_len() <= u32::MAX,
        message.content.len() <= u32::MAX,
    ensures
        item_at(message_bytes(message) + rest, limits) == Ok::<
            (ItemView, Seq<u8>),
            BatchCodecError,
        >((ItemView::Message(message), rest)),
{
    reveal(item_at);
    lemma_pow256_values();
    let input = message_bytes(message) + rest;
    let prefix = encode_utf8(message.prefix);
    encode_utf8_valid_utf8(message.prefix);
    encode_utf8_decode_utf8(message.prefix);
    let bodied = le_bytes(message.content.len(), 4) + (message.content + rest);
    let prefixed = le_bytes(prefix.len(), 4) + (prefix + bodied);
    let placed = le_bytes(message.lsn.0 as nat, 8) + prefixed;
    assert(input =~= seq![ITEM_MESSAGE] + placed);
    assert(input.skip(1) =~= placed);
    lemma_next_le_of_le_bytes(message.lsn.0 as nat, 8, prefixed);
    lemma_sized_at(prefix, bodied, limits.max_prefix_bytes);
    lemma_sized_at(message.content, rest, limits.max_item_bytes);
}

proof fn lemma_items_at(items: Seq<ItemView>, rest: Seq<u8>, limits: BatchLimits)
    requires
        forall|i: int| 0 <= i < items.len() ==> (#[trigger] items[i]).bounded(limits),
        items_fit(items),
    ensures
        items_at(items_bytes(items) + rest, items.len(), limits) == Ok::<
            (Seq<ItemView>, Seq<u8>),
            BatchCodecError,
        >((items, rest)),
    decreases items.len(),
{
    if items.len() == 0 {
        assert(items_bytes(items) + rest =~= rest);
        assert(items =~= Seq::empty());
    } else {
        let tail = items.drop_first();
        assert forall|i: int| 0 <= i < tail.len() implies (#[trigger] tail[i]).bounded(limits)
            && item_fits(tail[i]) by {
            assert(tail[i] == items[i + 1]);
        }
        assert(items_bytes(items) + rest =~= item_bytes(items[0]) + (items_bytes(tail) + rest));
        assert(item_fits(items[0]) && items[0].bounded(limits));
        match items[0] {
            ItemView::Wal(chunk) => lemma_wal_at(chunk, items_bytes(tail) + rest, limits),
            ItemView::Message(message) => lemma_message_at(
                message,
                items_bytes(tail) + rest,
                limits,
            ),
        }
        lemma_items_at(tail, rest, limits);
        assert(seq![items[0]] + tail =~= items);
    }
}

proof fn lemma_header_at(batch: ModelBatchView, rest: Seq<u8>)
    requires
        batch.items.len() <= u32::MAX,
    ensures
        ({
            let fields = le_bytes(batch.xid as nat, 4) + (le_bytes(
                batch.begin_final_lsn.0 as nat,
                8,
            ) + (le_bytes(batch.commit_lsn.0 as nat, 8) + (le_bytes(batch.end_lsn.0 as nat, 8) + (
            le_bytes((batch.commit_time_micros as u64) as nat, 8) + (le_bytes(
                batch.items.len(),
                4,
            ) + rest)))));
            header_at(MAGIC@ + (le_bytes(VERSION as nat, 2) + (le_bytes(0, 2) + fields)))
        }) == Ok::<(HeaderView, Seq<u8>), BatchCodecError>(
            (
                HeaderView {
                    xid: batch.xid,
                    begin_final_lsn: batch.begin_final_lsn,
                    commit_lsn: batch.commit_lsn,
                    end_lsn: batch.end_lsn,
                    commit_time_micros: batch.commit_time_micros,
                    count: batch.items.len(),
                },
                rest,
            ),
        ),
{
    lemma_pow256_values();
    lemma_i64_bits_round_trip(batch.commit_time_micros);
    let micros = (batch.commit_time_micros as u64) as nat;
    let counted = le_bytes(batch.items.len(), 4) + rest;
    let timed = le_bytes(micros, 8) + counted;
    let ended = le_bytes(batch.end_lsn.0 as nat, 8) + timed;
    let committed = le_bytes(batch.commit_lsn.0 as nat, 8) + ended;
    let begun = le_bytes(batch.begin_final_lsn.0 as nat, 8) + committed;
    let fields = le_bytes(batch.xid as nat, 4) + begun;
    let reserved = le_bytes(0, 2) + fields;
    let versioned = le_bytes(VERSION as nat, 2) + reserved;
    assert(MAGIC@.len() == 8);
    lemma_next_bytes_of_concat(MAGIC@, versioned);
    lemma_next_le_of_le_bytes(VERSION as nat, 2, reserved);
    lemma_next_le_of_le_bytes(0, 2, fields);
    lemma_next_le_of_le_bytes(batch.xid as nat, 4, begun);
    lemma_next_le_of_le_bytes(batch.begin_final_lsn.0 as nat, 8, committed);
    lemma_next_le_of_le_bytes(batch.commit_lsn.0 as nat, 8, ended);
    lemma_next_le_of_le_bytes(batch.end_lsn.0 as nat, 8, timed);
    lemma_next_le_of_le_bytes(micros, 8, counted);
    lemma_next_le_of_le_bytes(batch.items.len(), 4, rest);
}

/// Decoding what encoding gave returns the transaction, for every transaction that was made under
/// the same bounds. The one exception is an encoding that exceeds the bound by no more than the
/// bytes of the number of items, which encoding does not count: decoding refuses it.
pub proof fn law_transaction_round_trip(batch: ModelBatchView, limits: BatchLimits)
    requires
        batch.error(limits) is None,
        forall|i: int| 0 <= i < batch.items.len() ==> (#[trigger] batch.items[i]).bounded(limits),
    ensures
        encoded(batch, limits) matches Ok(bytes) ==> {
            &&& bytes.len() <= limits.max_encoded_bytes + ITEM_COUNT_LEN
            &&& decoded(bytes, limits) == if bytes.len() <= limits.max_encoded_bytes {
                Ok::<ModelBatchView, BatchCodecError>(batch)
            } else {
                Err(
                    BatchCodecError::EncodedTooLarge {
                        actual: bytes.len() as usize,
                        maximum: limits.max_encoded_bytes,
                    },
                )
            }
        },
{
    if encoded(batch, limits) is Ok {
        law_encoded_length_is_exact(batch);
        lemma_header_at(batch, items_bytes(batch.items));
        lemma_items_at(batch.items, Seq::empty(), limits);
        assert(items_bytes(batch.items) + Seq::<u8>::empty() =~= items_bytes(batch.items));
    }
}

proof fn lemma_sized_inverse(input: Seq<u8>, maximum: usize)
    ensures
        sized_at(input, maximum) matches Ok((bytes, rest)) ==> input == le_bytes(bytes.len(), 4) + (
        bytes + rest) && bytes.len() <= u32::MAX,
{
    if let Ok((bytes, rest)) = sized_at(input, maximum) {
        lemma_pow256_values();
        lemma_next_le_inverse(input, 4);
        let body = next_le(input, 4)->Some_0.1;
        assert(body =~= bytes + rest);
    }
}

proof fn lemma_wal_positions_inverse(input: Seq<u8>)
    ensures
        next_le(input, 8) matches Some((start, ended)) ==> next_le(ended, 8) matches Some(
            (end, timed),
        ) ==> next_le(timed, 8) matches Some((micros, sized)) ==> {
            &&& start <= u64::MAX && end <= u64::MAX && micros <= u64::MAX
            &&& input == le_bytes(start, 8) + (le_bytes(end, 8) + (le_bytes(micros, 8) + sized))
        },
{
    lemma_pow256_values();
    lemma_next_le_inverse(input, 8);
    if let Some((_, ended)) = next_le(input, 8) {
        lemma_next_le_inverse(ended, 8);
        if let Some((_, timed)) = next_le(ended, 8) {
            lemma_next_le_inverse(timed, 8);
        }
    }
}

#[verifier::spinoff_prover]
proof fn lemma_wal_inverse(input: Seq<u8>, limits: BatchLimits)
    ensures
        wal_at(input, limits) matches Ok((chunk, rest)) ==> {
            &&& seq![ITEM_WAL] + input == wal_bytes(chunk) + rest
            &&& chunk.error(limits) is None
            &&& chunk.data.len() <= u32::MAX
        },
{
    if let Ok((chunk, rest)) = wal_at(input, limits) {
        lemma_wal_positions_inverse(input);
        let (start, ended) = next_le(input, 8)->Some_0;
        let (end, timed) = next_le(ended, 8)->Some_0;
        let (micros, sized) = next_le(timed, 8)->Some_0;
        lemma_u64_bits_round_trip(micros as u64);
        lemma_sized_inverse(sized, limits.max_item_bytes);
        let body = le_bytes(chunk.data.len(), 4) + (chunk.data + rest);
        assert(sized == body);
        assert(seq![ITEM_WAL] + (le_bytes(start, 8) + (le_bytes(end, 8) + (le_bytes(micros, 8)
            + body))) =~= wal_bytes(chunk) + rest);
    }
}

proof fn lemma_message_inverse(input: Seq<u8>, limits: BatchLimits)
    ensures
        message_at(input, limits) matches Ok((message, rest)) ==> {
            &&& seq![ITEM_MESSAGE] + input == message_bytes(message) + rest
            &&& message.error(limits) is None
            &&& message.prefix_len() <= u32::MAX
            &&& message.content.len() <= u32::MAX
        },
{
    if let Ok((message, rest)) = message_at(input, limits) {
        lemma_pow256_values();
        lemma_next_le_inverse(input, 8);
        let prefixed = next_le(input, 8)->Some_0.1;
        lemma_sized_inverse(prefixed, limits.max_prefix_bytes);
        let (prefix, bodied) = sized_at(prefixed, limits.max_prefix_bytes)->Ok_0;
        decode_utf8_encode_utf8(prefix);
        lemma_sized_inverse(bodied, limits.max_item_bytes);
        assert(seq![ITEM_MESSAGE] + input =~= message_bytes(message) + rest);
    }
}

proof fn lemma_item_inverse(input: Seq<u8>, limits: BatchLimits)
    ensures
        item_at(input, limits) matches Ok((item, rest)) ==> {
            &&& input == item_bytes(item) + rest
            &&& item.bounded(limits)
            &&& item_fits(item)
        },
{
    reveal(item_at);
    if item_at(input, limits) is Ok {
        let body = input.skip(1);
        assert(input =~= seq![input[0]] + body);
        lemma_wal_inverse(body, limits);
        lemma_message_inverse(body, limits);
    }
}

proof fn lemma_items_inverse(input: Seq<u8>, count: nat, limits: BatchLimits)
    ensures
        items_at(input, count, limits) matches Ok((items, rest)) ==> {
            &&& input == items_bytes(items) + rest
            &&& items.len() == count
            &&& items_fit(items)
            &&& forall|i: int| 0 <= i < items.len() ==> (#[trigger] items[i]).bounded(limits)
        },
    decreases count,
{
    if let Ok((items, rest)) = items_at(input, count, limits) {
        if count == 0 {
            assert(input =~= items_bytes(items) + rest);
        } else {
            lemma_item_inverse(input, limits);
            let (item, middle) = item_at(input, limits)->Ok_0;
            lemma_items_inverse(middle, (count - 1) as nat, limits);
            let tail = items_at(middle, (count - 1) as nat, limits)->Ok_0.0;
            assert(items =~= seq![item] + tail);
            assert(items.drop_first() =~= tail);
            let head = item_bytes(item);
            assert(head + (items_bytes(tail) + rest) =~= (head + items_bytes(tail)) + rest);
            assert forall|i: int| 0 <= i < items.len() implies (#[trigger] items[i]).bounded(limits)
                && item_fits(items[i]) by {
                if i > 0 {
                    assert(items[i] == tail[i - 1]);
                    assert(item_fits(tail[i - 1]));
                }
            }
        }
    }
}

proof fn lemma_header_inverse(input: Seq<u8>)
    ensures
        header_at(input) matches Ok((header, rest)) ==> {
            &&& header.count <= u32::MAX
            &&& input == MAGIC@ + (le_bytes(VERSION as nat, 2) + (le_bytes(0, 2) + (le_bytes(
                header.xid as nat,
                4,
            ) + (le_bytes(header.begin_final_lsn.0 as nat, 8) + (le_bytes(
                header.commit_lsn.0 as nat,
                8,
            ) + (le_bytes(header.end_lsn.0 as nat, 8) + (le_bytes(
                (header.commit_time_micros as u64) as nat,
                8,
            ) + (le_bytes(header.count, 4) + rest))))))))
        },
{
    if let Ok((header, rest)) = header_at(input) {
        lemma_pow256_values();
        let versioned = input.skip(8);
        assert(input =~= MAGIC@ + versioned);
        lemma_next_le_inverse(versioned, 2);
        let reserved = next_le(versioned, 2)->Some_0.1;
        lemma_next_le_inverse(reserved, 2);
        let fields = next_le(reserved, 2)->Some_0.1;
        lemma_next_le_inverse(fields, 4);
        let begun = next_le(fields, 4)->Some_0.1;
        lemma_next_le_inverse(begun, 8);
        let committed = next_le(begun, 8)->Some_0.1;
        lemma_next_le_inverse(committed, 8);
        let ended = next_le(committed, 8)->Some_0.1;
        lemma_next_le_inverse(ended, 8);
        let timed = next_le(ended, 8)->Some_0.1;
        lemma_next_le_inverse(timed, 8);
        let (micros, counted) = next_le(timed, 8)->Some_0;
        lemma_u64_bits_round_trip(micros as u64);
        lemma_next_le_inverse(counted, 4);
    }
}

/// Bytes that decode are the one encoding of their transaction, which respects the bounds.
pub proof fn law_encoding_is_canonical(input: Seq<u8>, limits: BatchLimits)
    ensures
        decoded(input, limits) matches Ok(batch) ==> {
            &&& input == batch_bytes(batch)
            &&& batch.error(limits) is None
            &&& encoded(batch, limits) == Ok::<Seq<u8>, BatchCodecError>(input)
        },
{
    if let Ok(batch) = decoded(input, limits) {
        lemma_header_inverse(input);
        let (header, listed) = header_at(input)->Ok_0;
        lemma_items_inverse(listed, header.count, limits);
        let rest = items_at(listed, header.count, limits)->Ok_0.1;
        assert(items_bytes(batch.items) + rest =~= items_bytes(batch.items));
        law_encoded_length_is_exact(batch);
    }
}

// ---------------------------------------------------------------------------------------------
// Diagnostics
// ---------------------------------------------------------------------------------------------

impl BatchCodecError {
    /// The diagnostic text of this error.
    pub open spec fn spec_message(self) -> Seq<char> {
        match self {
            BatchCodecError::InvalidMagic => "invalid Veyra transaction magic"@,
            BatchCodecError::UnsupportedVersion(version) => {
                "unsupported Veyra transaction version "@ + decimal(version as int)
            },
            BatchCodecError::NonZeroReserved => "non-zero reserved transaction field"@,
            BatchCodecError::UnexpectedEof => "unexpected end of transaction bytes"@,
            BatchCodecError::LengthOverflow => "transaction length overflow"@,
            BatchCodecError::LengthTooLarge { actual, maximum } => sizes(
                "encoded field is "@,
                actual,
                " bytes; maximum is "@,
                maximum,
            ),
            BatchCodecError::TooManyItems { actual, maximum } => sizes(
                "encoded transaction has "@,
                actual,
                " items; maximum is "@,
                maximum,
            ),
            BatchCodecError::InvalidUtf8Prefix => "logical message prefix is not valid UTF-8"@,
            BatchCodecError::UnknownItemTag(tag) => "unknown transaction item tag "@ + decimal(
                tag as int,
            ),
            BatchCodecError::TrailingBytes(count) => "transaction contains "@ + decimal(
                count as int,
            ) + " trailing bytes"@,
            BatchCodecError::EncodedTooLarge { actual, maximum } => sizes(
                "encoded transaction is "@,
                actual,
                " bytes; maximum is "@,
                maximum,
            ),
            BatchCodecError::Validation(error) => "transaction validation failed: "@
                + error.spec_message(),
        }
    }

    /// The diagnostic text of this error.
    pub fn message(&self) -> (text: String)
        ensures
            text@ == self.spec_message(),
    {
        match self {
            BatchCodecError::InvalidMagic => "invalid Veyra transaction magic".to_owned(),
            BatchCodecError::UnsupportedVersion(version) => {
                joined(
                    "unsupported Veyra transaction version ",
                    decimal_text(*version as u64).as_str(),
                )
            },
            BatchCodecError::NonZeroReserved => "non-zero reserved transaction field".to_owned(),
            BatchCodecError::UnexpectedEof => "unexpected end of transaction bytes".to_owned(),
            BatchCodecError::LengthOverflow => "transaction length overflow".to_owned(),
            BatchCodecError::LengthTooLarge { actual, maximum } => {
                sizes_text("encoded field is ", *actual, " bytes; maximum is ", *maximum)
            },
            BatchCodecError::TooManyItems { actual, maximum } => {
                sizes_text("encoded transaction has ", *actual, " items; maximum is ", *maximum)
            },
            BatchCodecError::InvalidUtf8Prefix => {
                "logical message prefix is not valid UTF-8".to_owned()
            },
            BatchCodecError::UnknownItemTag(tag) => {
                joined("unknown transaction item tag ", decimal_text(*tag as u64).as_str())
            },
            BatchCodecError::TrailingBytes(count) => {
                joined3(
                    "transaction contains ",
                    decimal_text(*count as u64).as_str(),
                    " trailing bytes",
                )
            },
            BatchCodecError::EncodedTooLarge { actual, maximum } => {
                sizes_text("encoded transaction is ", *actual, " bytes; maximum is ", *maximum)
            },
            BatchCodecError::Validation(error) => {
                joined("transaction validation failed: ", error.message().as_str())
            },
        }
    }
}

/// A transaction is encoded exactly if its items and the lengths inside them can be counted in
/// 32 bits and its bytes, but for those of the number of items, are within the limit. A refusal
/// for its size names that size.
pub proof fn law_transaction_is_encoded_exactly_if_it_fits(
    batch: ModelBatchView,
    limits: BatchLimits,
)
    ensures
        encoded(batch, limits) is Ok <==> {
            &&& batch.items.len() <= u32::MAX
            &&& forall|i: int|
                0 <= i < batch.items.len() ==> match #[trigger] batch.items[i] {
                    ItemView::Wal(chunk) => chunk.data.len() <= u32::MAX,
                    ItemView::Message(message) => encode_utf8(message.prefix).len() <= u32::MAX
                        && message.content.len() <= u32::MAX,
                }
            &&& batch_bytes(batch).len() <= limits.max_encoded_bytes + 4
        },
        encoded(batch, limits) matches Ok(bytes) ==> bytes == batch_bytes(batch),
        encoded(batch, limits) matches Err(BatchCodecError::EncodedTooLarge { actual, maximum })
            ==> {
            &&& maximum == limits.max_encoded_bytes
            &&& actual + 4 == batch_bytes(batch).len()
            &&& maximum < actual
        },
{
    law_encoded_length_is_exact(batch);
    if encoded(batch, limits) is Ok {
        assert forall|i: int| 0 <= i < batch.items.len() implies match #[trigger] batch.items[i] {
            ItemView::Wal(chunk) => chunk.data.len() <= u32::MAX,
            ItemView::Message(message) => encode_utf8(message.prefix).len() <= u32::MAX
                && message.content.len() <= u32::MAX,
        } by {
            assert(item_fits(batch.items[i]));
        }
    }
    if forall|i: int|
        0 <= i < batch.items.len() ==> match #[trigger] batch.items[i] {
            ItemView::Wal(chunk) => chunk.data.len() <= u32::MAX,
            ItemView::Message(message) => encode_utf8(message.prefix).len() <= u32::MAX
                && message.content.len() <= u32::MAX,
        } {
        assert(items_fit(batch.items));
    }
}

/// The bytes of a transaction are its magic, its version, a reserved field, its number, its three
/// positions in the order begin, commit and end, its time, the number of its items, and the items
/// in order, every number with its least significant byte first.
pub proof fn law_transaction_bytes_are_laid_out(batch: ModelBatchView)
    requires
        batch.items.len() <= u32::MAX,
    ensures
        ({
            let bytes = batch_bytes(batch);
            &&& bytes.subrange(0, 8) == seq![0x56u8, 0x59, 0x52, 0x54, 0x58, 0x4e, 0x30, 0x31]
            &&& le_value(bytes.subrange(8, 10)) == 1
            &&& le_value(bytes.subrange(10, 12)) == 0
            &&& le_value(bytes.subrange(12, 16)) == batch.xid
            &&& le_value(bytes.subrange(16, 24)) == batch.begin_final_lsn.0
            &&& le_value(bytes.subrange(24, 32)) == batch.commit_lsn.0
            &&& le_value(bytes.subrange(32, 40)) == batch.end_lsn.0
            &&& le_value(bytes.subrange(40, 48)) == batch.commit_time_micros as u64
            &&& le_value(bytes.subrange(48, 52)) == batch.items.len()
            &&& bytes.skip(52) == items_bytes(batch.items)
        }),
{
    broadcast use lemma_le_bytes_len;

    lemma_pow256_values();
    let bytes = batch_bytes(batch);
    let micros = (batch.commit_time_micros as u64) as nat;
    assert(MAGIC@.len() == 8);
    assert(bytes.subrange(0, 8) =~= MAGIC@);
    assert(MAGIC@ =~= seq![0x56u8, 0x59, 0x52, 0x54, 0x58, 0x4e, 0x30, 0x31]);
    assert(bytes.subrange(8, 10) =~= le_bytes(VERSION as nat, 2));
    assert(bytes.subrange(10, 12) =~= le_bytes(0, 2));
    assert(bytes.subrange(12, 16) =~= le_bytes(batch.xid as nat, 4));
    assert(bytes.subrange(16, 24) =~= le_bytes(batch.begin_final_lsn.0 as nat, 8));
    assert(bytes.subrange(24, 32) =~= le_bytes(batch.commit_lsn.0 as nat, 8));
    assert(bytes.subrange(32, 40) =~= le_bytes(batch.end_lsn.0 as nat, 8));
    assert(bytes.subrange(40, 48) =~= le_bytes(micros, 8));
    assert(bytes.subrange(48, 52) =~= le_bytes(batch.items.len(), 4));
    assert(bytes.skip(52) =~= items_bytes(batch.items));
    lemma_le_value_of_le_bytes(VERSION as nat, 2);
    lemma_le_value_of_le_bytes(0, 2);
    lemma_le_value_of_le_bytes(batch.xid as nat, 4);
    lemma_le_value_of_le_bytes(batch.begin_final_lsn.0 as nat, 8);
    lemma_le_value_of_le_bytes(batch.commit_lsn.0 as nat, 8);
    lemma_le_value_of_le_bytes(batch.end_lsn.0 as nat, 8);
    lemma_le_value_of_le_bytes(micros, 8);
    lemma_le_value_of_le_bytes(batch.items.len(), 4);
}

/// The bytes of an item are its tag, its positions, the time of a data item, and each of its
/// fields behind the number of its bytes. Items follow each other in order.
pub proof fn law_item_bytes_are_laid_out(items: Seq<ItemView>, item: ItemView)
    requires
        item_fits(item),
    ensures
        items_bytes(Seq::empty()).len() == 0,
        items_bytes(items.push(item)) == items_bytes(items) + item_bytes(item),
        item matches ItemView::Wal(chunk) ==> ({
            let bytes = item_bytes(item);
            &&& bytes[0] == 1
            &&& le_value(bytes.subrange(1, 9)) == chunk.wal_start.0
            &&& le_value(bytes.subrange(9, 17)) == chunk.wal_end.0
            &&& le_value(bytes.subrange(17, 25)) == chunk.server_time_micros as u64
            &&& le_value(bytes.subrange(25, 29)) == chunk.data.len()
            &&& bytes.skip(29) == chunk.data
        }),
        item matches ItemView::Message(message) ==> ({
            let bytes = item_bytes(item);
            let prefix = encode_utf8(message.prefix);
            let behind = 13 + prefix.len() as int;
            &&& bytes[0] == 2
            &&& le_value(bytes.subrange(1, 9)) == message.lsn.0
            &&& le_value(bytes.subrange(9, 13)) == prefix.len()
            &&& bytes.subrange(13, behind) == prefix
            &&& le_value(bytes.subrange(behind, behind + 4)) == message.content.len()
            &&& bytes.skip(behind + 4) == message.content
        }),
    decreases items.len(),
{
    broadcast use lemma_le_bytes_len;

    lemma_pow256_values();
    if items.len() == 0 {
        assert(items.push(item).drop_first() =~= Seq::<ItemView>::empty());
        reveal_with_fuel(items_bytes, 2);
        assert(items_bytes(items.push(item)) =~= items_bytes(items) + item_bytes(item));
    } else {
        let rest = items.drop_first();
        law_item_bytes_are_laid_out(rest, item);
        assert(items.push(item).drop_first() =~= rest.push(item));
        assert(items_bytes(items.push(item)) =~= items_bytes(items) + item_bytes(item));
    }
    let bytes = item_bytes(item);
    match item {
        ItemView::Wal(chunk) => {
            let micros = (chunk.server_time_micros as u64) as nat;
            assert(bytes.subrange(1, 9) =~= le_bytes(chunk.wal_start.0 as nat, 8));
            assert(bytes.subrange(9, 17) =~= le_bytes(chunk.wal_end.0 as nat, 8));
            assert(bytes.subrange(17, 25) =~= le_bytes(micros, 8));
            assert(bytes.subrange(25, 29) =~= le_bytes(chunk.data.len(), 4));
            assert(bytes.skip(29) =~= chunk.data);
            lemma_le_value_of_le_bytes(chunk.wal_start.0 as nat, 8);
            lemma_le_value_of_le_bytes(chunk.wal_end.0 as nat, 8);
            lemma_le_value_of_le_bytes(micros, 8);
            lemma_le_value_of_le_bytes(chunk.data.len(), 4);
        },
        ItemView::Message(message) => {
            let prefix = encode_utf8(message.prefix);
            let behind = 13 + prefix.len() as int;
            assert(bytes.subrange(1, 9) =~= le_bytes(message.lsn.0 as nat, 8));
            assert(bytes.subrange(9, 13) =~= le_bytes(prefix.len(), 4));
            assert(bytes.subrange(13, behind) =~= prefix);
            assert(bytes.subrange(behind, behind + 4) =~= le_bytes(message.content.len(), 4));
            assert(bytes.skip(behind + 4) =~= message.content);
            lemma_le_value_of_le_bytes(message.lsn.0 as nat, 8);
            lemma_le_value_of_le_bytes(prefix.len(), 4);
            lemma_le_value_of_le_bytes(message.content.len(), 4);
        },
    }
}

/// Bytes behind an encoded transaction are refused with their number.
pub proof fn law_trailing_bytes_are_refused(
    batch: ModelBatchView,
    behind: Seq<u8>,
    limits: BatchLimits,
)
    requires
        batch.error(limits) is None,
        forall|i: int| 0 <= i < batch.items.len() ==> (#[trigger] batch.items[i]).bounded(limits),
        encoded(batch, limits) is Ok,
        behind.len() > 0,
        batch_bytes(batch).len() + behind.len() <= limits.max_encoded_bytes,
    ensures
        decoded(batch_bytes(batch) + behind, limits) == Err::<ModelBatchView, BatchCodecError>(
            BatchCodecError::TrailingBytes(behind.len() as usize),
        ),
{
    broadcast use lemma_le_bytes_len;

    let listed = items_bytes(batch.items) + behind;
    lemma_header_at(batch, listed);
    lemma_items_at(batch.items, behind, limits);
    let fields = le_bytes(batch.xid as nat, 4) + (le_bytes(batch.begin_final_lsn.0 as nat, 8) + (
    le_bytes(batch.commit_lsn.0 as nat, 8) + (le_bytes(batch.end_lsn.0 as nat, 8) + (le_bytes(
        (batch.commit_time_micros as u64) as nat,
        8,
    ) + (le_bytes(batch.items.len(), 4) + listed)))));
    assert(batch_bytes(batch) + behind =~= MAGIC@ + (le_bytes(VERSION as nat, 2) + (le_bytes(0, 2)
        + fields)));
}

/// An encoded transaction that was cut off anywhere is refused.
pub proof fn law_truncated_transaction_is_refused(
    batch: ModelBatchView,
    len: nat,
    limits: BatchLimits,
)
    requires
        batch.error(limits) is None,
        forall|i: int| 0 <= i < batch.items.len() ==> (#[trigger] batch.items[i]).bounded(limits),
        encoded(batch, limits) is Ok,
        batch_bytes(batch).len() <= limits.max_encoded_bytes,
        len < batch_bytes(batch).len(),
    ensures
        decoded(batch_bytes(batch).take(len as int), limits) is Err,
{
    let whole = batch_bytes(batch);
    let cut = whole.take(len as int);
    if let Ok(other) = decoded(cut, limits) {
        law_encoding_is_canonical(cut, limits);
        lemma_header_inverse(cut);
        let (header, listed) = header_at(cut)->Ok_0;
        lemma_items_inverse(listed, header.count, limits);
        let behind = whole.skip(len as int);
        assert(whole =~= batch_bytes(other) + behind);
        law_trailing_bytes_are_refused(other, behind, limits);
        law_transaction_round_trip(batch, limits);
    }
}

/// Bytes over the limit, with another magic or another version, with a reserved field in use or
/// with too many items are refused for that.
pub proof fn law_foreign_transaction_is_refused(input: Seq<u8>, limits: BatchLimits)
    ensures
        input.len() > limits.max_encoded_bytes ==> decoded(input, limits) == Err::<
            ModelBatchView,
            BatchCodecError,
        >(
            BatchCodecError::EncodedTooLarge {
                actual: input.len() as usize,
                maximum: limits.max_encoded_bytes,
            },
        ),
        input.len() <= limits.max_encoded_bytes ==> {
            let magic = seq![0x56u8, 0x59, 0x52, 0x54, 0x58, 0x4e, 0x30, 0x31];
            let known = input.len() >= 52 && input.subrange(0, 8) == magic && le_value(
                input.subrange(8, 10),
            ) == 1;
            let count = le_value(input.subrange(48, 52));
            &&& input.len() < 52 ==> decoded(input, limits) is Err
            &&& input.len() >= 8 && input.subrange(0, 8) != magic ==> decoded(input, limits)
                == Err::<ModelBatchView, BatchCodecError>(BatchCodecError::InvalidMagic)
            &&& input.len() >= 10 && input.subrange(0, 8) == magic && le_value(
                input.subrange(8, 10),
            ) != 1 ==> decoded(input, limits) == Err::<ModelBatchView, BatchCodecError>(
                BatchCodecError::UnsupportedVersion(le_value(input.subrange(8, 10)) as u16),
            )
            &&& known && le_value(input.subrange(10, 12)) != 0 ==> decoded(input, limits)
                == Err::<ModelBatchView, BatchCodecError>(BatchCodecError::NonZeroReserved)
            &&& known && le_value(input.subrange(10, 12)) == 0 && count > limits.max_items
                ==> decoded(input, limits) == Err::<ModelBatchView, BatchCodecError>(
                BatchCodecError::TooManyItems {
                    actual: count as usize,
                    maximum: limits.max_items,
                },
            )
        },
{
    assert(MAGIC@ =~= seq![0x56u8, 0x59, 0x52, 0x54, 0x58, 0x4e, 0x30, 0x31]);
    if input.len() >= 8 {
        assert(input.take(8) =~= input.subrange(0, 8));
    }
    if input.len() >= 10 {
        assert(input.skip(8).take(2) =~= input.subrange(8, 10));
    }
    if input.len() >= 52 {
        assert(input.skip(8).skip(2) =~= input.skip(10));
        assert(input.skip(10).take(2) =~= input.subrange(10, 12));
        assert(input.skip(10).skip(2) =~= input.skip(12));
        assert(input.skip(12).skip(4) =~= input.skip(16));
        assert(input.skip(16).skip(8) =~= input.skip(24));
        assert(input.skip(24).skip(8) =~= input.skip(32));
        assert(input.skip(32).skip(8) =~= input.skip(40));
        assert(input.skip(40).skip(8) =~= input.skip(48));
        assert(input.skip(48).take(4) =~= input.subrange(48, 52));
    }
}

} // verus!
