//! Strict decoding of `pgoutput` messages and the canonical tuple encoding.

use super::lsn::LogSequenceNumber;
use super::transaction::{ChangeKind, RowChange, RowChangeView};
use super::wire::{
    le_bytes, lemma_next_bytes_of_concat, lemma_next_le_of_le_bytes, lemma_pow256_values, next_be,
    next_bytes, next_u8, put_bytes, put_u16, put_u32, utf8_text, Cursor,
};
use crate::text::{bracketed, decimal, numbered_text};
use vstd::prelude::*;
use vstd::utf8::{decode_utf8, valid_utf8};

verus! {

/// Most columns of a relation or tuple.
pub const MAX_COLUMNS: usize = 1_024;

/// Largest column value.
pub const MAX_COLUMN_BYTES: usize = 8_388_608;

/// Longest namespace, relation or column name.
pub const MAX_RELATION_NAME_BYTES: usize = 1_024;

/// Most relations of one truncate message.
pub const MAX_TRUNCATE_RELATIONS: u32 = 4_096;

/// Why a message or tuple was refused.
#[derive(Clone, Copy, Debug, PartialEq, Eq, Structural)]
pub enum PgOutputError {
    UnexpectedEof,
    LengthOverflow,
    UnsupportedMessage(u8),
    /// A transport met a message that it cannot classify. The decoder reports
    /// `UnsupportedMessage`.
    UnknownMessage(u8),
    InvalidReplicaIdentity(u8),
    InvalidTupleTag(u8),
    InvalidTupleColumnKind(u8),
    TooManyColumns(usize),
    ColumnTooLarge(usize),
    StringTooLong(usize),
    UnterminatedCString,
    InvalidUtf8,
    InvalidTruncateCount(usize),
    TrailingBytes(usize),
}

/// Which columns of the old row a relation publishes.
#[derive(Clone, Copy, Debug, PartialEq, Eq, Structural)]
pub enum ReplicaIdentity {
    Default,
    Nothing,
    Full,
    Index,
}

/// One column of a relation.
#[derive(Clone, Debug, PartialEq, Eq)]
pub struct ColumnMetadata {
    pub flags: u8,
    pub name: String,
    pub type_oid: u32,
    pub type_modifier: i32,
}

/// One relation.
#[derive(Clone, Debug, PartialEq, Eq)]
pub struct RelationMetadata {
    pub relation_id: u32,
    pub namespace: String,
    pub name: String,
    pub replica_identity: ReplicaIdentity,
    pub columns: Vec<ColumnMetadata>,
}

/// One column value of a tuple.
#[derive(Clone, Debug, PartialEq, Eq)]
pub enum TupleColumn {
    Null,
    UnchangedToast,
    Text(Vec<u8>),
    Binary(Vec<u8>),
}

/// The column values of one row.
#[derive(Clone, Debug, PartialEq, Eq)]
pub struct TupleData {
    pub columns: Vec<TupleColumn>,
}

/// One decoded message.
#[derive(Clone, Debug, PartialEq, Eq)]
pub enum PgOutputMessage {
    Begin { final_lsn: LogSequenceNumber, commit_timestamp_micros: i64, xid: u32 },
    Commit {
        flags: u8,
        commit_lsn: LogSequenceNumber,
        end_lsn: LogSequenceNumber,
        commit_timestamp_micros: i64,
    },
    Relation(RelationMetadata),
    Change(RowChange),
    Truncate { relation_ids: Vec<u32>, options: u8 },
}

// ---------------------------------------------------------------------------------------------
// Contents
// ---------------------------------------------------------------------------------------------

/// Contents of one column of a relation.
#[verifier::ext_equal]
pub struct ColumnView {
    pub flags: u8,
    pub name: Seq<char>,
    pub type_oid: u32,
    pub type_modifier: i32,
}

impl View for ColumnMetadata {
    type V = ColumnView;

    open spec fn view(&self) -> ColumnView {
        ColumnView {
            flags: self.flags,
            name: self.name@,
            type_oid: self.type_oid,
            type_modifier: self.type_modifier,
        }
    }
}

/// Contents of a relation.
#[verifier::ext_equal]
pub struct RelationView {
    pub relation_id: u32,
    pub namespace: Seq<char>,
    pub name: Seq<char>,
    pub replica_identity: ReplicaIdentity,
    pub columns: Seq<ColumnView>,
}

/// The contents of a list of relation columns, in order.
pub open spec fn columns_view(columns: Seq<ColumnMetadata>) -> Seq<ColumnView> {
    Seq::new(columns.len(), |i: int| columns[i]@)
}

impl View for RelationMetadata {
    type V = RelationView;

    open spec fn view(&self) -> RelationView {
        RelationView {
            relation_id: self.relation_id,
            namespace: self.namespace@,
            name: self.name@,
            replica_identity: self.replica_identity,
            columns: columns_view(self.columns@),
        }
    }
}

/// Contents of one column value.
#[verifier::ext_equal]
pub enum TupleColumnView {
    Null,
    UnchangedToast,
    Text(Seq<u8>),
    Binary(Seq<u8>),
}

impl View for TupleColumn {
    type V = TupleColumnView;

    open spec fn view(&self) -> TupleColumnView {
        match self {
            TupleColumn::Null => TupleColumnView::Null,
            TupleColumn::UnchangedToast => TupleColumnView::UnchangedToast,
            TupleColumn::Text(bytes) => TupleColumnView::Text(bytes@),
            TupleColumn::Binary(bytes) => TupleColumnView::Binary(bytes@),
        }
    }
}

/// The contents of a list of column values, in order.
pub open spec fn tuple_columns_view(columns: Seq<TupleColumn>) -> Seq<TupleColumnView> {
    Seq::new(columns.len(), |i: int| columns[i]@)
}

impl View for TupleData {
    type V = Seq<TupleColumnView>;

    open spec fn view(&self) -> Seq<TupleColumnView> {
        tuple_columns_view(self.columns@)
    }
}

/// Contents of a message.
#[verifier::ext_equal]
pub enum MessageView {
    Begin { final_lsn: LogSequenceNumber, commit_timestamp_micros: i64, xid: u32 },
    Commit {
        flags: u8,
        commit_lsn: LogSequenceNumber,
        end_lsn: LogSequenceNumber,
        commit_timestamp_micros: i64,
    },
    Relation(RelationView),
    Change(RowChangeView),
    Truncate { relation_ids: Seq<u32>, options: u8 },
}

impl View for PgOutputMessage {
    type V = MessageView;

    open spec fn view(&self) -> MessageView {
        match self {
            PgOutputMessage::Begin { final_lsn, commit_timestamp_micros, xid } => {
                MessageView::Begin {
                    final_lsn: *final_lsn,
                    commit_timestamp_micros: *commit_timestamp_micros,
                    xid: *xid,
                }
            },
            PgOutputMessage::Commit { flags, commit_lsn, end_lsn, commit_timestamp_micros } => {
                MessageView::Commit {
                    flags: *flags,
                    commit_lsn: *commit_lsn,
                    end_lsn: *end_lsn,
                    commit_timestamp_micros: *commit_timestamp_micros,
                }
            },
            PgOutputMessage::Relation(metadata) => MessageView::Relation(metadata@),
            PgOutputMessage::Change(change) => MessageView::Change(change@),
            PgOutputMessage::Truncate { relation_ids, options } => MessageView::Truncate {
                relation_ids: relation_ids@,
                options: *options,
            },
        }
    }
}

// ---------------------------------------------------------------------------------------------
// Canonical tuple encoding
// ---------------------------------------------------------------------------------------------

/// The canonical bytes of one column value.
pub open spec fn column_bytes(column: TupleColumnView) -> Seq<u8> {
    match column {
        TupleColumnView::Null => seq![0x6eu8],
        TupleColumnView::UnchangedToast => seq![0x75u8],
        TupleColumnView::Text(bytes) => seq![0x74u8] + le_bytes(bytes.len(), 4) + bytes,
        TupleColumnView::Binary(bytes) => seq![0x62u8] + le_bytes(bytes.len(), 4) + bytes,
    }
}

/// The canonical bytes of a list of column values.
pub open spec fn columns_bytes(columns: Seq<TupleColumnView>) -> Seq<u8>
    decreases columns.len(),
{
    if columns.len() == 0 {
        Seq::empty()
    } else {
        columns_bytes(columns.drop_last()) + column_bytes(columns.last())
    }
}

/// The canonical bytes of a tuple: its column count and its columns, little-endian.
pub open spec fn tuple_bytes(columns: Seq<TupleColumnView>) -> Seq<u8> {
    le_bytes(columns.len(), 2) + columns_bytes(columns)
}

/// The length of `column` where it exceeds the column limit.
pub open spec fn oversize_column(column: TupleColumnView) -> Option<nat> {
    match column {
        TupleColumnView::Text(bytes) if bytes.len() > MAX_COLUMN_BYTES => Some(bytes.len()),
        TupleColumnView::Binary(bytes) if bytes.len() > MAX_COLUMN_BYTES => Some(bytes.len()),
        _ => None,
    }
}

/// The length of the first column that exceeds the column limit.
pub open spec fn first_oversize_column(columns: Seq<TupleColumnView>) -> Option<nat>
    decreases columns.len(),
{
    if columns.len() == 0 {
        None
    } else if oversize_column(columns[0]) is Some {
        oversize_column(columns[0])
    } else {
        first_oversize_column(columns.drop_first())
    }
}

/// The canonical bytes of a tuple within the limits, or the limit it breaks.
pub open spec fn encoded_tuple(columns: Seq<TupleColumnView>) -> Result<Seq<u8>, PgOutputError> {
    if columns.len() > MAX_COLUMNS {
        Err(PgOutputError::TooManyColumns(columns.len() as usize))
    } else {
        match first_oversize_column(columns) {
            Some(len) => Err(PgOutputError::ColumnTooLarge(len as usize)),
            None => Ok(tuple_bytes(columns)),
        }
    }
}

fn put_column(out: &mut Vec<u8>, kind: u8, bytes: &Vec<u8>)
    requires
        bytes@.len() <= MAX_COLUMN_BYTES,
    ensures
        final(out)@ == old(out)@ + (seq![kind] + le_bytes(bytes@.len(), 4) + bytes@),
{
    let ghost start = out@;
    out.push(kind);
    put_u32(out, bytes.len() as u32);
    put_bytes(out, bytes.as_slice());
    assert(out@ =~= start + (seq![kind] + le_bytes(bytes@.len(), 4) + bytes@));
}

proof fn lemma_no_oversize_column(columns: Seq<TupleColumnView>, index: int)
    requires
        first_oversize_column(columns) is None,
        0 <= index < columns.len(),
    ensures
        oversize_column(columns[index]) is None,
    decreases columns.len(),
{
    if index > 0 {
        lemma_no_oversize_column(columns.drop_first(), index - 1);
    }
}

impl TupleData {
    /// Canonical encoding that keeps column kinds and interprets no types.
    pub fn encode(&self) -> (result: Result<Vec<u8>, PgOutputError>)
        ensures
            match result {
                Ok(bytes) => encoded_tuple(self@) == Ok::<Seq<u8>, PgOutputError>(bytes@),
                Err(error) => encoded_tuple(self@) == Err::<Seq<u8>, PgOutputError>(error),
            },
    {
        if self.columns.len() > MAX_COLUMNS {
            return Err(PgOutputError::TooManyColumns(self.columns.len()));
        }
        let ghost views = self@;
        let mut index: usize = 0;
        assert(views.skip(0) =~= views);
        while index < self.columns.len()
            invariant
                index <= self.columns@.len() <= MAX_COLUMNS,
                views == tuple_columns_view(self.columns@),
                views == self@,
                first_oversize_column(views) == first_oversize_column(views.skip(index as int)),
            decreases self.columns@.len() - index,
        {
            let ghost left = views.skip(index as int);
            assert(left[0] == self.columns@[index as int]@);
            assert(left.drop_first() =~= views.skip(index + 1));
            match &self.columns[index] {
                TupleColumn::Text(bytes) => {
                    if bytes.len() > MAX_COLUMN_BYTES {
                        return Err(PgOutputError::ColumnTooLarge(bytes.len()));
                    }
                },
                TupleColumn::Binary(bytes) => {
                    if bytes.len() > MAX_COLUMN_BYTES {
                        return Err(PgOutputError::ColumnTooLarge(bytes.len()));
                    }
                },
                _ => {},
            }
            index = index + 1;
        }
        Ok(self.encode_validated())
    }

    fn encode_validated(&self) -> (bytes: Vec<u8>)
        requires
            self@.len() <= MAX_COLUMNS,
            first_oversize_column(self@) is None,
        ensures
            bytes@ == tuple_bytes(self@),
    {
        let ghost views = self@;
        let mut out: Vec<u8> = Vec::new();
        put_u16(&mut out, self.columns.len() as u16);
        let ghost head = le_bytes(views.len(), 2);
        assert(out@ =~= head);
        assert(views.take(0) =~= Seq::empty());
        assert(out@ =~= head + columns_bytes(views.take(0)));
        let mut index: usize = 0;
        while index < self.columns.len()
            invariant
                index <= self.columns@.len() <= MAX_COLUMNS,
                views == tuple_columns_view(self.columns@),
                first_oversize_column(views) is None,
                out@ == head + columns_bytes(views.take(index as int)),
            decreases self.columns@.len() - index,
        {
            let ghost before = out@;
            proof {
                lemma_no_oversize_column(views, index as int);
                assert(views.take(index + 1).drop_last() =~= views.take(index as int));
                assert(views.take(index + 1).last() == self.columns@[index as int]@);
            }
            match &self.columns[index] {
                TupleColumn::Null => {
                    out.push(0x6e);
                    assert(out@ =~= before + seq![0x6eu8]);
                },
                TupleColumn::UnchangedToast => {
                    out.push(0x75);
                    assert(out@ =~= before + seq![0x75u8]);
                },
                TupleColumn::Text(bytes) => put_column(&mut out, 0x74, bytes),
                TupleColumn::Binary(bytes) => put_column(&mut out, 0x62, bytes),
            }
            assert(out@ == before + column_bytes(views[index as int]));
            assert(out@ =~= head + (columns_bytes(views.take(index as int)) + column_bytes(
                views[index as int],
            )));
            index = index + 1;
        }
        assert(views.take(views.len() as int) =~= views);
        out
    }
}

// ---------------------------------------------------------------------------------------------
// Message format
// ---------------------------------------------------------------------------------------------

/// A parsed value with the input behind it.
pub type Parsed<V> = Result<(V, Seq<u8>), PgOutputError>;

/// The first byte of `input`.
pub open spec fn byte_at(input: Seq<u8>) -> Parsed<u8> {
    match next_u8(input) {
        Some(found) => Ok(found),
        None => Err(PgOutputError::UnexpectedEof),
    }
}

/// The big-endian number in the first `width` bytes of `input`.
pub open spec fn number_at(input: Seq<u8>, width: nat) -> Parsed<nat> {
    match next_be(input, width) {
        Some(found) => Ok(found),
        None => Err(PgOutputError::UnexpectedEof),
    }
}

/// The first `count` bytes of `input`.
pub open spec fn bytes_at(input: Seq<u8>, count: nat) -> Parsed<Seq<u8>> {
    match next_bytes(input, count) {
        Some(found) => Ok(found),
        None => Err(PgOutputError::UnexpectedEof),
    }
}

/// The index of the first zero byte of `input`.
pub open spec fn first_zero(input: Seq<u8>) -> Option<nat>
    decreases input.len(),
{
    if input.len() == 0 {
        None
    } else if input[0] == 0 {
        Some(0)
    } else {
        match first_zero(input.drop_first()) {
            Some(index) => Some(index + 1),
            None => None,
        }
    }
}

/// The zero-terminated UTF-8 name at the start of `input`.
pub open spec fn name_at(input: Seq<u8>) -> Parsed<Seq<char>> {
    match first_zero(input) {
        None => Err(PgOutputError::UnterminatedCString),
        Some(end) => if end > MAX_RELATION_NAME_BYTES {
            Err(PgOutputError::StringTooLong(end as usize))
        } else if !valid_utf8(input.take(end as int)) {
            Err(PgOutputError::InvalidUtf8)
        } else {
            Ok((decode_utf8(input.take(end as int)), input.skip((end + 1) as int)))
        },
    }
}

/// The replica identity with this code.
pub open spec fn identity_of(code: u8) -> Result<ReplicaIdentity, PgOutputError> {
    if code == 0x64 {
        Ok(ReplicaIdentity::Default)
    } else if code == 0x6e {
        Ok(ReplicaIdentity::Nothing)
    } else if code == 0x66 {
        Ok(ReplicaIdentity::Full)
    } else if code == 0x69 {
        Ok(ReplicaIdentity::Index)
    } else {
        Err(PgOutputError::InvalidReplicaIdentity(code))
    }
}

/// The relation column at the start of `input`.
pub open spec fn column_at(input: Seq<u8>) -> Parsed<ColumnView> {
    match byte_at(input) {
        Err(error) => Err(error),
        Ok((flags, rest)) => match name_at(rest) {
            Err(error) => Err(error),
            Ok((name, rest)) => match number_at(rest, 4) {
                Err(error) => Err(error),
                Ok((type_oid, rest)) => match number_at(rest, 4) {
                    Err(error) => Err(error),
                    Ok((modifier, rest)) => Ok(
                        (
                            ColumnView {
                                flags,
                                name,
                                type_oid: type_oid as u32,
                                type_modifier: (modifier as u32) as i32,
                            },
                            rest,
                        ),
                    ),
                },
            },
        },
    }
}

/// `done` put in front of a parsed list.
pub open spec fn prepended<V>(done: Seq<V>, parsed: Parsed<Seq<V>>) -> Parsed<Seq<V>> {
    match parsed {
        Ok((more, rest)) => Ok((done + more, rest)),
        Err(error) => Err(error),
    }
}

/// `count` relation columns at the start of `input`.
pub open spec fn columns_at(input: Seq<u8>, count: nat) -> Parsed<Seq<ColumnView>>
    decreases count,
{
    if count == 0 {
        Ok((Seq::empty(), input))
    } else {
        match column_at(input) {
            Err(error) => Err(error),
            Ok((column, rest)) => prepended(seq![column], columns_at(rest, (count - 1) as nat)),
        }
    }
}

/// The relation at the start of `input`.
pub open spec fn relation_at(input: Seq<u8>) -> Parsed<RelationView> {
    match number_at(input, 4) {
        Err(error) => Err(error),
        Ok((relation_id, rest)) => match name_at(rest) {
            Err(error) => Err(error),
            Ok((namespace, rest)) => match name_at(rest) {
                Err(error) => Err(error),
                Ok((name, rest)) => match byte_at(rest) {
                    Err(error) => Err(error),
                    Ok((code, rest)) => match identity_of(code) {
                        Err(error) => Err(error),
                        Ok(replica_identity) => match number_at(rest, 2) {
                            Err(error) => Err(error),
                            Ok((count, rest)) => if count > MAX_COLUMNS {
                                Err(PgOutputError::TooManyColumns(count as usize))
                            } else {
                                match columns_at(rest, count) {
                                    Err(error) => Err(error),
                                    Ok((columns, rest)) => Ok(
                                        (
                                            RelationView {
                                                relation_id: relation_id as u32,
                                                namespace,
                                                name,
                                                replica_identity,
                                                columns,
                                            },
                                            rest,
                                        ),
                                    ),
                                }
                            },
                        },
                    },
                },
            },
        },
    }
}

/// The length-prefixed column bytes at the start of `input`.
pub open spec fn sized_bytes_at(input: Seq<u8>) -> Parsed<Seq<u8>> {
    match number_at(input, 4) {
        Err(error) => Err(error),
        Ok((len, rest)) => if len > MAX_COLUMN_BYTES {
            Err(PgOutputError::ColumnTooLarge(len as usize))
        } else {
            bytes_at(rest, len)
        },
    }
}

/// The column value at the start of `input`.
pub open spec fn tuple_column_at(input: Seq<u8>) -> Parsed<TupleColumnView> {
    match byte_at(input) {
        Err(error) => Err(error),
        Ok((kind, rest)) => if kind == 0x6e {
            Ok((TupleColumnView::Null, rest))
        } else if kind == 0x75 {
            Ok((TupleColumnView::UnchangedToast, rest))
        } else if kind == 0x74 {
            match sized_bytes_at(rest) {
                Err(error) => Err(error),
                Ok((bytes, rest)) => Ok((TupleColumnView::Text(bytes), rest)),
            }
        } else if kind == 0x62 {
            match sized_bytes_at(rest) {
                Err(error) => Err(error),
                Ok((bytes, rest)) => Ok((TupleColumnView::Binary(bytes), rest)),
            }
        } else {
            Err(PgOutputError::InvalidTupleColumnKind(kind))
        },
    }
}

/// `count` column values at the start of `input`.
pub open spec fn tuple_columns_at(input: Seq<u8>, count: nat) -> Parsed<Seq<TupleColumnView>>
    decreases count,
{
    if count == 0 {
        Ok((Seq::empty(), input))
    } else {
        match tuple_column_at(input) {
            Err(error) => Err(error),
            Ok((column, rest)) => prepended(
                seq![column],
                tuple_columns_at(rest, (count - 1) as nat),
            ),
        }
    }
}

/// The tuple at the start of `input`.
pub open spec fn tuple_at(input: Seq<u8>) -> Parsed<Seq<TupleColumnView>> {
    match number_at(input, 2) {
        Err(error) => Err(error),
        Ok((count, rest)) => if count > MAX_COLUMNS {
            Err(PgOutputError::TooManyColumns(count as usize))
        } else {
            tuple_columns_at(rest, count)
        },
    }
}

/// The insert at the start of `input`.
pub open spec fn insert_at(input: Seq<u8>) -> Parsed<RowChangeView> {
    match number_at(input, 4) {
        Err(error) => Err(error),
        Ok((relation_id, rest)) => match byte_at(rest) {
            Err(error) => Err(error),
            Ok((tag, rest)) => if tag != 0x4e {
                Err(PgOutputError::InvalidTupleTag(tag))
            } else {
                match tuple_at(rest) {
                    Err(error) => Err(error),
                    Ok((columns, rest)) => Ok(
                        (
                            RowChangeView {
                                relation_id: relation_id as u32,
                                kind: ChangeKind::Insert,
                                old_tuple: None,
                                new_tuple: Some(tuple_bytes(columns)),
                            },
                            rest,
                        ),
                    ),
                }
            },
        },
    }
}

/// The new tuple of an update, behind the optional old one.
pub open spec fn updated_at(
    input: Seq<u8>,
    relation_id: u32,
    old_tuple: Option<Seq<u8>>,
) -> Parsed<RowChangeView> {
    match tuple_at(input) {
        Err(error) => Err(error),
        Ok((columns, rest)) => Ok(
            (
                RowChangeView {
                    relation_id,
                    kind: ChangeKind::Update,
                    old_tuple,
                    new_tuple: Some(tuple_bytes(columns)),
                },
                rest,
            ),
        ),
    }
}

/// The update at the start of `input`.
pub open spec fn update_at(input: Seq<u8>) -> Parsed<RowChangeView> {
    match number_at(input, 4) {
        Err(error) => Err(error),
        Ok((relation_id, rest)) => match byte_at(rest) {
            Err(error) => Err(error),
            Ok((tag, rest)) => if tag == 0x4b || tag == 0x4f {
                match tuple_at(rest) {
                    Err(error) => Err(error),
                    Ok((columns, rest)) => match byte_at(rest) {
                        Err(error) => Err(error),
                        Ok((tag, rest)) => if tag != 0x4e {
                            Err(PgOutputError::InvalidTupleTag(tag))
                        } else {
                            updated_at(rest, relation_id as u32, Some(tuple_bytes(columns)))
                        },
                    },
                }
            } else if tag == 0x4e {
                updated_at(rest, relation_id as u32, None)
            } else {
                Err(PgOutputError::InvalidTupleTag(tag))
            },
        },
    }
}

/// The delete at the start of `input`.
pub open spec fn delete_at(input: Seq<u8>) -> Parsed<RowChangeView> {
    match number_at(input, 4) {
        Err(error) => Err(error),
        Ok((relation_id, rest)) => match byte_at(rest) {
            Err(error) => Err(error),
            Ok((tag, rest)) => if tag != 0x4b && tag != 0x4f {
                Err(PgOutputError::InvalidTupleTag(tag))
            } else {
                match tuple_at(rest) {
                    Err(error) => Err(error),
                    Ok((columns, rest)) => Ok(
                        (
                            RowChangeView {
                                relation_id: relation_id as u32,
                                kind: ChangeKind::Delete,
                                old_tuple: Some(tuple_bytes(columns)),
                                new_tuple: None,
                            },
                            rest,
                        ),
                    ),
                }
            },
        },
    }
}

/// `count` relation ids at the start of `input`.
pub open spec fn ids_at(input: Seq<u8>, count: nat) -> Parsed<Seq<u32>>
    decreases count,
{
    if count == 0 {
        Ok((Seq::empty(), input))
    } else {
        match number_at(input, 4) {
            Err(error) => Err(error),
            Ok((id, rest)) => prepended(seq![id as u32], ids_at(rest, (count - 1) as nat)),
        }
    }
}

/// The truncate at the start of `input`.
pub open spec fn truncate_at(input: Seq<u8>) -> Parsed<MessageView> {
    match number_at(input, 4) {
        Err(error) => Err(error),
        Ok((count, rest)) => if count == 0 || count > MAX_TRUNCATE_RELATIONS {
            Err(PgOutputError::InvalidTruncateCount(count as usize))
        } else {
            match byte_at(rest) {
                Err(error) => Err(error),
                Ok((options, rest)) => match ids_at(rest, count) {
                    Err(error) => Err(error),
                    Ok((relation_ids, rest)) => Ok(
                        (MessageView::Truncate { relation_ids, options }, rest),
                    ),
                },
            }
        },
    }
}

/// The begin at the start of `input`.
pub open spec fn begin_at(input: Seq<u8>) -> Parsed<MessageView> {
    match number_at(input, 8) {
        Err(error) => Err(error),
        Ok((final_lsn, rest)) => match number_at(rest, 8) {
            Err(error) => Err(error),
            Ok((time, rest)) => match number_at(rest, 4) {
                Err(error) => Err(error),
                Ok((xid, rest)) => Ok(
                    (
                        MessageView::Begin {
                            final_lsn: LogSequenceNumber(final_lsn as u64),
                            commit_timestamp_micros: (time as u64) as i64,
                            xid: xid as u32,
                        },
                        rest,
                    ),
                ),
            },
        },
    }
}

/// The commit at the start of `input`.
pub open spec fn commit_at(input: Seq<u8>) -> Parsed<MessageView> {
    match byte_at(input) {
        Err(error) => Err(error),
        Ok((flags, rest)) => match number_at(rest, 8) {
            Err(error) => Err(error),
            Ok((commit_lsn, rest)) => match number_at(rest, 8) {
                Err(error) => Err(error),
                Ok((end_lsn, rest)) => match number_at(rest, 8) {
                    Err(error) => Err(error),
                    Ok((time, rest)) => Ok(
                        (
                            MessageView::Commit {
                                flags,
                                commit_lsn: LogSequenceNumber(commit_lsn as u64),
                                end_lsn: LogSequenceNumber(end_lsn as u64),
                                commit_timestamp_micros: (time as u64) as i64,
                            },
                            rest,
                        ),
                    ),
                },
            },
        },
    }
}

/// A parsed row change as a message.
pub open spec fn change_message(parsed: Parsed<RowChangeView>) -> Parsed<MessageView> {
    match parsed {
        Err(error) => Err(error),
        Ok((change, rest)) => Ok((MessageView::Change(change), rest)),
    }
}

/// The body of a message with this tag.
pub open spec fn body_at(tag: u8, input: Seq<u8>) -> Parsed<MessageView> {
    if tag == 0x42 {
        begin_at(input)
    } else if tag == 0x43 {
        commit_at(input)
    } else if tag == 0x52 {
        match relation_at(input) {
            Err(error) => Err(error),
            Ok((relation, rest)) => Ok((MessageView::Relation(relation), rest)),
        }
    } else if tag == 0x49 {
        change_message(insert_at(input))
    } else if tag == 0x55 {
        change_message(update_at(input))
    } else if tag == 0x44 {
        change_message(delete_at(input))
    } else if tag == 0x54 {
        truncate_at(input)
    } else {
        Err(PgOutputError::UnsupportedMessage(tag))
    }
}

/// The message that the whole of `input` is.
pub open spec fn message_of(input: Seq<u8>) -> Result<MessageView, PgOutputError> {
    match byte_at(input) {
        Err(error) => Err(error),
        Ok((tag, rest)) => match body_at(tag, rest) {
            Err(error) => Err(error),
            Ok((message, rest)) => if rest.len() > 0 {
                Err(PgOutputError::TrailingBytes(rest.len() as usize))
            } else {
                Ok(message)
            },
        },
    }
}


// ---------------------------------------------------------------------------------------------
// Decoding
// ---------------------------------------------------------------------------------------------

fn read_byte(cursor: &mut Cursor<'_>) -> (result: Result<u8, PgOutputError>)
    ensures
        match result {
            Ok(value) => byte_at(old(cursor).rest()) matches Ok((parsed, rest))
                && parsed == value
                && rest == final(cursor).rest(),
            Err(error) => byte_at(old(cursor).rest()) matches Err(expected) && expected == error,
        },
{
    match cursor.u8() {
        Some(value) => Ok(value),
        None => Err(PgOutputError::UnexpectedEof),
    }
}

fn read_number(cursor: &mut Cursor<'_>, width: usize) -> (result: Result<u64, PgOutputError>)
    requires
        width <= 8,
    ensures
        match result {
            Ok(value) => number_at(old(cursor).rest(), width as nat) matches Ok((parsed, rest))
                && parsed == value as nat
                && rest == final(cursor).rest()
                && value < crate::cdc::wire::pow256(width as nat),
            Err(error) => number_at(old(cursor).rest(), width as nat) matches Err(expected)
                && expected == error,
        },
{
    match cursor.be(width) {
        Some(value) => Ok(value),
        None => Err(PgOutputError::UnexpectedEof),
    }
}

pub(crate) proof fn lemma_first_zero(input: Seq<u8>, index: nat)
    requires
        index <= input.len(),
        forall|i: int| 0 <= i < index ==> input[i] != 0,
    ensures
        index == input.len() ==> first_zero(input) is None,
        index < input.len() && input[index as int] == 0 ==> first_zero(input) == Some(index),
    decreases input.len(),
{
    if input.len() > 0 && index > 0 {
        lemma_first_zero(input.drop_first(), (index - 1) as nat);
    }
}

fn read_name(cursor: &mut Cursor<'_>) -> (result: Result<String, PgOutputError>)
    ensures
        match result {
            Ok(value) => name_at(old(cursor).rest()) matches Ok((parsed, rest))
                && parsed == value@
                && rest == final(cursor).rest(),
            Err(error) => name_at(old(cursor).rest()) matches Err(expected) && expected == error,
        },
{
    let tail = cursor.tail();
    let mut end: usize = 0;
    while end < tail.len() && tail[end] != 0
        invariant
            end <= tail@.len(),
            forall|i: int| 0 <= i < end ==> tail@[i] != 0,
        decreases tail@.len() - end,
    {
        end = end + 1;
    }
    proof {
        lemma_first_zero(tail@, end as nat);
    }
    if end == tail.len() {
        return Err(PgOutputError::UnterminatedCString);
    }
    if end > MAX_RELATION_NAME_BYTES {
        return Err(PgOutputError::StringTooLong(end));
    }
    let ghost whole = cursor.rest();
    let bytes = match cursor.take(end) {
        Some(bytes) => bytes,
        None => return Err(PgOutputError::UnterminatedCString),
    };
    match cursor.u8() {
        Some(_) => {},
        None => return Err(PgOutputError::UnterminatedCString),
    }
    assert(cursor.rest() =~= whole.skip(end + 1));
    match utf8_text(bytes) {
        Some(text) => Ok(text),
        None => Err(PgOutputError::InvalidUtf8),
    }
}

fn read_column(cursor: &mut Cursor<'_>) -> (result: Result<ColumnMetadata, PgOutputError>)
    ensures
        match result {
            Ok(value) => column_at(old(cursor).rest()) matches Ok((parsed, rest))
                && parsed == value@
                && rest == final(cursor).rest(),
            Err(error) => column_at(old(cursor).rest()) matches Err(expected) && expected == error,
        },
{
    proof {
        lemma_pow256_values();
    }
    let flags: u8 = read_byte(cursor)?;
    let name = read_name(cursor)?;
    let type_oid: u32 = read_number(cursor, 4)? as u32;
    let modifier: u32 = read_number(cursor, 4)? as u32;
    Ok(ColumnMetadata { flags, name, type_oid, type_modifier: modifier as i32 })
}

proof fn lemma_prepend_nothing<V>(parsed: Parsed<Seq<V>>)
    ensures
        prepended(Seq::empty(), parsed) == parsed,
{
    if parsed is Ok {
        assert(Seq::<V>::empty() + parsed->Ok_0.0 =~= parsed->Ok_0.0);
    }
}

proof fn lemma_prepend_one<V>(done: Seq<V>, one: V, more: Parsed<Seq<V>>)
    ensures
        prepended(done, prepended(seq![one], more)) == prepended(done.push(one), more),
{
    if more is Ok {
        assert(done + (seq![one] + more->Ok_0.0) =~= done.push(one) + more->Ok_0.0);
    }
}

proof fn lemma_prepend_to_end<V>(done: Seq<V>, rest: Seq<u8>)
    ensures
        prepended(done, Ok((Seq::empty(), rest))) == Ok::<(Seq<V>, Seq<u8>), PgOutputError>(
            (done, rest),
        ),
{
    assert(done + Seq::<V>::empty() =~= done);
}

#[verifier::loop_isolation(false)]
fn read_columns(cursor: &mut Cursor<'_>, count: usize) -> (result: Result<
    Vec<ColumnMetadata>,
    PgOutputError,
>)
    ensures
        match result {
            Ok(value) => columns_at(old(cursor).rest(), count as nat) matches Ok((parsed, rest))
                && parsed == columns_view(value@)
                && rest == final(cursor).rest(),
            Err(error) => columns_at(old(cursor).rest(), count as nat) matches Err(expected)
                && expected == error,
        },
{
    let ghost start = cursor.rest();
    let mut value: Vec<ColumnMetadata> = Vec::with_capacity(count);
    let mut index: usize = 0;
    assert(columns_view(value@) =~= Seq::empty());
    proof {
        lemma_prepend_nothing(columns_at(start, count as nat));
    }
    while index < count
        invariant
            index <= count,
            columns_at(start, count as nat) == prepended(
                columns_view(value@),
                columns_at(cursor.rest(), (count - index) as nat),
            ),
        decreases count - index,
    {
        let ghost done = columns_view(value@);
        let item = read_column(cursor)?;
        proof {
            lemma_prepend_one(
                done,
                item@,
                columns_at(cursor.rest(), (count - index - 1) as nat),
            );
        }
        value.push(item);
        assert(columns_view(value@) =~= done.push(item@));
        index = index + 1;
    }
    proof {
        lemma_prepend_to_end(columns_view(value@), cursor.rest());
    }
    Ok(value)
}

fn decode_relation(cursor: &mut Cursor<'_>) -> (result: Result<RelationMetadata, PgOutputError>)
    ensures
        match result {
            Ok(value) => relation_at(old(cursor).rest()) matches Ok((parsed, rest))
                && parsed == value@
                && rest == final(cursor).rest(),
            Err(error) => relation_at(old(cursor).rest()) matches Err(expected)
                && expected == error,
        },
{
    proof {
        lemma_pow256_values();
    }
    let relation_id: u32 = read_number(cursor, 4)? as u32;
    let namespace = read_name(cursor)?;
    let name = read_name(cursor)?;
    let replica_identity = match read_byte(cursor)? {
        0x64 => ReplicaIdentity::Default,
        0x6e => ReplicaIdentity::Nothing,
        0x66 => ReplicaIdentity::Full,
        0x69 => ReplicaIdentity::Index,
        other => return Err(PgOutputError::InvalidReplicaIdentity(other)),
    };
    let count: usize = read_number(cursor, 2)? as usize;
    if count > MAX_COLUMNS {
        return Err(PgOutputError::TooManyColumns(count));
    }
    let columns = read_columns(cursor, count)?;
    Ok(RelationMetadata { relation_id, namespace, name, replica_identity, columns })
}

fn read_sized_bytes(cursor: &mut Cursor<'_>) -> (result: Result<Vec<u8>, PgOutputError>)
    ensures
        match result {
            Ok(value) => sized_bytes_at(old(cursor).rest()) matches Ok((parsed, rest))
                && parsed == value@
                && rest == final(cursor).rest(),
            Err(error) => sized_bytes_at(old(cursor).rest()) matches Err(expected)
                && expected == error,
        },
{
    proof {
        lemma_pow256_values();
    }
    let len: usize = read_number(cursor, 4)? as usize;
    if len > MAX_COLUMN_BYTES {
        return Err(PgOutputError::ColumnTooLarge(len));
    }
    match cursor.take(len) {
        Some(bytes) => Ok(vstd::slice::slice_to_vec(bytes)),
        None => Err(PgOutputError::UnexpectedEof),
    }
}

fn read_tuple_column(cursor: &mut Cursor<'_>) -> (result: Result<TupleColumn, PgOutputError>)
    ensures
        match result {
            Ok(value) => tuple_column_at(old(cursor).rest()) matches Ok((parsed, rest))
                && parsed == value@
                && rest == final(cursor).rest(),
            Err(error) => tuple_column_at(old(cursor).rest()) matches Err(expected)
                && expected == error,
        },
{
    match read_byte(cursor)? {
        0x6e => Ok(TupleColumn::Null),
        0x75 => Ok(TupleColumn::UnchangedToast),
        0x74 => Ok(TupleColumn::Text(read_sized_bytes(cursor)?)),
        0x62 => Ok(TupleColumn::Binary(read_sized_bytes(cursor)?)),
        other => Err(PgOutputError::InvalidTupleColumnKind(other)),
    }
}

#[verifier::loop_isolation(false)]
fn read_tuple_columns(cursor: &mut Cursor<'_>, count: usize) -> (result: Result<
    Vec<TupleColumn>,
    PgOutputError,
>)
    ensures
        match result {
            Ok(value) => tuple_columns_at(old(cursor).rest(), count as nat) matches Ok((parsed, rest))
                && parsed == tuple_columns_view(value@)
                && rest == final(cursor).rest(),
            Err(error) => tuple_columns_at(old(cursor).rest(), count as nat) matches Err(expected)
                && expected == error,
        },
{
    let ghost start = cursor.rest();
    let mut value: Vec<TupleColumn> = Vec::with_capacity(count);
    let mut index: usize = 0;
    assert(tuple_columns_view(value@) =~= Seq::empty());
    proof {
        lemma_prepend_nothing(tuple_columns_at(start, count as nat));
    }
    while index < count
        invariant
            index <= count,
            tuple_columns_at(start, count as nat) == prepended(
                tuple_columns_view(value@),
                tuple_columns_at(cursor.rest(), (count - index) as nat),
            ),
        decreases count - index,
    {
        let ghost done = tuple_columns_view(value@);
        let item = read_tuple_column(cursor)?;
        proof {
            lemma_prepend_one(
                done,
                item@,
                tuple_columns_at(cursor.rest(), (count - index - 1) as nat),
            );
        }
        value.push(item);
        assert(tuple_columns_view(value@) =~= done.push(item@));
        index = index + 1;
    }
    proof {
        lemma_prepend_to_end(tuple_columns_view(value@), cursor.rest());
    }
    Ok(value)
}

proof fn lemma_tuple_columns_fit(input: Seq<u8>, count: nat)
    ensures
        tuple_columns_at(input, count) matches Ok((columns, _)) ==> columns.len() == count
            && first_oversize_column(columns) is None,
    decreases count,
{
    if count > 0 {
        if let Ok((column, rest)) = tuple_column_at(input) {
            lemma_tuple_columns_fit(rest, (count - 1) as nat);
            if let Ok((columns, _)) = tuple_columns_at(rest, (count - 1) as nat) {
                assert((seq![column] + columns).drop_first() =~= columns);
            }
        }
    }
}

/// Reads a tuple and gives its canonical encoding.
fn decode_tuple(cursor: &mut Cursor<'_>) -> (result: Result<Vec<u8>, PgOutputError>)
    ensures
        match result {
            Ok(value) => tuple_at(old(cursor).rest()) matches Ok((columns, rest)) && value@
                == tuple_bytes(columns) && rest == final(cursor).rest(),
            Err(error) => tuple_at(old(cursor).rest()) matches Err(expected) && expected == error,
        },
{
    proof {
        lemma_pow256_values();
    }
    let count: usize = read_number(cursor, 2)? as usize;
    if count > MAX_COLUMNS {
        return Err(PgOutputError::TooManyColumns(count));
    }
    proof {
        lemma_tuple_columns_fit(cursor.rest(), count as nat);
    }
    let columns = read_tuple_columns(cursor, count)?;
    let tuple = TupleData { columns };
    Ok(tuple.encode_validated())
}

fn decode_insert(cursor: &mut Cursor<'_>) -> (result: Result<RowChange, PgOutputError>)
    ensures
        match result {
            Ok(value) => insert_at(old(cursor).rest()) matches Ok((parsed, rest))
                && parsed == value@
                && rest == final(cursor).rest(),
            Err(error) => insert_at(old(cursor).rest()) matches Err(expected) && expected == error,
        },
{
    proof {
        lemma_pow256_values();
    }
    let relation_id: u32 = read_number(cursor, 4)? as u32;
    let tag: u8 = read_byte(cursor)?;
    if tag != 0x4e {
        return Err(PgOutputError::InvalidTupleTag(tag));
    }
    let tuple = decode_tuple(cursor)?;
    Ok(RowChange::new(relation_id, ChangeKind::Insert, None, Some(tuple)))
}

fn decode_update(cursor: &mut Cursor<'_>) -> (result: Result<RowChange, PgOutputError>)
    ensures
        match result {
            Ok(value) => update_at(old(cursor).rest()) matches Ok((parsed, rest))
                && parsed == value@
                && rest == final(cursor).rest(),
            Err(error) => update_at(old(cursor).rest()) matches Err(expected) && expected == error,
        },
{
    proof {
        lemma_pow256_values();
    }
    let relation_id: u32 = read_number(cursor, 4)? as u32;
    let first: u8 = read_byte(cursor)?;
    let old_tuple = if first == 0x4b || first == 0x4f {
        let tuple = decode_tuple(cursor)?;
        let next: u8 = read_byte(cursor)?;
        if next != 0x4e {
            return Err(PgOutputError::InvalidTupleTag(next));
        }
        Some(tuple)
    } else if first == 0x4e {
        None
    } else {
        return Err(PgOutputError::InvalidTupleTag(first));
    };
    let new_tuple = decode_tuple(cursor)?;
    Ok(RowChange::new(relation_id, ChangeKind::Update, old_tuple, Some(new_tuple)))
}

fn decode_delete(cursor: &mut Cursor<'_>) -> (result: Result<RowChange, PgOutputError>)
    ensures
        match result {
            Ok(value) => delete_at(old(cursor).rest()) matches Ok((parsed, rest))
                && parsed == value@
                && rest == final(cursor).rest(),
            Err(error) => delete_at(old(cursor).rest()) matches Err(expected) && expected == error,
        },
{
    proof {
        lemma_pow256_values();
    }
    let relation_id: u32 = read_number(cursor, 4)? as u32;
    let tag: u8 = read_byte(cursor)?;
    if tag != 0x4b && tag != 0x4f {
        return Err(PgOutputError::InvalidTupleTag(tag));
    }
    let tuple = decode_tuple(cursor)?;
    Ok(RowChange::new(relation_id, ChangeKind::Delete, Some(tuple), None))
}

fn read_id(cursor: &mut Cursor<'_>) -> (result: Result<u32, PgOutputError>)
    ensures
        match result {
            Ok(value) => number_at(old(cursor).rest(), 4) matches Ok((id, rest)) && value
                == id as u32 && rest == final(cursor).rest(),
            Err(error) => number_at(old(cursor).rest(), 4) matches Err(expected)
                && expected == error,
        },
{
    proof {
        lemma_pow256_values();
    }
    Ok(read_number(cursor, 4)? as u32)
}

#[verifier::loop_isolation(false)]
fn read_ids(cursor: &mut Cursor<'_>, count: usize) -> (result: Result<Vec<u32>, PgOutputError>)
    ensures
        match result {
            Ok(value) => ids_at(old(cursor).rest(), count as nat) matches Ok((parsed, rest))
                && parsed == value@
                && rest == final(cursor).rest(),
            Err(error) => ids_at(old(cursor).rest(), count as nat) matches Err(expected)
                && expected == error,
        },
{
    let ghost start = cursor.rest();
    let mut value: Vec<u32> = Vec::with_capacity(count);
    let mut index: usize = 0;
    assert(value@ =~= Seq::empty());
    proof {
        lemma_prepend_nothing(ids_at(start, count as nat));
    }
    while index < count
        invariant
            index <= count,
            ids_at(start, count as nat) == prepended(
                value@,
                ids_at(cursor.rest(), (count - index) as nat),
            ),
        decreases count - index,
    {
        let ghost done = value@;
        let item: u32 = read_id(cursor)?;
        proof {
            lemma_prepend_one(
                done,
                item,
                ids_at(cursor.rest(), (count - index - 1) as nat),
            );
        }
        value.push(item);
        assert(value@ =~= done.push(item));
        index = index + 1;
    }
    proof {
        lemma_prepend_to_end(value@, cursor.rest());
    }
    Ok(value)
}

fn decode_truncate(cursor: &mut Cursor<'_>) -> (result: Result<PgOutputMessage, PgOutputError>)
    ensures
        match result {
            Ok(value) => truncate_at(old(cursor).rest()) matches Ok((parsed, rest))
                && parsed == value@
                && rest == final(cursor).rest(),
            Err(error) => truncate_at(old(cursor).rest()) matches Err(expected)
                && expected == error,
        },
{
    proof {
        lemma_pow256_values();
    }
    let count: u32 = read_number(cursor, 4)? as u32;
    if count == 0 || count > MAX_TRUNCATE_RELATIONS {
        return Err(PgOutputError::InvalidTruncateCount(count as usize));
    }
    let options: u8 = read_byte(cursor)?;
    let relation_ids = read_ids(cursor, count as usize)?;
    Ok(PgOutputMessage::Truncate { relation_ids, options })
}

fn decode_begin(cursor: &mut Cursor<'_>) -> (result: Result<PgOutputMessage, PgOutputError>)
    ensures
        match result {
            Ok(value) => begin_at(old(cursor).rest()) matches Ok((parsed, rest))
                && parsed == value@
                && rest == final(cursor).rest(),
            Err(error) => begin_at(old(cursor).rest()) matches Err(expected) && expected == error,
        },
{
    proof {
        lemma_pow256_values();
    }
    let final_lsn = LogSequenceNumber::new(read_number(cursor, 8)?);
    let commit_timestamp_micros: i64 = read_number(cursor, 8)? as i64;
    let xid: u32 = read_number(cursor, 4)? as u32;
    Ok(PgOutputMessage::Begin { final_lsn, commit_timestamp_micros, xid })
}

fn decode_commit(cursor: &mut Cursor<'_>) -> (result: Result<PgOutputMessage, PgOutputError>)
    ensures
        match result {
            Ok(value) => commit_at(old(cursor).rest()) matches Ok((parsed, rest))
                && parsed == value@
                && rest == final(cursor).rest(),
            Err(error) => commit_at(old(cursor).rest()) matches Err(expected) && expected == error,
        },
{
    proof {
        lemma_pow256_values();
    }
    let flags: u8 = read_byte(cursor)?;
    let commit_lsn = LogSequenceNumber::new(read_number(cursor, 8)?);
    let end_lsn = LogSequenceNumber::new(read_number(cursor, 8)?);
    let commit_timestamp_micros: i64 = read_number(cursor, 8)? as i64;
    Ok(PgOutputMessage::Commit { flags, commit_lsn, end_lsn, commit_timestamp_micros })
}

/// Decoder of whole `pgoutput` messages.
#[derive(Clone, Copy, Debug)]
pub struct PgOutputDecoder;

impl PgOutputDecoder {
    /// Decodes one whole message.
    pub fn decode(input: &[u8]) -> (result: Result<PgOutputMessage, PgOutputError>)
        ensures
            match result {
                Ok(message) => message_of(input@) matches Ok(expected) && expected == message@,
                Err(error) => message_of(input@) matches Err(expected) && expected == error,
            },
    {
        let mut cursor = Cursor::new(input);
        let tag: u8 = read_byte(&mut cursor)?;
        let message = match tag {
            0x42 => decode_begin(&mut cursor)?,
            0x43 => decode_commit(&mut cursor)?,
            0x52 => PgOutputMessage::Relation(decode_relation(&mut cursor)?),
            0x49 => PgOutputMessage::Change(decode_insert(&mut cursor)?),
            0x55 => PgOutputMessage::Change(decode_update(&mut cursor)?),
            0x44 => PgOutputMessage::Change(decode_delete(&mut cursor)?),
            0x54 => decode_truncate(&mut cursor)?,
            other => return Err(PgOutputError::UnsupportedMessage(other)),
        };
        let left: usize = cursor.remaining();
        if left > 0 {
            return Err(PgOutputError::TrailingBytes(left));
        }
        Ok(message)
    }
}

impl PgOutputError {
    /// The diagnostic text of this error.
    pub open spec fn spec_message(self) -> Seq<char> {
        match self {
            PgOutputError::UnexpectedEof => "UnexpectedEof"@,
            PgOutputError::LengthOverflow => "LengthOverflow"@,
            PgOutputError::UnsupportedMessage(tag) => bracketed(
                "UnsupportedMessage"@,
                decimal(tag as int),
            ),
            PgOutputError::UnknownMessage(tag) => bracketed("UnknownMessage"@, decimal(tag as int)),
            PgOutputError::InvalidReplicaIdentity(code) => bracketed(
                "InvalidReplicaIdentity"@,
                decimal(code as int),
            ),
            PgOutputError::InvalidTupleTag(tag) => bracketed(
                "InvalidTupleTag"@,
                decimal(tag as int),
            ),
            PgOutputError::InvalidTupleColumnKind(kind) => bracketed(
                "InvalidTupleColumnKind"@,
                decimal(kind as int),
            ),
            PgOutputError::TooManyColumns(count) => bracketed(
                "TooManyColumns"@,
                decimal(count as int),
            ),
            PgOutputError::ColumnTooLarge(len) => bracketed(
                "ColumnTooLarge"@,
                decimal(len as int),
            ),
            PgOutputError::StringTooLong(len) => bracketed("StringTooLong"@, decimal(len as int)),
            PgOutputError::UnterminatedCString => "UnterminatedCString"@,
            PgOutputError::InvalidUtf8 => "InvalidUtf8"@,
            PgOutputError::InvalidTruncateCount(count) => bracketed(
                "InvalidTruncateCount"@,
                decimal(count as int),
            ),
            PgOutputError::TrailingBytes(count) => bracketed(
                "TrailingBytes"@,
                decimal(count as int),
            ),
        }
    }

    /// The diagnostic text of this error.
    pub fn message(&self) -> (text: String)
        ensures
            text@ == self.spec_message(),
    {
        match self {
            PgOutputError::UnexpectedEof => "UnexpectedEof".to_owned(),
            PgOutputError::LengthOverflow => "LengthOverflow".to_owned(),
            PgOutputError::UnsupportedMessage(tag) => {
                numbered_text("UnsupportedMessage", *tag as u64)
            },
            PgOutputError::UnknownMessage(tag) => numbered_text("UnknownMessage", *tag as u64),
            PgOutputError::InvalidReplicaIdentity(code) => {
                numbered_text("InvalidReplicaIdentity", *code as u64)
            },
            PgOutputError::InvalidTupleTag(tag) => numbered_text("InvalidTupleTag", *tag as u64),
            PgOutputError::InvalidTupleColumnKind(kind) => {
                numbered_text("InvalidTupleColumnKind", *kind as u64)
            },
            PgOutputError::TooManyColumns(count) => numbered_text("TooManyColumns", *count as u64),
            PgOutputError::ColumnTooLarge(len) => numbered_text("ColumnTooLarge", *len as u64),
            PgOutputError::StringTooLong(len) => numbered_text("StringTooLong", *len as u64),
            PgOutputError::UnterminatedCString => "UnterminatedCString".to_owned(),
            PgOutputError::InvalidUtf8 => "InvalidUtf8".to_owned(),
            PgOutputError::InvalidTruncateCount(count) => {
                numbered_text("InvalidTruncateCount", *count as u64)
            },
            PgOutputError::TrailingBytes(count) => numbered_text("TrailingBytes", *count as u64),
        }
    }
}

// ---------------------------------------------------------------------------------------------
// Truncated messages
// ---------------------------------------------------------------------------------------------

/// How parsing changes when the last `missing` bytes of the input are cut off: what was read
/// stays the same where the cut is behind it, and nothing is read otherwise.
pub open spec fn cut_short<V>(
    input: Seq<u8>,
    whole: Parsed<V>,
    short: Parsed<V>,
    missing: nat,
) -> bool {
    whole matches Ok((value, rest)) ==> {
        &&& rest.len() <= input.len()
        &&& if missing <= rest.len() {
            short == Ok::<(V, Seq<u8>), PgOutputError>((value, shortened(rest, missing)))
        } else {
            short is Err
        }
    }
}

/// `input` without its last `missing` bytes.
pub open spec fn shortened(input: Seq<u8>, missing: nat) -> Seq<u8> {
    input.take(input.len() - missing)
}

proof fn lemma_cut_bytes(input: Seq<u8>, count: nat, missing: nat)
    requires
        missing <= input.len(),
    ensures
        cut_short(
            input,
            bytes_at(input, count),
            bytes_at(shortened(input, missing), count),
            missing,
        ),
{
    if count <= input.len() - missing {
        let short = shortened(input, missing);
        assert(short.take(count as int) =~= input.take(count as int));
        assert(short.skip(count as int) =~= shortened(input.skip(count as int), missing));
    }
}

proof fn lemma_cut_byte(input: Seq<u8>, missing: nat)
    requires
        missing <= input.len(),
    ensures
        cut_short(input, byte_at(input), byte_at(shortened(input, missing)), missing),
{
    if 1 <= input.len() - missing {
        assert(shortened(input, missing).skip(1) =~= shortened(input.skip(1), missing));
    }
}

proof fn lemma_cut_number(input: Seq<u8>, width: nat, missing: nat)
    requires
        missing <= input.len(),
    ensures
        cut_short(
            input,
            number_at(input, width),
            number_at(shortened(input, missing), width),
            missing,
        ),
{
    lemma_cut_bytes(input, width, missing);
}

pub(crate) proof fn lemma_first_zero_bounds(input: Seq<u8>)
    ensures
        match first_zero(input) {
            Some(index) => index < input.len() && input[index as int] == 0 && forall|i: int|
                0 <= i < index ==> input[i] != 0,
            None => forall|i: int| 0 <= i < input.len() ==> input[i] != 0,
        },
    decreases input.len(),
{
    if input.len() > 0 && input[0] != 0 {
        let tail = input.drop_first();
        lemma_first_zero_bounds(tail);
        assert forall|i: int| 0 < i < input.len() implies input[i] == tail[i - 1] by {}
    }
}

proof fn lemma_cut_name(input: Seq<u8>, missing: nat)
    requires
        missing <= input.len(),
    ensures
        cut_short(input, name_at(input), name_at(shortened(input, missing)), missing),
{
    if let Ok((name, rest)) = name_at(input) {
        let short = shortened(input, missing);
        let end = first_zero(input)->Some_0;
        lemma_first_zero_bounds(input);
        if missing <= rest.len() {
            lemma_first_zero(short, end);
            assert(short.take(end as int) =~= input.take(end as int));
            assert(short.skip((end + 1) as int) =~= shortened(rest, missing));
        } else {
            lemma_first_zero(short, short.len());
        }
    }
}

proof fn lemma_cut_column(input: Seq<u8>, missing: nat)
    requires
        missing <= input.len(),
    ensures
        cut_short(input, column_at(input), column_at(shortened(input, missing)), missing),
{
    lemma_cut_byte(input, missing);
    if let Ok((_, rest)) = byte_at(input) {
        if missing <= rest.len() {
            lemma_cut_name(rest, missing);
        }
        if let Ok((_, rest2)) = name_at(rest) {
            lemma_cut_name(rest, 0);
            if missing <= rest2.len() {
                lemma_cut_number(rest2, 4, missing);
            }
            if let Ok((_, rest3)) = number_at(rest2, 4) {
                if missing <= rest3.len() {
                    lemma_cut_number(rest3, 4, missing);
                }
            }
        }
    }
}

proof fn lemma_cut_columns(input: Seq<u8>, count: nat, missing: nat)
    requires
        missing <= input.len(),
    ensures
        cut_short(
            input,
            columns_at(input, count),
            columns_at(shortened(input, missing), count),
            missing,
        ),
    decreases count,
{
    if count > 0 {
        lemma_cut_column(input, missing);
        if let Ok((_, rest)) = column_at(input) {
            lemma_cut_columns(rest, (count - 1) as nat, 0);
            if missing <= rest.len() {
                lemma_cut_columns(rest, (count - 1) as nat, missing);
            }
        }
    }
}

proof fn lemma_cut_relation(input: Seq<u8>, missing: nat)
    requires
        missing <= input.len(),
    ensures
        cut_short(input, relation_at(input), relation_at(shortened(input, missing)), missing),
{
    lemma_cut_number(input, 4, missing);
    if let Ok((_, named)) = number_at(input, 4) {
        lemma_cut_name(named, 0);
        if missing <= named.len() {
            lemma_cut_name(named, missing);
        }
        if let Ok((_, second)) = name_at(named) {
            lemma_cut_name(second, 0);
            if missing <= second.len() {
                lemma_cut_name(second, missing);
            }
            if let Ok((_, coded)) = name_at(second) {
                if missing <= coded.len() {
                    lemma_cut_byte(coded, missing);
                }
                if let Ok((_, counted)) = byte_at(coded) {
                    if missing <= counted.len() {
                        lemma_cut_number(counted, 2, missing);
                    }
                    if let Ok((count, listed)) = number_at(counted, 2) {
                        lemma_cut_columns(listed, count, 0);
                        if missing <= listed.len() {
                            lemma_cut_columns(listed, count, missing);
                        }
                    }
                }
            }
        }
    }
}

proof fn lemma_cut_sized_bytes(input: Seq<u8>, missing: nat)
    requires
        missing <= input.len(),
    ensures
        cut_short(
            input,
            sized_bytes_at(input),
            sized_bytes_at(shortened(input, missing)),
            missing,
        ),
{
    lemma_cut_number(input, 4, missing);
    if let Ok((len, rest)) = number_at(input, 4) {
        lemma_cut_bytes(rest, len, 0);
        if missing <= rest.len() {
            lemma_cut_bytes(rest, len, missing);
        }
    }
}

proof fn lemma_cut_tuple_column(input: Seq<u8>, missing: nat)
    requires
        missing <= input.len(),
    ensures
        cut_short(
            input,
            tuple_column_at(input),
            tuple_column_at(shortened(input, missing)),
            missing,
        ),
{
    lemma_cut_byte(input, missing);
    if let Ok((_, rest)) = byte_at(input) {
        lemma_cut_sized_bytes(rest, 0);
        if missing <= rest.len() {
            lemma_cut_sized_bytes(rest, missing);
        }
    }
}

proof fn lemma_cut_tuple_columns(input: Seq<u8>, count: nat, missing: nat)
    requires
        missing <= input.len(),
    ensures
        cut_short(
            input,
            tuple_columns_at(input, count),
            tuple_columns_at(shortened(input, missing), count),
            missing,
        ),
    decreases count,
{
    if count > 0 {
        lemma_cut_tuple_column(input, missing);
        if let Ok((_, rest)) = tuple_column_at(input) {
            lemma_cut_tuple_columns(rest, (count - 1) as nat, 0);
            if missing <= rest.len() {
                lemma_cut_tuple_columns(rest, (count - 1) as nat, missing);
            }
        }
    }
}

proof fn lemma_cut_tuple(input: Seq<u8>, missing: nat)
    requires
        missing <= input.len(),
    ensures
        cut_short(input, tuple_at(input), tuple_at(shortened(input, missing)), missing),
{
    lemma_cut_number(input, 2, missing);
    if let Ok((count, rest)) = number_at(input, 2) {
        lemma_cut_tuple_columns(rest, count, 0);
        if missing <= rest.len() {
            lemma_cut_tuple_columns(rest, count, missing);
        }
    }
}

proof fn lemma_cut_tagged_tuple(input: Seq<u8>, missing: nat)
    requires
        missing <= input.len(),
    ensures
        cut_short(input, insert_at(input), insert_at(shortened(input, missing)), missing),
        cut_short(input, delete_at(input), delete_at(shortened(input, missing)), missing),
{
    lemma_cut_number(input, 4, missing);
    if let Ok((_, tagged)) = number_at(input, 4) {
        if missing <= tagged.len() {
            lemma_cut_byte(tagged, missing);
        }
        if let Ok((_, rest)) = byte_at(tagged) {
            lemma_cut_tuple(rest, 0);
            if missing <= rest.len() {
                lemma_cut_tuple(rest, missing);
            }
        }
    }
}

proof fn lemma_cut_update(input: Seq<u8>, missing: nat)
    requires
        missing <= input.len(),
    ensures
        cut_short(input, update_at(input), update_at(shortened(input, missing)), missing),
{
    lemma_cut_number(input, 4, missing);
    if let Ok((_, tagged)) = number_at(input, 4) {
        if missing <= tagged.len() {
            lemma_cut_byte(tagged, missing);
        }
        if let Ok((_, first)) = byte_at(tagged) {
            lemma_cut_tuple(first, 0);
            if missing <= first.len() {
                lemma_cut_tuple(first, missing);
            }
            if let Ok((_, retagged)) = tuple_at(first) {
                if missing <= retagged.len() {
                    lemma_cut_byte(retagged, missing);
                }
                if let Ok((_, second)) = byte_at(retagged) {
                    lemma_cut_tuple(second, 0);
                    if missing <= second.len() {
                        lemma_cut_tuple(second, missing);
                    }
                }
            }
        }
    }
}

proof fn lemma_cut_ids(input: Seq<u8>, count: nat, missing: nat)
    requires
        missing <= input.len(),
    ensures
        cut_short(
            input,
            ids_at(input, count),
            ids_at(shortened(input, missing), count),
            missing,
        ),
    decreases count,
{
    if count > 0 {
        lemma_cut_number(input, 4, missing);
        if let Ok((_, rest)) = number_at(input, 4) {
            lemma_cut_ids(rest, (count - 1) as nat, 0);
            if missing <= rest.len() {
                lemma_cut_ids(rest, (count - 1) as nat, missing);
            }
        }
    }
}

proof fn lemma_cut_truncate(input: Seq<u8>, missing: nat)
    requires
        missing <= input.len(),
    ensures
        cut_short(input, truncate_at(input), truncate_at(shortened(input, missing)), missing),
{
    lemma_cut_number(input, 4, missing);
    if let Ok((count, optioned)) = number_at(input, 4) {
        if missing <= optioned.len() {
            lemma_cut_byte(optioned, missing);
        }
        if let Ok((_, rest)) = byte_at(optioned) {
            lemma_cut_ids(rest, count, 0);
            if missing <= rest.len() {
                lemma_cut_ids(rest, count, missing);
            }
        }
    }
}

proof fn lemma_cut_begin(input: Seq<u8>, missing: nat)
    requires
        missing <= input.len(),
    ensures
        cut_short(input, begin_at(input), begin_at(shortened(input, missing)), missing),
{
    lemma_cut_number(input, 8, missing);
    if let Ok((_, timed)) = number_at(input, 8) {
        if missing <= timed.len() {
            lemma_cut_number(timed, 8, missing);
        }
        if let Ok((_, last)) = number_at(timed, 8) {
            if missing <= last.len() {
                lemma_cut_number(last, 4, missing);
            }
        }
    }
}

proof fn lemma_cut_commit(input: Seq<u8>, missing: nat)
    requires
        missing <= input.len(),
    ensures
        cut_short(input, commit_at(input), commit_at(shortened(input, missing)), missing),
{
    lemma_cut_byte(input, missing);
    if let Ok((_, first)) = byte_at(input) {
        if missing <= first.len() {
            lemma_cut_number(first, 8, missing);
        }
        if let Ok((_, second)) = number_at(first, 8) {
            if missing <= second.len() {
                lemma_cut_number(second, 8, missing);
            }
            if let Ok((_, third)) = number_at(second, 8) {
                if missing <= third.len() {
                    lemma_cut_number(third, 8, missing);
                }
            }
        }
    }
}

proof fn lemma_cut_body(tag: u8, input: Seq<u8>, missing: nat)
    requires
        missing <= input.len(),
    ensures
        cut_short(input, body_at(tag, input), body_at(tag, shortened(input, missing)), missing),
{
    lemma_cut_begin(input, missing);
    lemma_cut_commit(input, missing);
    lemma_cut_relation(input, missing);
    lemma_cut_tagged_tuple(input, missing);
    lemma_cut_update(input, missing);
    lemma_cut_truncate(input, missing);
}

/// No strict prefix of a message that decodes is itself decodable.
pub proof fn law_strict_prefix_never_decodes(input: Seq<u8>, len: nat)
    requires
        message_of(input) is Ok,
        len < input.len(),
    ensures
        message_of(input.take(len as int)) is Err,
{
    let missing = (input.len() - len) as nat;
    let short = input.take(len as int);
    assert(short =~= shortened(input, missing));
    if len > 0 {
        let rest = input.skip(1);
        assert(short.skip(1) =~= shortened(rest, missing));
        lemma_cut_body(input[0], rest, missing);
    }
}

// ---------------------------------------------------------------------------------------------
// Messages with more behind them
// ---------------------------------------------------------------------------------------------

/// How parsing changes when bytes are put behind the input: what was read stays the same, and
/// the bytes are left over.
pub open spec fn carried_on<V>(short: Parsed<V>, long: Parsed<V>, extra: Seq<u8>) -> bool {
    short matches Ok((value, rest)) ==> long == Ok::<(V, Seq<u8>), PgOutputError>(
        (value, rest + extra),
    )
}

proof fn lemma_more_bytes(input: Seq<u8>, count: nat, extra: Seq<u8>)
    ensures
        carried_on(bytes_at(input, count), bytes_at(input + extra, count), extra),
{
    if count <= input.len() {
        assert((input + extra).take(count as int) =~= input.take(count as int));
        assert((input + extra).skip(count as int) =~= input.skip(count as int) + extra);
    }
}

proof fn lemma_more_byte(input: Seq<u8>, extra: Seq<u8>)
    ensures
        carried_on(byte_at(input), byte_at(input + extra), extra),
{
    if input.len() > 0 {
        assert((input + extra).skip(1) =~= input.skip(1) + extra);
    }
}

proof fn lemma_more_number(input: Seq<u8>, width: nat, extra: Seq<u8>)
    ensures
        carried_on(number_at(input, width), number_at(input + extra, width), extra),
{
    lemma_more_bytes(input, width, extra);
}

proof fn lemma_more_name(input: Seq<u8>, extra: Seq<u8>)
    ensures
        carried_on(name_at(input), name_at(input + extra), extra),
{
    if let Ok((_, rest)) = name_at(input) {
        let long = input + extra;
        let end = first_zero(input)->Some_0;
        lemma_first_zero_bounds(input);
        lemma_first_zero(long, end);
        assert(long.take(end as int) =~= input.take(end as int));
        assert(long.skip((end + 1) as int) =~= rest + extra);
    }
}

proof fn lemma_more_column(input: Seq<u8>, extra: Seq<u8>)
    ensures
        carried_on(column_at(input), column_at(input + extra), extra),
{
    lemma_more_byte(input, extra);
    if let Ok((_, named)) = byte_at(input) {
        lemma_more_name(named, extra);
        if let Ok((_, typed)) = name_at(named) {
            lemma_more_number(typed, 4, extra);
            if let Ok((_, modified)) = number_at(typed, 4) {
                lemma_more_number(modified, 4, extra);
            }
        }
    }
}

proof fn lemma_more_columns(input: Seq<u8>, count: nat, extra: Seq<u8>)
    ensures
        carried_on(columns_at(input, count), columns_at(input + extra, count), extra),
    decreases count,
{
    if count > 0 {
        lemma_more_column(input, extra);
        if let Ok((_, rest)) = column_at(input) {
            lemma_more_columns(rest, (count - 1) as nat, extra);
        }
    }
}

proof fn lemma_more_relation(input: Seq<u8>, extra: Seq<u8>)
    ensures
        carried_on(relation_at(input), relation_at(input + extra), extra),
{
    lemma_more_number(input, 4, extra);
    if let Ok((_, named)) = number_at(input, 4) {
        lemma_more_name(named, extra);
        if let Ok((_, second)) = name_at(named) {
            lemma_more_name(second, extra);
            if let Ok((_, coded)) = name_at(second) {
                lemma_more_byte(coded, extra);
                if let Ok((_, counted)) = byte_at(coded) {
                    lemma_more_number(counted, 2, extra);
                    if let Ok((count, rest)) = number_at(counted, 2) {
                        lemma_more_columns(rest, count, extra);
                    }
                }
            }
        }
    }
}

proof fn lemma_more_tuple_column(input: Seq<u8>, extra: Seq<u8>)
    ensures
        carried_on(tuple_column_at(input), tuple_column_at(input + extra), extra),
{
    lemma_more_byte(input, extra);
    if let Ok((_, sized)) = byte_at(input) {
        lemma_more_number(sized, 4, extra);
        if let Ok((len, rest)) = number_at(sized, 4) {
            lemma_more_bytes(rest, len, extra);
        }
    }
}

proof fn lemma_more_tuple_columns(input: Seq<u8>, count: nat, extra: Seq<u8>)
    ensures
        carried_on(tuple_columns_at(input, count), tuple_columns_at(input + extra, count), extra),
    decreases count,
{
    if count > 0 {
        lemma_more_tuple_column(input, extra);
        if let Ok((_, rest)) = tuple_column_at(input) {
            lemma_more_tuple_columns(rest, (count - 1) as nat, extra);
        }
    }
}

proof fn lemma_more_tuple(input: Seq<u8>, extra: Seq<u8>)
    ensures
        carried_on(tuple_at(input), tuple_at(input + extra), extra),
{
    lemma_more_number(input, 2, extra);
    if let Ok((count, rest)) = number_at(input, 2) {
        lemma_more_tuple_columns(rest, count, extra);
    }
}

proof fn lemma_more_tagged_tuple(input: Seq<u8>, extra: Seq<u8>)
    ensures
        carried_on(insert_at(input), insert_at(input + extra), extra),
        carried_on(delete_at(input), delete_at(input + extra), extra),
{
    lemma_more_number(input, 4, extra);
    if let Ok((_, tagged)) = number_at(input, 4) {
        lemma_more_byte(tagged, extra);
        if let Ok((_, rest)) = byte_at(tagged) {
            lemma_more_tuple(rest, extra);
        }
    }
}

proof fn lemma_more_update(input: Seq<u8>, extra: Seq<u8>)
    ensures
        carried_on(update_at(input), update_at(input + extra), extra),
{
    lemma_more_number(input, 4, extra);
    if let Ok((_, tagged)) = number_at(input, 4) {
        lemma_more_byte(tagged, extra);
        if let Ok((_, first)) = byte_at(tagged) {
            lemma_more_tuple(first, extra);
            if let Ok((_, retagged)) = tuple_at(first) {
                lemma_more_byte(retagged, extra);
                if let Ok((_, second)) = byte_at(retagged) {
                    lemma_more_tuple(second, extra);
                }
            }
        }
    }
}

proof fn lemma_more_ids(input: Seq<u8>, count: nat, extra: Seq<u8>)
    ensures
        carried_on(ids_at(input, count), ids_at(input + extra, count), extra),
    decreases count,
{
    if count > 0 {
        lemma_more_number(input, 4, extra);
        if let Ok((_, rest)) = number_at(input, 4) {
            lemma_more_ids(rest, (count - 1) as nat, extra);
        }
    }
}

proof fn lemma_more_truncate(input: Seq<u8>, extra: Seq<u8>)
    ensures
        carried_on(truncate_at(input), truncate_at(input + extra), extra),
{
    lemma_more_number(input, 4, extra);
    if let Ok((count, optioned)) = number_at(input, 4) {
        lemma_more_byte(optioned, extra);
        if let Ok((_, rest)) = byte_at(optioned) {
            lemma_more_ids(rest, count, extra);
        }
    }
}

proof fn lemma_more_begin(input: Seq<u8>, extra: Seq<u8>)
    ensures
        carried_on(begin_at(input), begin_at(input + extra), extra),
{
    lemma_more_number(input, 8, extra);
    if let Ok((_, timed)) = number_at(input, 8) {
        lemma_more_number(timed, 8, extra);
        if let Ok((_, last)) = number_at(timed, 8) {
            lemma_more_number(last, 4, extra);
        }
    }
}

proof fn lemma_more_commit(input: Seq<u8>, extra: Seq<u8>)
    ensures
        carried_on(commit_at(input), commit_at(input + extra), extra),
{
    lemma_more_byte(input, extra);
    if let Ok((_, first)) = byte_at(input) {
        lemma_more_number(first, 8, extra);
        if let Ok((_, second)) = number_at(first, 8) {
            lemma_more_number(second, 8, extra);
            if let Ok((_, third)) = number_at(second, 8) {
                lemma_more_number(third, 8, extra);
            }
        }
    }
}

/// A message that decodes is refused with any bytes behind it, and the number of those bytes is
/// what the error tells.
pub proof fn law_trailing_bytes_never_decode(input: Seq<u8>, extra: Seq<u8>)
    requires
        message_of(input) is Ok,
        extra.len() > 0,
    ensures
        message_of(input + extra) == Err::<MessageView, PgOutputError>(
            PgOutputError::TrailingBytes(extra.len() as usize),
        ),
{
    lemma_more_byte(input, extra);
    let body = input.skip(1);
    lemma_more_begin(body, extra);
    lemma_more_commit(body, extra);
    lemma_more_relation(body, extra);
    lemma_more_tagged_tuple(body, extra);
    lemma_more_update(body, extra);
    lemma_more_truncate(body, extra);
    let rest = body_at(input[0], body)->Ok_0.1;
    assert(rest + extra =~= extra);
}

// ---------------------------------------------------------------------------------------------
// One encoding per tuple
// ---------------------------------------------------------------------------------------------

proof fn lemma_columns_bytes_from_front(columns: Seq<TupleColumnView>)
    requires
        columns.len() > 0,
    ensures
        columns_bytes(columns) == column_bytes(columns[0]) + columns_bytes(columns.drop_first()),
    decreases columns.len(),
{
    let front = columns.drop_last();
    let tail = columns.drop_first();
    if front.len() == 0 {
        assert(columns_bytes(front) + column_bytes(columns.last()) =~= column_bytes(columns[0])
            + columns_bytes(tail));
    } else {
        lemma_columns_bytes_from_front(front);
        assert(tail.drop_last() =~= front.drop_first());
        assert(columns_bytes(columns) =~= column_bytes(columns[0]) + (columns_bytes(
            front.drop_first(),
        ) + column_bytes(columns.last())));
    }
}

proof fn lemma_sized_field_tells(left: Seq<u8>, after: Seq<u8>, right: Seq<u8>, behind: Seq<u8>)
    requires
        left.len() <= MAX_COLUMN_BYTES,
        right.len() <= MAX_COLUMN_BYTES,
        le_bytes(left.len(), 4) + (left + after) == le_bytes(right.len(), 4) + (right + behind),
    ensures
        left == right,
        after == behind,
{
    lemma_pow256_values();
    lemma_next_le_of_le_bytes(left.len(), 4, left + after);
    lemma_next_le_of_le_bytes(right.len(), 4, right + behind);
    lemma_next_bytes_of_concat(left, after);
    lemma_next_bytes_of_concat(right, behind);
}

proof fn lemma_column_tells(
    left: TupleColumnView,
    after: Seq<u8>,
    right: TupleColumnView,
    behind: Seq<u8>,
)
    requires
        oversize_column(left) is None,
        oversize_column(right) is None,
        column_bytes(left) + after == column_bytes(right) + behind,
    ensures
        left == right,
        after == behind,
{
    let whole = column_bytes(left) + after;
    assert(whole[0] == column_bytes(left)[0]);
    assert(whole[0] == column_bytes(right)[0]);
    match (left, right) {
        (TupleColumnView::Text(one), TupleColumnView::Text(other)) => {
            assert(whole.skip(1) =~= le_bytes(one.len(), 4) + (one + after));
            assert(whole.skip(1) =~= le_bytes(other.len(), 4) + (other + behind));
            lemma_sized_field_tells(one, after, other, behind);
        },
        (TupleColumnView::Binary(one), TupleColumnView::Binary(other)) => {
            assert(whole.skip(1) =~= le_bytes(one.len(), 4) + (one + after));
            assert(whole.skip(1) =~= le_bytes(other.len(), 4) + (other + behind));
            lemma_sized_field_tells(one, after, other, behind);
        },
        _ => {
            assert(whole.skip(1) =~= after);
            assert(whole.skip(1) =~= behind);
        },
    }
}

proof fn lemma_columns_tell(left: Seq<TupleColumnView>, right: Seq<TupleColumnView>)
    requires
        left.len() == right.len(),
        first_oversize_column(left) is None,
        first_oversize_column(right) is None,
        columns_bytes(left) == columns_bytes(right),
    ensures
        left == right,
    decreases left.len(),
{
    if left.len() > 0 {
        lemma_columns_bytes_from_front(left);
        lemma_columns_bytes_from_front(right);
        lemma_column_tells(
            left[0],
            columns_bytes(left.drop_first()),
            right[0],
            columns_bytes(right.drop_first()),
        );
        lemma_columns_tell(left.drop_first(), right.drop_first());
        assert(left =~= seq![left[0]] + left.drop_first());
        assert(right =~= seq![right[0]] + right.drop_first());
    } else {
        assert(left =~= right);
    }
}

/// The canonical encoding tells tuples apart: two tuples within the limits with the same bytes
/// are the same, kinds of their columns included.
pub proof fn law_tuple_encoding_tells_tuples_apart(
    left: Seq<TupleColumnView>,
    right: Seq<TupleColumnView>,
)
    requires
        encoded_tuple(left) is Ok,
        encoded_tuple(left) == encoded_tuple(right),
    ensures
        left == right,
{
    lemma_pow256_values();
    lemma_next_le_of_le_bytes(left.len(), 2, columns_bytes(left));
    lemma_next_le_of_le_bytes(right.len(), 2, columns_bytes(right));
    lemma_columns_tell(left, right);
}

/// The canonical encoding of a tuple is the number of its columns and then each column in its
/// place, whatever stands around it: a letter for its kind and, for a value, the length and the
/// bytes of the value. Numbers are little-endian.
pub proof fn law_tuple_encoding_keeps_columns_in_place(
    front: Seq<TupleColumnView>,
    column: TupleColumnView,
    back: Seq<TupleColumnView>,
)
    requires
        encoded_tuple(front.push(column) + back) is Ok,
    ensures
        ({
            let columns = front.push(column) + back;
            let field = match column {
                TupleColumnView::Null => seq![0x6eu8],
                TupleColumnView::UnchangedToast => seq![0x75u8],
                TupleColumnView::Text(bytes) => seq![0x74u8] + (le_bytes(bytes.len(), 4) + bytes),
                TupleColumnView::Binary(bytes) => seq![0x62u8] + (le_bytes(bytes.len(), 4)
                    + bytes),
            };
            encoded_tuple(columns) == Ok::<Seq<u8>, PgOutputError>(
                le_bytes(columns.len(), 2) + (columns_bytes(front) + (field + columns_bytes(back))),
            )
        }),
        columns_bytes(Seq::empty()) == Seq::<u8>::empty(),
{
    let columns = front.push(column) + back;
    lemma_columns_bytes_of_concat(front.push(column), back);
    assert(front.push(column).drop_last() =~= front);
    let field = match column {
        TupleColumnView::Null => seq![0x6eu8],
        TupleColumnView::UnchangedToast => seq![0x75u8],
        TupleColumnView::Text(bytes) => seq![0x74u8] + (le_bytes(bytes.len(), 4) + bytes),
        TupleColumnView::Binary(bytes) => seq![0x62u8] + (le_bytes(bytes.len(), 4) + bytes),
    };
    assert(column_bytes(column) =~= field);
    assert(tuple_bytes(columns) =~= le_bytes(columns.len(), 2) + (columns_bytes(front) + (field
        + columns_bytes(back))));
}

proof fn lemma_columns_bytes_of_concat(left: Seq<TupleColumnView>, right: Seq<TupleColumnView>)
    ensures
        columns_bytes(left + right) == columns_bytes(left) + columns_bytes(right),
    decreases right.len(),
{
    if right.len() == 0 {
        assert(left + right =~= left);
        assert(columns_bytes(left) + columns_bytes(right) =~= columns_bytes(left));
    } else {
        let front = right.drop_last();
        assert((left + right).drop_last() =~= left + front);
        lemma_columns_bytes_of_concat(left, front);
        assert(columns_bytes(left + right) =~= columns_bytes(left) + columns_bytes(right));
    }
}

} // verus!
