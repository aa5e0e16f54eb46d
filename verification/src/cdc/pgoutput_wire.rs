//! The wire form of `pgoutput` messages, and that decoding is its exact inverse.

use super::lsn::LogSequenceNumber;
use super::pgoutput::{
    begin_at, body_at, byte_at, column_at, columns_at, commit_at, delete_at, encoded_tuple,
    first_oversize_column, first_zero, identity_of, ids_at, insert_at, lemma_first_zero,
    lemma_first_zero_bounds, message_of, name_at, number_at, relation_at, sized_bytes_at,
    tuple_at, tuple_bytes, tuple_column_at, tuple_columns_at, update_at, ColumnView,
    MessageView, PgOutputError, RelationView, ReplicaIdentity, TupleColumnView,
};
use super::transaction::{ChangeKind, RowChangeView};
use super::wire::{
    be_value, lemma_be_value_bound, lemma_i64_bits_round_trip, lemma_next_bytes_of_concat,
    lemma_pow256_values, lemma_u64_bits_round_trip, pow256,
};
use vstd::prelude::*;
use vstd::utf8::{
    decode_utf8_encode_utf8, encode_utf8, encode_utf8_decode_utf8, encode_utf8_valid_utf8,
    valid_utf8,
};

verus! {

// ---------------------------------------------------------------------------------------------
// The wire form
// ---------------------------------------------------------------------------------------------

/// The `width` low-order base-256 digits of `value`, most significant first.
pub open spec fn be_bytes(value: nat, width: nat) -> Seq<u8>
    decreases width,
{
    if width == 0 {
        Seq::empty()
    } else {
        be_bytes(value / 256, (width - 1) as nat).push((value % 256) as u8)
    }
}

/// A name on the wire: its UTF-8 bytes and a zero byte.
pub open spec fn wire_name(name: Seq<char>) -> Seq<u8> {
    encode_utf8(name).push(0)
}

/// Whether a name can be sent: it is short enough and has no zero byte of its own.
pub open spec fn name_fits(name: Seq<char>) -> bool {
    &&& encode_utf8(name).len() <= 1_024
    &&& forall|i: int| 0 <= i < encode_utf8(name).len() ==> #[trigger] encode_utf8(name)[i] != 0
}

/// The letter of a replica identity.
pub open spec fn identity_letter(identity: ReplicaIdentity) -> u8 {
    match identity {
        ReplicaIdentity::Default => 0x64,
        ReplicaIdentity::Nothing => 0x6e,
        ReplicaIdentity::Full => 0x66,
        ReplicaIdentity::Index => 0x69,
    }
}

/// A relation column on the wire.
pub open spec fn wire_column(column: ColumnView) -> Seq<u8> {
    seq![column.flags] + (wire_name(column.name) + (be_bytes(column.type_oid as nat, 4) + be_bytes(
        (column.type_modifier as u32) as nat,
        4,
    )))
}

/// Relation columns on the wire, one behind the other.
pub open spec fn wire_columns(columns: Seq<ColumnView>) -> Seq<u8>
    decreases columns.len(),
{
    if columns.len() == 0 {
        Seq::empty()
    } else {
        wire_column(columns[0]) + wire_columns(columns.drop_first())
    }
}

/// Whether relation columns can be sent.
pub open spec fn columns_fit(columns: Seq<ColumnView>) -> bool {
    forall|i: int| 0 <= i < columns.len() ==> name_fits((#[trigger] columns[i]).name)
}

/// A column value on the wire: a letter, and for a value its length and its bytes.
pub open spec fn wire_value(column: TupleColumnView) -> Seq<u8> {
    match column {
        TupleColumnView::Null => seq![0x6eu8],
        TupleColumnView::UnchangedToast => seq![0x75u8],
        TupleColumnView::Text(bytes) => seq![0x74u8] + (be_bytes(bytes.len(), 4) + bytes),
        TupleColumnView::Binary(bytes) => seq![0x62u8] + (be_bytes(bytes.len(), 4) + bytes),
    }
}

/// Column values on the wire, one behind the other.
pub open spec fn wire_values(columns: Seq<TupleColumnView>) -> Seq<u8>
    decreases columns.len(),
{
    if columns.len() == 0 {
        Seq::empty()
    } else {
        wire_value(columns[0]) + wire_values(columns.drop_first())
    }
}

/// A tuple on the wire: the number of its columns and their values.
pub open spec fn wire_tuple(columns: Seq<TupleColumnView>) -> Seq<u8> {
    be_bytes(columns.len(), 2) + wire_values(columns)
}

/// Whether a column value can be sent.
pub open spec fn value_fits(column: TupleColumnView) -> bool {
    match column {
        TupleColumnView::Text(bytes) => bytes.len() <= 8_388_608,
        TupleColumnView::Binary(bytes) => bytes.len() <= 8_388_608,
        _ => true,
    }
}

/// Whether a tuple can be sent.
pub open spec fn tuple_fits(columns: Seq<TupleColumnView>) -> bool {
    &&& columns.len() <= 1_024
    &&& forall|i: int| 0 <= i < columns.len() ==> value_fits(#[trigger] columns[i])
}

/// Relation ids on the wire, one behind the other.
pub open spec fn wire_ids(ids: Seq<u32>) -> Seq<u8>
    decreases ids.len(),
{
    if ids.len() == 0 {
        Seq::empty()
    } else {
        be_bytes(ids[0] as nat, 4) + wire_ids(ids.drop_first())
    }
}

/// What a sender may say. The old tuple of an update or a delete is a key or a whole row.
#[verifier::ext_equal]
pub enum WireMessage {
    Begin { final_lsn: LogSequenceNumber, commit_timestamp_micros: i64, xid: u32 },
    Commit {
        flags: u8,
        commit_lsn: LogSequenceNumber,
        end_lsn: LogSequenceNumber,
        commit_timestamp_micros: i64,
    },
    Relation(RelationView),
    Insert { relation_id: u32, new: Seq<TupleColumnView> },
    Update { relation_id: u32, new: Seq<TupleColumnView> },
    UpdateFrom {
        relation_id: u32,
        whole_row: bool,
        old: Seq<TupleColumnView>,
        new: Seq<TupleColumnView>,
    },
    Delete { relation_id: u32, whole_row: bool, old: Seq<TupleColumnView> },
    Truncate { relation_ids: Seq<u32>, options: u8 },
}

/// The letter in front of an old tuple.
pub open spec fn old_letter(whole_row: bool) -> u8 {
    if whole_row {
        0x4f
    } else {
        0x4b
    }
}

impl WireMessage {
    /// Whether the message respects the limits of the protocol.
    pub open spec fn fits(self) -> bool {
        match self {
            WireMessage::Relation(relation) => {
                &&& name_fits(relation.namespace)
                &&& name_fits(relation.name)
                &&& relation.columns.len() <= 1_024
                &&& columns_fit(relation.columns)
            },
            WireMessage::Insert { new, .. } => tuple_fits(new),
            WireMessage::Update { new, .. } => tuple_fits(new),
            WireMessage::UpdateFrom { old, new, .. } => tuple_fits(old) && tuple_fits(new),
            WireMessage::Delete { old, .. } => tuple_fits(old),
            WireMessage::Truncate { relation_ids, .. } => 1 <= relation_ids.len() <= 4_096,
            _ => true,
        }
    }

    /// The letter that starts the message.
    pub open spec fn letter(self) -> u8 {
        match self {
            WireMessage::Begin { .. } => 0x42,
            WireMessage::Commit { .. } => 0x43,
            WireMessage::Relation(_) => 0x52,
            WireMessage::Insert { .. } => 0x49,
            WireMessage::Update { .. } => 0x55,
            WireMessage::UpdateFrom { .. } => 0x55,
            WireMessage::Delete { .. } => 0x44,
            WireMessage::Truncate { .. } => 0x54,
        }
    }

    /// The bytes behind the letter.
    pub open spec fn body(self) -> Seq<u8> {
        match self {
            WireMessage::Begin { final_lsn, commit_timestamp_micros, xid } => be_bytes(
                final_lsn.0 as nat,
                8,
            ) + (be_bytes((commit_timestamp_micros as u64) as nat, 8) + be_bytes(xid as nat, 4)),
            WireMessage::Commit { flags, commit_lsn, end_lsn, commit_timestamp_micros } => seq![
                flags,
            ] + (be_bytes(commit_lsn.0 as nat, 8) + (be_bytes(end_lsn.0 as nat, 8) + be_bytes(
                (commit_timestamp_micros as u64) as nat,
                8,
            ))),
            WireMessage::Relation(relation) => be_bytes(relation.relation_id as nat, 4) + (
            wire_name(relation.namespace) + (wire_name(relation.name) + (seq![
                identity_letter(relation.replica_identity),
            ] + (be_bytes(relation.columns.len(), 2) + wire_columns(relation.columns))))),
            WireMessage::Insert { relation_id, new } => be_bytes(relation_id as nat, 4) + (
            seq![0x4eu8] + wire_tuple(new)),
            WireMessage::Update { relation_id, new } => be_bytes(relation_id as nat, 4) + (
            seq![0x4eu8] + wire_tuple(new)),
            WireMessage::UpdateFrom { relation_id, whole_row, old, new } => be_bytes(
                relation_id as nat,
                4,
            ) + (seq![old_letter(whole_row)] + (wire_tuple(old) + (seq![0x4eu8] + wire_tuple(
                new,
            )))),
            WireMessage::Delete { relation_id, whole_row, old } => be_bytes(relation_id as nat, 4)
                + (seq![old_letter(whole_row)] + wire_tuple(old)),
            WireMessage::Truncate { relation_ids, options } => be_bytes(relation_ids.len(), 4) + (
            seq![options] + wire_ids(relation_ids)),
        }
    }

    /// The bytes of the message.
    pub open spec fn bytes(self) -> Seq<u8> {
        seq![self.letter()] + self.body()
    }

    /// What the message means. A row change carries its tuples in their canonical encoding.
    pub open spec fn meaning(self) -> MessageView {
        match self {
            WireMessage::Begin { final_lsn, commit_timestamp_micros, xid } => MessageView::Begin {
                final_lsn,
                commit_timestamp_micros,
                xid,
            },
            WireMessage::Commit { flags, commit_lsn, end_lsn, commit_timestamp_micros } => {
                MessageView::Commit { flags, commit_lsn, end_lsn, commit_timestamp_micros }
            },
            WireMessage::Relation(relation) => MessageView::Relation(relation),
            WireMessage::Insert { relation_id, new } => MessageView::Change(
                RowChangeView {
                    relation_id,
                    kind: ChangeKind::Insert,
                    old_tuple: None,
                    new_tuple: Some(encoded_tuple(new)->Ok_0),
                },
            ),
            WireMessage::Update { relation_id, new } => MessageView::Change(
                RowChangeView {
                    relation_id,
                    kind: ChangeKind::Update,
                    old_tuple: None,
                    new_tuple: Some(encoded_tuple(new)->Ok_0),
                },
            ),
            WireMessage::UpdateFrom { relation_id, old, new, .. } => MessageView::Change(
                RowChangeView {
                    relation_id,
                    kind: ChangeKind::Update,
                    old_tuple: Some(encoded_tuple(old)->Ok_0),
                    new_tuple: Some(encoded_tuple(new)->Ok_0),
                },
            ),
            WireMessage::Delete { relation_id, old, .. } => MessageView::Change(
                RowChangeView {
                    relation_id,
                    kind: ChangeKind::Delete,
                    old_tuple: Some(encoded_tuple(old)->Ok_0),
                    new_tuple: None,
                },
            ),
            WireMessage::Truncate { relation_ids, options } => MessageView::Truncate {
                relation_ids,
                options,
            },
        }
    }
}

// ---------------------------------------------------------------------------------------------
// Decoding what was sent
// ---------------------------------------------------------------------------------------------

proof fn lemma_be_bytes(value: nat, width: nat)
    requires
        value < pow256(width),
    ensures
        be_bytes(value, width).len() == width,
        be_value(be_bytes(value, width)) == value,
    decreases width,
{
    if width > 0 {
        let front = be_bytes(value / 256, (width - 1) as nat);
        lemma_be_bytes(value / 256, (width - 1) as nat);
        assert(be_bytes(value, width).drop_last() =~= front);
    }
}

proof fn lemma_number_sent(value: nat, width: nat, rest: Seq<u8>)
    requires
        value < pow256(width),
    ensures
        number_at(be_bytes(value, width) + rest, width) == Ok::<(nat, Seq<u8>), PgOutputError>(
            (value, rest),
        ),
{
    lemma_be_bytes(value, width);
    lemma_next_bytes_of_concat(be_bytes(value, width), rest);
}

proof fn lemma_byte_sent(byte: u8, rest: Seq<u8>)
    ensures
        byte_at(seq![byte] + rest) == Ok::<(u8, Seq<u8>), PgOutputError>((byte, rest)),
{
    assert((seq![byte] + rest).skip(1) =~= rest);
}

proof fn lemma_name_sent(name: Seq<char>, rest: Seq<u8>)
    requires
        name_fits(name),
    ensures
        name_at(wire_name(name) + rest) == Ok::<(Seq<char>, Seq<u8>), PgOutputError>((name, rest)),
{
    let bytes = encode_utf8(name);
    let input = wire_name(name) + rest;
    encode_utf8_valid_utf8(name);
    encode_utf8_decode_utf8(name);
    assert forall|i: int| 0 <= i < bytes.len() implies input[i] != 0 by {
        assert(input[i] == bytes[i]);
    }
    lemma_first_zero(input, bytes.len());
    assert(input.take(bytes.len() as int) =~= bytes);
    assert(input.skip((bytes.len() + 1) as int) =~= rest);
}

proof fn lemma_column_sent(column: ColumnView, rest: Seq<u8>)
    requires
        name_fits(column.name),
    ensures
        column_at(wire_column(column) + rest) == Ok::<(ColumnView, Seq<u8>), PgOutputError>(
            (column, rest),
        ),
{
    lemma_pow256_values();
    let modifier = (column.type_modifier as u32) as nat;
    let bits = column.type_modifier;
    assert((bits as u32) as i32 == bits) by (bit_vector);
    let last = be_bytes(modifier, 4) + rest;
    let typed = be_bytes(column.type_oid as nat, 4) + last;
    let named = wire_name(column.name) + typed;
    assert(wire_column(column) + rest =~= seq![column.flags] + named);
    lemma_byte_sent(column.flags, named);
    lemma_name_sent(column.name, typed);
    lemma_number_sent(column.type_oid as nat, 4, last);
    lemma_number_sent(modifier, 4, rest);
}

proof fn lemma_columns_sent(columns: Seq<ColumnView>, rest: Seq<u8>)
    requires
        columns_fit(columns),
    ensures
        columns_at(wire_columns(columns) + rest, columns.len()) == Ok::<
            (Seq<ColumnView>, Seq<u8>),
            PgOutputError,
        >((columns, rest)),
    decreases columns.len(),
{
    if columns.len() == 0 {
        assert(wire_columns(columns) + rest =~= rest);
        assert(columns =~= Seq::empty());
    } else {
        let tail = columns.drop_first();
        assert forall|i: int| 0 <= i < tail.len() implies name_fits((#[trigger] tail[i]).name) by {
            assert(tail[i] == columns[i + 1]);
        }
        assert(wire_columns(columns) + rest =~= wire_column(columns[0]) + (wire_columns(tail)
            + rest));
        lemma_column_sent(columns[0], wire_columns(tail) + rest);
        lemma_columns_sent(tail, rest);
        assert(seq![columns[0]] + tail =~= columns);
    }
}

proof fn lemma_value_sent(column: TupleColumnView, rest: Seq<u8>)
    requires
        value_fits(column),
    ensures
        tuple_column_at(wire_value(column) + rest) == Ok::<
            (TupleColumnView, Seq<u8>),
            PgOutputError,
        >((column, rest)),
{
    lemma_pow256_values();
    match column {
        TupleColumnView::Null => lemma_byte_sent(0x6e, rest),
        TupleColumnView::UnchangedToast => lemma_byte_sent(0x75, rest),
        TupleColumnView::Text(bytes) => {
            let sized = be_bytes(bytes.len(), 4) + (bytes + rest);
            assert(wire_value(column) + rest =~= seq![0x74u8] + sized);
            lemma_byte_sent(0x74, sized);
            lemma_number_sent(bytes.len(), 4, bytes + rest);
            lemma_next_bytes_of_concat(bytes, rest);
        },
        TupleColumnView::Binary(bytes) => {
            let sized = be_bytes(bytes.len(), 4) + (bytes + rest);
            assert(wire_value(column) + rest =~= seq![0x62u8] + sized);
            lemma_byte_sent(0x62, sized);
            lemma_number_sent(bytes.len(), 4, bytes + rest);
            lemma_next_bytes_of_concat(bytes, rest);
        },
    }
}

proof fn lemma_values_sent(columns: Seq<TupleColumnView>, rest: Seq<u8>)
    requires
        forall|i: int| 0 <= i < columns.len() ==> value_fits(#[trigger] columns[i]),
    ensures
        tuple_columns_at(wire_values(columns) + rest, columns.len()) == Ok::<
            (Seq<TupleColumnView>, Seq<u8>),
            PgOutputError,
        >((columns, rest)),
        first_oversize_column(columns) is None,
    decreases columns.len(),
{
    if columns.len() == 0 {
        assert(wire_values(columns) + rest =~= rest);
        assert(columns =~= Seq::empty());
    } else {
        let tail = columns.drop_first();
        assert forall|i: int| 0 <= i < tail.len() implies value_fits(#[trigger] tail[i]) by {
            assert(tail[i] == columns[i + 1]);
        }
        assert(wire_values(columns) + rest =~= wire_value(columns[0]) + (wire_values(tail)
            + rest));
        assert(value_fits(columns[0]));
        lemma_value_sent(columns[0], wire_values(tail) + rest);
        lemma_values_sent(tail, rest);
        assert(seq![columns[0]] + tail =~= columns);
    }
}

proof fn lemma_tuple_sent(columns: Seq<TupleColumnView>, rest: Seq<u8>)
    requires
        tuple_fits(columns),
    ensures
        tuple_at(wire_tuple(columns) + rest) == Ok::<
            (Seq<TupleColumnView>, Seq<u8>),
            PgOutputError,
        >((columns, rest)),
        encoded_tuple(columns) == Ok::<Seq<u8>, PgOutputError>(tuple_bytes(columns)),
{
    lemma_pow256_values();
    assert(wire_tuple(columns) + rest =~= be_bytes(columns.len(), 2) + (wire_values(columns)
        + rest));
    lemma_number_sent(columns.len(), 2, wire_values(columns) + rest);
    lemma_values_sent(columns, rest);
}

proof fn lemma_ids_sent(ids: Seq<u32>, rest: Seq<u8>)
    ensures
        ids_at(wire_ids(ids) + rest, ids.len()) == Ok::<(Seq<u32>, Seq<u8>), PgOutputError>(
            (ids, rest),
        ),
    decreases ids.len(),
{
    if ids.len() == 0 {
        assert(wire_ids(ids) + rest =~= rest);
        assert(ids =~= Seq::empty());
    } else {
        lemma_pow256_values();
        let tail = ids.drop_first();
        assert(wire_ids(ids) + rest =~= be_bytes(ids[0] as nat, 4) + (wire_ids(tail) + rest));
        lemma_number_sent(ids[0] as nat, 4, wire_ids(tail) + rest);
        lemma_ids_sent(tail, rest);
        assert(seq![ids[0]] + tail =~= ids);
    }
}

proof fn lemma_relation_sent(relation: RelationView)
    requires
        WireMessage::Relation(relation).fits(),
    ensures
        relation_at(WireMessage::Relation(relation).body()) == Ok::<
            (RelationView, Seq<u8>),
            PgOutputError,
        >((relation, Seq::empty())),
{
    lemma_pow256_values();
    let listed = wire_columns(relation.columns);
    let counted = be_bytes(relation.columns.len(), 2) + listed;
    let letter = identity_letter(relation.replica_identity);
    let coded = seq![letter] + counted;
    let second = wire_name(relation.name) + coded;
    let first = wire_name(relation.namespace) + second;
    lemma_number_sent(relation.relation_id as nat, 4, first);
    lemma_name_sent(relation.namespace, second);
    lemma_name_sent(relation.name, coded);
    lemma_byte_sent(letter, counted);
    lemma_number_sent(relation.columns.len(), 2, listed);
    lemma_columns_sent(relation.columns, Seq::empty());
    assert(listed + Seq::<u8>::empty() =~= listed);
}

proof fn lemma_boundary_sent(message: WireMessage)
    ensures
        message matches WireMessage::Begin { .. } ==> begin_at(message.body()) == Ok::<
            (MessageView, Seq<u8>),
            PgOutputError,
        >((message.meaning(), Seq::empty())),
        message matches WireMessage::Commit { .. } ==> commit_at(message.body()) == Ok::<
            (MessageView, Seq<u8>),
            PgOutputError,
        >((message.meaning(), Seq::empty())),
{
    lemma_pow256_values();
    let none = Seq::<u8>::empty();
    match message {
        WireMessage::Begin { final_lsn, commit_timestamp_micros, xid } => {
            lemma_i64_bits_round_trip(commit_timestamp_micros);
            let time = (commit_timestamp_micros as u64) as nat;
            let last = be_bytes(xid as nat, 4);
            assert(last + none =~= last);
            lemma_number_sent(final_lsn.0 as nat, 8, be_bytes(time, 8) + last);
            lemma_number_sent(time, 8, last);
            lemma_number_sent(xid as nat, 4, none);
        },
        WireMessage::Commit { flags, commit_lsn, end_lsn, commit_timestamp_micros } => {
            lemma_i64_bits_round_trip(commit_timestamp_micros);
            let time = (commit_timestamp_micros as u64) as nat;
            let last = be_bytes(time, 8);
            assert(last + none =~= last);
            let ended = be_bytes(end_lsn.0 as nat, 8) + last;
            let committed = be_bytes(commit_lsn.0 as nat, 8) + ended;
            lemma_byte_sent(flags, committed);
            lemma_number_sent(commit_lsn.0 as nat, 8, ended);
            lemma_number_sent(end_lsn.0 as nat, 8, last);
            lemma_number_sent(time, 8, none);
        },
        _ => {},
    }
}

proof fn lemma_row_sent(message: WireMessage)
    requires
        message.fits(),
    ensures
        ({
            let expected = Ok::<(RowChangeView, Seq<u8>), PgOutputError>(
                (message.meaning()->Change_0, Seq::empty()),
            );
            match message {
                WireMessage::Insert { .. } => insert_at(message.body()) == expected,
                WireMessage::Update { .. } => update_at(message.body()) == expected,
                WireMessage::UpdateFrom { .. } => update_at(message.body()) == expected,
                WireMessage::Delete { .. } => delete_at(message.body()) == expected,
                _ => true,
            }
        }),
{
    lemma_pow256_values();
    let none = Seq::<u8>::empty();
    match message {
        WireMessage::Insert { relation_id, new } => {
            assert(wire_tuple(new) + none =~= wire_tuple(new));
            lemma_number_sent(relation_id as nat, 4, seq![0x4eu8] + wire_tuple(new));
            lemma_byte_sent(0x4e, wire_tuple(new));
            lemma_tuple_sent(new, none);
        },
        WireMessage::Update { relation_id, new } => {
            assert(wire_tuple(new) + none =~= wire_tuple(new));
            lemma_number_sent(relation_id as nat, 4, seq![0x4eu8] + wire_tuple(new));
            lemma_byte_sent(0x4e, wire_tuple(new));
            lemma_tuple_sent(new, none);
        },
        WireMessage::UpdateFrom { relation_id, whole_row, old, new } => {
            let renewed = seq![0x4eu8] + wire_tuple(new);
            assert(wire_tuple(new) + none =~= wire_tuple(new));
            lemma_number_sent(
                relation_id as nat,
                4,
                seq![old_letter(whole_row)] + (wire_tuple(old) + renewed),
            );
            lemma_byte_sent(old_letter(whole_row), wire_tuple(old) + renewed);
            lemma_tuple_sent(old, renewed);
            lemma_byte_sent(0x4e, wire_tuple(new));
            lemma_tuple_sent(new, none);
        },
        WireMessage::Delete { relation_id, whole_row, old } => {
            assert(wire_tuple(old) + none =~= wire_tuple(old));
            lemma_number_sent(
                relation_id as nat,
                4,
                seq![old_letter(whole_row)] + wire_tuple(old),
            );
            lemma_byte_sent(old_letter(whole_row), wire_tuple(old));
            lemma_tuple_sent(old, none);
        },
        _ => {},
    }
}

/// Decoding gives back what was sent: for every message within the limits, the bytes that a sender
/// writes for it decode to exactly what it means, with each tuple in the place it was sent for.
pub proof fn law_what_is_sent_is_what_is_decoded(message: WireMessage)
    requires
        message.fits(),
    ensures
        message_of(message.bytes()) == Ok::<MessageView, PgOutputError>(message.meaning()),
{
    lemma_byte_sent(message.letter(), message.body());
    match message {
        WireMessage::Begin { .. } => lemma_boundary_sent(message),
        WireMessage::Commit { .. } => lemma_boundary_sent(message),
        WireMessage::Relation(relation) => lemma_relation_sent(relation),
        WireMessage::Truncate { relation_ids, options } => {
            lemma_pow256_values();
            let listed = wire_ids(relation_ids);
            assert(listed + Seq::<u8>::empty() =~= listed);
            lemma_number_sent(relation_ids.len(), 4, seq![options] + listed);
            lemma_byte_sent(options, listed);
            lemma_ids_sent(relation_ids, Seq::empty());
        },
        _ => lemma_row_sent(message),
    }
}

// ---------------------------------------------------------------------------------------------
// Nothing but what was sent
// ---------------------------------------------------------------------------------------------

proof fn lemma_be_value_bytes(bytes: Seq<u8>)
    ensures
        be_bytes(be_value(bytes), bytes.len()) == bytes,
    decreases bytes.len(),
{
    if bytes.len() > 0 {
        let front = bytes.drop_last();
        lemma_be_value_bytes(front);
        assert(be_value(bytes) / 256 == be_value(front));
        assert(be_value(bytes) % 256 == bytes.last());
        assert(bytes =~= front.push(bytes.last()));
    }
}

proof fn lemma_number_received(input: Seq<u8>, width: nat)
    ensures
        number_at(input, width) matches Ok((value, rest)) ==> {
            &&& input == be_bytes(value, width) + rest
            &&& value < pow256(width)
        },
{
    if width <= input.len() {
        let field = input.take(width as int);
        lemma_be_value_bytes(field);
        lemma_be_value_bound(field);
        assert(input =~= field + input.skip(width as int));
    }
}

proof fn lemma_byte_received(input: Seq<u8>)
    ensures
        byte_at(input) matches Ok((byte, rest)) ==> input == seq![byte] + rest,
{
    if input.len() > 0 {
        assert(input =~= seq![input[0]] + input.skip(1));
    }
}

proof fn lemma_name_received(input: Seq<u8>)
    ensures
        name_at(input) matches Ok((name, rest)) ==> {
            &&& name_fits(name)
            &&& input == wire_name(name) + rest
        },
{
    if let Ok((name, rest)) = name_at(input) {
        lemma_first_zero_bounds(input);
        let end = first_zero(input)->Some_0;
        let bytes = input.take(end as int);
        decode_utf8_encode_utf8(bytes);
        assert(encode_utf8(name) == bytes);
        assert(input =~= bytes.push(0) + rest);
    }
}

proof fn lemma_column_received(input: Seq<u8>)
    ensures
        column_at(input) matches Ok((column, rest)) ==> {
            &&& name_fits(column.name)
            &&& input == wire_column(column) + rest
        },
{
    if let Ok((column, rest)) = column_at(input) {
        lemma_pow256_values();
        lemma_byte_received(input);
        let named = byte_at(input)->Ok_0.1;
        lemma_name_received(named);
        let typed = name_at(named)->Ok_0.1;
        lemma_number_received(typed, 4);
        let last = number_at(typed, 4)->Ok_0.1;
        lemma_number_received(last, 4);
        let bits = number_at(last, 4)->Ok_0.0 as u32;
        assert((bits as i32) as u32 == bits) by (bit_vector);
        assert(input =~= wire_column(column) + rest);
    }
}

proof fn lemma_columns_received(input: Seq<u8>, count: nat)
    ensures
        columns_at(input, count) matches Ok((columns, rest)) ==> {
            &&& columns.len() == count
            &&& columns_fit(columns)
            &&& input == wire_columns(columns) + rest
        },
    decreases count,
{
    if let Ok((columns, rest)) = columns_at(input, count) {
        if count == 0 {
            assert(wire_columns(columns) + rest =~= rest);
        } else {
            lemma_column_received(input);
            let (column, behind) = column_at(input)->Ok_0;
            lemma_columns_received(behind, (count - 1) as nat);
            let tail = columns_at(behind, (count - 1) as nat)->Ok_0.0;
            assert(columns.drop_first() =~= tail);
            assert forall|i: int| 0 <= i < columns.len() implies name_fits(
                (#[trigger] columns[i]).name,
            ) by {
                if i > 0 {
                    assert(columns[i] == tail[i - 1]);
                }
            }
            assert(input =~= wire_columns(columns) + rest);
        }
    }
}

proof fn lemma_sized_received(input: Seq<u8>)
    ensures
        sized_bytes_at(input) matches Ok((bytes, rest)) ==> {
            &&& bytes.len() <= 8_388_608
            &&& input == be_bytes(bytes.len(), 4) + (bytes + rest)
        },
{
    if let Ok((bytes, rest)) = sized_bytes_at(input) {
        lemma_number_received(input, 4);
        let behind = number_at(input, 4)->Ok_0.1;
        assert(behind =~= bytes + rest);
    }
}

proof fn lemma_value_received(input: Seq<u8>)
    ensures
        tuple_column_at(input) matches Ok((column, rest)) ==> {
            &&& value_fits(column)
            &&& input == wire_value(column) + rest
        },
{
    if let Ok((column, rest)) = tuple_column_at(input) {
        lemma_byte_received(input);
        lemma_sized_received(byte_at(input)->Ok_0.1);
        assert(input =~= wire_value(column) + rest);
    }
}

proof fn lemma_values_received(input: Seq<u8>, count: nat)
    ensures
        tuple_columns_at(input, count) matches Ok((columns, rest)) ==> {
            &&& columns.len() == count
            &&& forall|i: int| 0 <= i < columns.len() ==> value_fits(#[trigger] columns[i])
            &&& input == wire_values(columns) + rest
        },
    decreases count,
{
    if let Ok((columns, rest)) = tuple_columns_at(input, count) {
        if count == 0 {
            assert(wire_values(columns) + rest =~= rest);
        } else {
            lemma_value_received(input);
            let (column, behind) = tuple_column_at(input)->Ok_0;
            lemma_values_received(behind, (count - 1) as nat);
            let tail = tuple_columns_at(behind, (count - 1) as nat)->Ok_0.0;
            assert(columns.drop_first() =~= tail);
            assert forall|i: int| 0 <= i < columns.len() implies value_fits(
                #[trigger] columns[i],
            ) by {
                if i > 0 {
                    assert(columns[i] == tail[i - 1]);
                }
            }
            assert(input =~= wire_values(columns) + rest);
        }
    }
}

proof fn lemma_tuple_received(input: Seq<u8>)
    ensures
        tuple_at(input) matches Ok((columns, rest)) ==> {
            &&& tuple_fits(columns)
            &&& input == wire_tuple(columns) + rest
        },
{
    if let Ok((columns, rest)) = tuple_at(input) {
        lemma_number_received(input, 2);
        let (count, behind) = number_at(input, 2)->Ok_0;
        lemma_values_received(behind, count);
        assert(input =~= wire_tuple(columns) + rest);
    }
}

proof fn lemma_ids_received(input: Seq<u8>, count: nat)
    ensures
        ids_at(input, count) matches Ok((ids, rest)) ==> {
            &&& ids.len() == count
            &&& input == wire_ids(ids) + rest
        },
    decreases count,
{
    if let Ok((ids, rest)) = ids_at(input, count) {
        if count == 0 {
            assert(wire_ids(ids) + rest =~= rest);
        } else {
            lemma_pow256_values();
            lemma_number_received(input, 4);
            let (id, behind) = number_at(input, 4)->Ok_0;
            lemma_ids_received(behind, (count - 1) as nat);
            let tail = ids_at(behind, (count - 1) as nat)->Ok_0.0;
            assert(ids.drop_first() =~= tail);
            assert(input =~= wire_ids(ids) + rest);
        }
    }
}

proof fn lemma_boundary_received(input: Seq<u8>) -> (message: WireMessage)
    requires
        input.len() > 0,
        input[0] == 0x42 || input[0] == 0x43,
        message_of(input) is Ok,
    ensures
        message.fits(),
        message.bytes() == input,
{
    lemma_pow256_values();
    lemma_byte_received(input);
    let body = input.skip(1);
    if input[0] == 0x42 {
        lemma_number_received(body, 8);
        let (final_lsn, timed) = number_at(body, 8)->Ok_0;
        lemma_number_received(timed, 8);
        let (time, last) = number_at(timed, 8)->Ok_0;
        lemma_number_received(last, 4);
        let (xid, rest) = number_at(last, 4)->Ok_0;
        lemma_u64_bits_round_trip(time as u64);
        let message = WireMessage::Begin {
            final_lsn: LogSequenceNumber(final_lsn as u64),
            commit_timestamp_micros: (time as u64) as i64,
            xid: xid as u32,
        };
        assert(message.body() =~= body);
        assert(message.bytes() =~= input);
        message
    } else {
        lemma_byte_received(body);
        let (flags, first) = byte_at(body)->Ok_0;
        lemma_number_received(first, 8);
        let (commit_lsn, second) = number_at(first, 8)->Ok_0;
        lemma_number_received(second, 8);
        let (end_lsn, third) = number_at(second, 8)->Ok_0;
        lemma_number_received(third, 8);
        let (time, rest) = number_at(third, 8)->Ok_0;
        lemma_u64_bits_round_trip(time as u64);
        let message = WireMessage::Commit {
            flags,
            commit_lsn: LogSequenceNumber(commit_lsn as u64),
            end_lsn: LogSequenceNumber(end_lsn as u64),
            commit_timestamp_micros: (time as u64) as i64,
        };
        assert(message.body() =~= body);
        assert(message.bytes() =~= input);
        message
    }
}

proof fn lemma_listing_received(input: Seq<u8>) -> (message: WireMessage)
    requires
        input.len() > 0,
        input[0] == 0x52 || input[0] == 0x54,
        message_of(input) is Ok,
    ensures
        message.fits(),
        message.bytes() == input,
{
    lemma_pow256_values();
    lemma_byte_received(input);
    let body = input.skip(1);
    lemma_number_received(body, 4);
    let (number, first) = number_at(body, 4)->Ok_0;
    if input[0] == 0x52 {
        lemma_name_received(first);
        let second = name_at(first)->Ok_0.1;
        lemma_name_received(second);
        let coded = name_at(second)->Ok_0.1;
        lemma_byte_received(coded);
        let counted = byte_at(coded)->Ok_0.1;
        lemma_number_received(counted, 2);
        let (count, listed) = number_at(counted, 2)->Ok_0;
        lemma_columns_received(listed, count);
        let message = WireMessage::Relation(relation_at(body)->Ok_0.0);
        assert(message.body() =~= body);
        assert(message.bytes() =~= input);
        message
    } else {
        lemma_byte_received(first);
        let (options, listed) = byte_at(first)->Ok_0;
        lemma_ids_received(listed, number);
        let message = WireMessage::Truncate {
            relation_ids: ids_at(listed, number)->Ok_0.0,
            options,
        };
        assert(message.body() =~= body);
        assert(message.bytes() =~= input);
        message
    }
}

proof fn lemma_row_received(input: Seq<u8>) -> (message: WireMessage)
    requires
        input.len() > 0,
        input[0] == 0x49 || input[0] == 0x55 || input[0] == 0x44,
        message_of(input) is Ok,
    ensures
        message.fits(),
        message.bytes() == input,
{
    lemma_pow256_values();
    lemma_byte_received(input);
    let body = input.skip(1);
    lemma_number_received(body, 4);
    let (number, tagged) = number_at(body, 4)->Ok_0;
    let relation_id = number as u32;
    lemma_byte_received(tagged);
    let (tag, first) = byte_at(tagged)->Ok_0;
    lemma_tuple_received(first);
    let (columns, behind) = tuple_at(first)->Ok_0;
    if input[0] == 0x49 {
        let message = WireMessage::Insert { relation_id, new: columns };
        assert(message.body() =~= body);
        assert(message.bytes() =~= input);
        message
    } else if input[0] == 0x44 {
        let message = WireMessage::Delete { relation_id, whole_row: tag == 0x4f, old: columns };
        assert(message.body() =~= body);
        assert(message.bytes() =~= input);
        message
    } else if tag == 0x4e {
        let message = WireMessage::Update { relation_id, new: columns };
        assert(message.body() =~= body);
        assert(message.bytes() =~= input);
        message
    } else {
        lemma_byte_received(behind);
        let second = byte_at(behind)->Ok_0.1;
        lemma_tuple_received(second);
        let message = WireMessage::UpdateFrom {
            relation_id,
            whole_row: tag == 0x4f,
            old: columns,
            new: tuple_at(second)->Ok_0.0,
        };
        assert(message.body() =~= body);
        assert(message.bytes() =~= input);
        message
    }
}

/// Nothing but what a sender may say is decoded: bytes that decode are those of a message within
/// the limits, and decode to what it means.
pub proof fn law_only_what_may_be_sent_is_decoded(input: Seq<u8>)
    ensures
        message_of(input) matches Ok(decoded) ==> exists|message: WireMessage|
            message.fits() && #[trigger] message.bytes() == input && message.meaning() == decoded,
{
    if message_of(input) is Ok {
        let tag = input[0];
        assert(body_at(tag, input.skip(1)) is Ok);
        let message = if tag == 0x42 || tag == 0x43 {
            lemma_boundary_received(input)
        } else if tag == 0x52 || tag == 0x54 {
            lemma_listing_received(input)
        } else {
            lemma_row_received(input)
        };
        law_what_is_sent_is_what_is_decoded(message);
        assert(message.bytes() == input);
    }
}

// ---------------------------------------------------------------------------------------------
// What may not be sent
// ---------------------------------------------------------------------------------------------

/// Nothing at all ends too early, and a message that starts with none of the letters is reported
/// with its letter.
pub proof fn law_unknown_letter_is_refused(letter: u8, rest: Seq<u8>)
    ensures
        message_of(Seq::empty()) == Err::<MessageView, PgOutputError>(
            PgOutputError::UnexpectedEof,
        ),
        !seq![0x42u8, 0x43, 0x52, 0x49, 0x55, 0x44, 0x54].contains(letter) ==> message_of(
            seq![letter] + rest,
        ) == Err::<MessageView, PgOutputError>(PgOutputError::UnsupportedMessage(letter)),
{
    lemma_byte_sent(letter, rest);
    let letters = seq![0x42u8, 0x43, 0x52, 0x49, 0x55, 0x44, 0x54];
    assert(letters[0] == 0x42 && letters[1] == 0x43 && letters[2] == 0x52 && letters[3] == 0x49
        && letters[4] == 0x55 && letters[5] == 0x44 && letters[6] == 0x54);
}

/// A row change whose tuple does not start with a letter that its kind allows is reported with
/// that letter, and a truncate of no relation or of too many with their number.
pub proof fn law_misplaced_part_is_refused(relation_id: u32, letter: u8, count: u32, rest: Seq<u8>)
    ensures
        letter != 0x4e ==> message_of(
            seq![0x49u8] + (be_bytes(relation_id as nat, 4) + (seq![letter] + rest)),
        ) == Err::<MessageView, PgOutputError>(PgOutputError::InvalidTupleTag(letter)),
        letter != 0x4e && letter != 0x4b && letter != 0x4f ==> message_of(
            seq![0x55u8] + (be_bytes(relation_id as nat, 4) + (seq![letter] + rest)),
        ) == Err::<MessageView, PgOutputError>(PgOutputError::InvalidTupleTag(letter)),
        letter != 0x4b && letter != 0x4f ==> message_of(
            seq![0x44u8] + (be_bytes(relation_id as nat, 4) + (seq![letter] + rest)),
        ) == Err::<MessageView, PgOutputError>(PgOutputError::InvalidTupleTag(letter)),
        count == 0 || count > 4_096 ==> message_of(
            seq![0x54u8] + (be_bytes(count as nat, 4) + rest),
        ) == Err::<MessageView, PgOutputError>(
            PgOutputError::InvalidTruncateCount(count as usize),
        ),
{
    lemma_pow256_values();
    let body = be_bytes(relation_id as nat, 4) + (seq![letter] + rest);
    lemma_byte_sent(0x49, body);
    lemma_byte_sent(0x55, body);
    lemma_byte_sent(0x44, body);
    lemma_number_sent(relation_id as nat, 4, seq![letter] + rest);
    lemma_byte_sent(letter, rest);
    lemma_byte_sent(0x54, be_bytes(count as nat, 4) + rest);
    lemma_number_sent(count as nat, 4, rest);
}

/// A tuple with too many columns, a column of an unknown kind, and a value with too many bytes are
/// each reported with what is wrong. So are a name that does not end, one that is too long and
/// one that is no UTF-8, and an unknown replica identity.
pub proof fn law_unsound_part_is_refused(
    count: u16,
    kind: u8,
    len: u32,
    name: Seq<u8>,
    rest: Seq<u8>,
)
    ensures
        count > 1_024 ==> tuple_at(be_bytes(count as nat, 2) + rest) == Err::<
            (Seq<TupleColumnView>, Seq<u8>),
            PgOutputError,
        >(PgOutputError::TooManyColumns(count as usize)),
        !seq![0x6eu8, 0x75, 0x74, 0x62].contains(kind) ==> tuple_column_at(seq![kind] + rest)
            == Err::<(TupleColumnView, Seq<u8>), PgOutputError>(
            PgOutputError::InvalidTupleColumnKind(kind),
        ),
        len > 8_388_608 ==> tuple_column_at(seq![0x74u8] + (be_bytes(len as nat, 4) + rest))
            == Err::<(TupleColumnView, Seq<u8>), PgOutputError>(
            PgOutputError::ColumnTooLarge(len as usize),
        ),
        len > 8_388_608 ==> tuple_column_at(seq![0x62u8] + (be_bytes(len as nat, 4) + rest))
            == Err::<(TupleColumnView, Seq<u8>), PgOutputError>(
            PgOutputError::ColumnTooLarge(len as usize),
        ),
        (forall|i: int| 0 <= i < name.len() ==> #[trigger] name[i] != 0) ==> {
            &&& name_at(name) == Err::<(Seq<char>, Seq<u8>), PgOutputError>(
                PgOutputError::UnterminatedCString,
            )
            &&& name.len() > 1_024 ==> name_at(name.push(0) + rest) == Err::<
                (Seq<char>, Seq<u8>),
                PgOutputError,
            >(PgOutputError::StringTooLong(name.len() as usize))
            &&& name.len() <= 1_024 && !valid_utf8(name) ==> name_at(name.push(0) + rest) == Err::<
                (Seq<char>, Seq<u8>),
                PgOutputError,
            >(PgOutputError::InvalidUtf8)
        },
        !seq![0x64u8, 0x6e, 0x66, 0x69].contains(kind) ==> identity_of(kind) == Err::<
            ReplicaIdentity,
            PgOutputError,
        >(PgOutputError::InvalidReplicaIdentity(kind)),
{
    lemma_pow256_values();
    lemma_number_sent(count as nat, 2, rest);
    lemma_byte_sent(kind, rest);
    lemma_byte_sent(0x74, be_bytes(len as nat, 4) + rest);
    lemma_byte_sent(0x62, be_bytes(len as nat, 4) + rest);
    lemma_number_sent(len as nat, 4, rest);
    let kinds = seq![0x6eu8, 0x75, 0x74, 0x62];
    assert(kinds[0] == 0x6e && kinds[1] == 0x75 && kinds[2] == 0x74 && kinds[3] == 0x62);
    let letters = seq![0x64u8, 0x6e, 0x66, 0x69];
    assert(letters[0] == 0x64 && letters[1] == 0x6e && letters[2] == 0x66 && letters[3] == 0x69);
    if forall|i: int| 0 <= i < name.len() ==> #[trigger] name[i] != 0 {
        let ended = name.push(0) + rest;
        assert(forall|i: int| 0 <= i < name.len() ==> ended[i] == name[i]);
        lemma_first_zero(name, name.len());
        lemma_first_zero(ended, name.len());
        assert(ended.take(name.len() as int) =~= name);
    }
}

} // verus!
