//! Fixed-width numbers on byte strings and a forward-only reader.

use vstd::prelude::*;
use vstd::utf8::{decode_utf8, valid_utf8};

verus! {

/// Value of `bytes` read as a little-endian number.
pub open spec fn le_value(bytes: Seq<u8>) -> nat
    decreases bytes.len(),
{
    if bytes.len() == 0 {
        0
    } else {
        bytes[0] as nat + 256 * le_value(bytes.drop_first())
    }
}

/// Value of `bytes` read as a big-endian number.
pub open spec fn be_value(bytes: Seq<u8>) -> nat
    decreases bytes.len(),
{
    if bytes.len() == 0 {
        0
    } else {
        bytes.last() as nat + 256 * be_value(bytes.drop_last())
    }
}

/// The `width` low-order base-256 digits of `value`, least significant first.
pub open spec fn le_bytes(value: nat, width: nat) -> Seq<u8>
    decreases width,
{
    if width == 0 {
        Seq::empty()
    } else {
        seq![(value % 256) as u8] + le_bytes(value / 256, (width - 1) as nat)
    }
}

/// The number of values that `width` bytes can hold.
pub open spec fn pow256(width: nat) -> nat
    decreases width,
{
    if width == 0 {
        1
    } else {
        256 * pow256((width - 1) as nat)
    }
}

/// The capacities of the widths in use.
pub proof fn lemma_pow256_values()
    ensures
        pow256(1) == 0x100,
        pow256(2) == 0x1_0000,
        pow256(4) == 0x1_0000_0000,
        pow256(7) == 0x100_0000_0000_0000,
        pow256(8) == 0x1_0000_0000_0000_0000,
{
    reveal_with_fuel(pow256, 9);
}

proof fn lemma_pow256_grows(small: nat, large: nat)
    requires
        small <= large,
    ensures
        pow256(small) <= pow256(large),
    decreases large,
{
    if small < large {
        lemma_pow256_grows(small, (large - 1) as nat);
    }
}

/// Encoding at a fixed width yields exactly that many bytes.
pub broadcast proof fn lemma_le_bytes_len(value: nat, width: nat)
    ensures
        (#[trigger] le_bytes(value, width)).len() == width,
    decreases width,
{
    if width > 0 {
        lemma_le_bytes_len(value / 256, (width - 1) as nat);
    }
}

/// Reading back an encoded number that fits its width gives the number.
pub proof fn lemma_le_value_of_le_bytes(value: nat, width: nat)
    requires
        value < pow256(width),
    ensures
        le_value(le_bytes(value, width)) == value,
    decreases width,
{
    if width > 0 {
        let rest = le_bytes(value / 256, (width - 1) as nat);
        assert(le_bytes(value, width).drop_first() =~= rest);
        lemma_le_value_of_le_bytes(value / 256, (width - 1) as nat);
    }
}

/// A byte string is the encoding of its own value.
pub proof fn lemma_le_bytes_of_le_value(bytes: Seq<u8>)
    ensures
        le_bytes(le_value(bytes), bytes.len()) == bytes,
    decreases bytes.len(),
{
    if bytes.len() > 0 {
        let rest = bytes.drop_first();
        lemma_le_bytes_of_le_value(rest);
        assert(le_value(bytes) / 256 == le_value(rest));
        assert(le_value(bytes) % 256 == bytes[0]);
        assert(bytes =~= seq![bytes[0]] + rest);
    }
}

/// A value read from `n` bytes is below the capacity of `n` bytes.
pub proof fn lemma_le_value_bound(bytes: Seq<u8>)
    ensures
        le_value(bytes) < pow256(bytes.len()),
    decreases bytes.len(),
{
    if bytes.len() > 0 {
        lemma_le_value_bound(bytes.drop_first());
    }
}

/// A value read from `n` bytes is below the capacity of `n` bytes.
pub proof fn lemma_be_value_bound(bytes: Seq<u8>)
    ensures
        be_value(bytes) < pow256(bytes.len()),
    decreases bytes.len(),
{
    if bytes.len() > 0 {
        lemma_be_value_bound(bytes.drop_last());
    }
}

/// Appends the `width` low-order bytes of `value`, least significant first.
pub fn put_le(out: &mut Vec<u8>, value: u64, width: usize)
    requires
        width <= 8,
    ensures
        final(out)@ == old(out)@ + le_bytes(value as nat, width as nat),
{
    let ghost start = out@;
    let mut rest: u64 = value;
    let mut done: usize = 0;
    while done < width
        invariant
            done <= width,
            out@ + le_bytes(rest as nat, (width - done) as nat) == start + le_bytes(
                value as nat,
                width as nat,
            ),
        decreases width - done,
    {
        let ghost before = out@;
        let ghost tail = le_bytes((rest / 256) as nat, (width - done - 1) as nat);
        out.push((rest % 256) as u8);
        assert(before + (seq![(rest % 256) as u8] + tail) =~= out@ + tail);
        rest = rest / 256;
        done = done + 1;
    }
    assert(out@ =~= start + le_bytes(value as nat, width as nat));
}

/// Appends two little-endian bytes.
pub fn put_u16(out: &mut Vec<u8>, value: u16)
    ensures
        final(out)@ == old(out)@ + le_bytes(value as nat, 2),
{
    put_le(out, value as u64, 2);
}

/// Appends four little-endian bytes.
pub fn put_u32(out: &mut Vec<u8>, value: u32)
    ensures
        final(out)@ == old(out)@ + le_bytes(value as nat, 4),
{
    put_le(out, value as u64, 4);
}

/// Appends eight little-endian bytes.
pub fn put_u64(out: &mut Vec<u8>, value: u64)
    ensures
        final(out)@ == old(out)@ + le_bytes(value as nat, 8),
{
    put_le(out, value, 8);
}

/// Appends every byte of `bytes`.
pub fn put_bytes(out: &mut Vec<u8>, bytes: &[u8])
    ensures
        final(out)@ == old(out)@ + bytes@,
{
    let ghost start = out@;
    out.extend_from_slice(bytes);
    assert(out@ =~= start + bytes@);
}

/// Reads at most eight bytes as a little-endian number.
pub fn read_le(bytes: &[u8]) -> (value: u64)
    requires
        bytes@.len() <= 8,
    ensures
        value as nat == le_value(bytes@),
{
    let mut value: u64 = 0;
    let mut left: usize = bytes.len();
    assert(bytes@.skip(left as int) =~= Seq::empty());
    while left > 0
        invariant
            left <= bytes@.len() <= 8,
            value as nat == le_value(bytes@.skip(left as int)),
        decreases left,
    {
        proof {
            lemma_le_value_bound(bytes@.skip(left as int));
            lemma_pow256_grows((bytes@.len() - left) as nat, 7);
            lemma_pow256_values();
            assert(bytes@.skip(left - 1).drop_first() =~= bytes@.skip(left as int));
        }
        left = left - 1;
        value = bytes[left] as u64 + 256 * value;
    }
    assert(bytes@.skip(0) =~= bytes@);
    value
}

/// Reads at most eight bytes as a big-endian number.
pub fn read_be(bytes: &[u8]) -> (value: u64)
    requires
        bytes@.len() <= 8,
    ensures
        value as nat == be_value(bytes@),
{
    let mut value: u64 = 0;
    let mut done: usize = 0;
    assert(bytes@.take(0) =~= Seq::empty());
    while done < bytes.len()
        invariant
            done <= bytes@.len() <= 8,
            value as nat == be_value(bytes@.take(done as int)),
        decreases bytes@.len() - done,
    {
        proof {
            lemma_be_value_bound(bytes@.take(done as int));
            lemma_pow256_grows(done as nat, 7);
            lemma_pow256_values();
            assert(bytes@.take(done + 1).drop_last() =~= bytes@.take(done as int));
        }
        value = bytes[done] as u64 + 256 * value;
        done = done + 1;
    }
    assert(bytes@.take(bytes@.len() as int) =~= bytes@);
    value
}

/// Whether two byte strings are equal.
pub fn same_bytes(left: &[u8], right: &[u8]) -> (same: bool)
    ensures
        same == (left@ == right@),
{
    if left.len() != right.len() {
        return false;
    }
    let mut index: usize = 0;
    while index < left.len()
        invariant
            index <= left@.len(),
            left@.len() == right@.len(),
            forall|i: int| 0 <= i < index ==> left@[i] == right@[i],
        decreases left@.len() - index,
    {
        if left[index] != right[index] {
            return false;
        }
        index = index + 1;
    }
    assert(left@ =~= right@);
    true
}

/// The first `count` bytes of `input` and what follows them, if there are that many.
pub open spec fn next_bytes(input: Seq<u8>, count: nat) -> Option<(Seq<u8>, Seq<u8>)> {
    if count <= input.len() {
        Some((input.take(count as int), input.skip(count as int)))
    } else {
        None
    }
}

/// The first byte of `input` and what follows it.
pub open spec fn next_u8(input: Seq<u8>) -> Option<(u8, Seq<u8>)> {
    if input.len() == 0 {
        None
    } else {
        Some((input[0], input.skip(1)))
    }
}

/// The little-endian number in the first `width` bytes of `input` and what follows them.
pub open spec fn next_le(input: Seq<u8>, width: nat) -> Option<(nat, Seq<u8>)> {
    match next_bytes(input, width) {
        Some((field, rest)) => Some((le_value(field), rest)),
        None => None,
    }
}

/// The big-endian number in the first `width` bytes of `input` and what follows them.
pub open spec fn next_be(input: Seq<u8>, width: nat) -> Option<(nat, Seq<u8>)> {
    match next_bytes(input, width) {
        Some((field, rest)) => Some((be_value(field), rest)),
        None => None,
    }
}

/// Reading a field that was just written gives the number back and leaves the rest.
pub proof fn lemma_next_le_of_le_bytes(value: nat, width: nat, rest: Seq<u8>)
    requires
        value < pow256(width),
    ensures
        next_le(le_bytes(value, width) + rest, width) == Some((value, rest)),
{
    broadcast use lemma_le_bytes_len;

    let input = le_bytes(value, width) + rest;
    assert(input.take(width as int) =~= le_bytes(value, width));
    assert(input.skip(width as int) =~= rest);
    lemma_le_value_of_le_bytes(value, width);
}

/// A field that was read starts the input, in its own encoding.
pub proof fn lemma_next_le_inverse(input: Seq<u8>, width: nat)
    ensures
        next_le(input, width) matches Some((value, rest)) ==> {
            &&& input == le_bytes(value, width) + rest
            &&& value < pow256(width)
        },
{
    if width <= input.len() {
        let field = input.take(width as int);
        lemma_le_bytes_of_le_value(field);
        lemma_le_value_bound(field);
        assert(input =~= field + input.skip(width as int));
    }
}

/// Splitting a concatenation at the end of its first part gives both parts.
pub proof fn lemma_next_bytes_of_concat(field: Seq<u8>, rest: Seq<u8>)
    ensures
        next_bytes(field + rest, field.len()) == Some((field, rest)),
{
    assert((field + rest).take(field.len() as int) =~= field);
    assert((field + rest).skip(field.len() as int) =~= rest);
}

/// Forward-only reader over a byte string.
pub struct Cursor<'a> {
    bytes: &'a [u8],
    offset: usize,
}

impl<'a> Cursor<'a> {
    #[verifier::type_invariant]
    spec fn within_bounds(self) -> bool {
        self.offset <= self.bytes@.len()
    }

    /// The bytes that are not read yet.
    pub closed spec fn rest(self) -> Seq<u8> {
        self.bytes@.skip(self.offset as int)
    }

    /// A reader at the start of `bytes`.
    pub fn new(bytes: &'a [u8]) -> (cursor: Self)
        ensures
            cursor.rest() == bytes@,
    {
        assert(bytes@.skip(0) =~= bytes@);
        Cursor { bytes, offset: 0 }
    }

    /// The number of bytes that are not read yet.
    pub fn remaining(&self) -> (count: usize)
        ensures
            count == self.rest().len(),
    {
        proof {
            use_type_invariant(self);
        }
        self.bytes.len() - self.offset
    }

    /// The unread bytes themselves, without reading them.
    pub fn tail(&self) -> (bytes: &'a [u8])
        ensures
            bytes@ == self.rest(),
    {
        proof {
            use_type_invariant(self);
        }
        vstd::slice::slice_subrange(self.bytes, self.offset, self.bytes.len())
    }

    /// Reads the next `count` bytes; reads nothing where fewer are left.
    pub fn take(&mut self, count: usize) -> (field: Option<&'a [u8]>)
        ensures
            match field {
                Some(bytes) => next_bytes(old(self).rest(), count as nat) == Some(
                    (bytes@, final(self).rest()),
                ),
                None => next_bytes(old(self).rest(), count as nat) is None && final(self).rest()
                    == old(self).rest(),
            },
    {
        proof {
            use_type_invariant(&*self);
        }
        let ghost before = self.rest();
        if count > self.bytes.len() - self.offset {
            return None;
        }
        let end: usize = self.offset + count;
        let field = vstd::slice::slice_subrange(self.bytes, self.offset, end);
        assert(field@ =~= before.take(count as int));
        self.offset = end;
        assert(self.rest() =~= before.skip(count as int));
        Some(field)
    }

    /// Reads one byte.
    pub fn u8(&mut self) -> (value: Option<u8>)
        ensures
            match value {
                Some(byte) => next_u8(old(self).rest()) == Some((byte, final(self).rest())),
                None => next_u8(old(self).rest()) is None && final(self).rest()
                    == old(self).rest(),
            },
    {
        match self.take(1) {
            Some(field) => Some(field[0]),
            None => None,
        }
    }

    /// Reads a little-endian number of `width` bytes.
    pub fn le(&mut self, width: usize) -> (value: Option<u64>)
        requires
            width <= 8,
        ensures
            match value {
                Some(number) => next_le(old(self).rest(), width as nat) == Some(
                    (number as nat, final(self).rest()),
                ) && number < pow256(width as nat),
                None => next_le(old(self).rest(), width as nat) is None && final(self).rest()
                    == old(self).rest(),
            },
    {
        match self.take(width) {
            Some(field) => {
                proof {
                    lemma_le_value_bound(field@);
                }
                Some(read_le(field))
            },
            None => None,
        }
    }

    /// Reads a big-endian number of `width` bytes.
    pub fn be(&mut self, width: usize) -> (value: Option<u64>)
        requires
            width <= 8,
        ensures
            match value {
                Some(number) => next_be(old(self).rest(), width as nat) == Some(
                    (number as nat, final(self).rest()),
                ) && number < pow256(width as nat),
                None => next_be(old(self).rest(), width as nat) is None && final(self).rest()
                    == old(self).rest(),
            },
    {
        match self.take(width) {
            Some(field) => {
                proof {
                    lemma_be_value_bound(field@);
                }
                Some(read_be(field))
            },
            None => None,
        }
    }
}

/// Text of a byte string, where it is UTF-8.
///
/// Trusted: `core::str::from_utf8`, and `to_owned` of what it borrows. It accepts exactly the
/// byte strings that are well-formed UTF-8, and the text it gives has the scalar values that the
/// bytes encode.
#[verifier::external_body]
pub(crate) fn utf8_text(bytes: &[u8]) -> (text: Option<String>)
    ensures
        match text {
            Some(text) => valid_utf8(bytes@) && text@ == decode_utf8(bytes@),
            None => !valid_utf8(bytes@),
        },
{
    core::str::from_utf8(bytes).ok().map(|text| text.to_owned())
}

/// Reinterpreting a signed number as unsigned and back keeps it.
pub proof fn lemma_i64_bits_round_trip(value: i64)
    ensures
        (value as u64) as i64 == value,
{
    assert((value as u64) as i64 == value) by (bit_vector);
}

/// Reinterpreting an unsigned number as signed and back keeps it.
pub proof fn lemma_u64_bits_round_trip(value: u64)
    ensures
        (value as i64) as u64 == value,
{
    assert((value as i64) as u64 == value) by (bit_vector);
}

/// Reading one number behind another makes of the second the more significant part where the
/// least significant byte comes first, and the less significant part where it comes last. One
/// byte is its own value either way.
pub proof fn law_bytes_count_by_their_place(front: Seq<u8>, back: Seq<u8>, byte: u8)
    ensures
        le_value(seq![byte]) == byte,
        be_value(seq![byte]) == byte,
        le_value(front + back) == le_value(front) + pow256(front.len()) * le_value(back),
        be_value(front + back) == be_value(front) * pow256(back.len()) + be_value(back),
    decreases front.len() + back.len(),
{
    reveal_with_fuel(le_value, 2);
    reveal_with_fuel(be_value, 2);
    assert(seq![byte].drop_first() =~= Seq::<u8>::empty());
    assert(seq![byte].drop_last() =~= Seq::<u8>::empty());
    if front.len() == 0 {
        assert(front + back =~= back);
        assert(1 * le_value(back) == le_value(back));
        assert(0 * pow256(back.len()) == 0) by (nonlinear_arith);
    } else {
        let rest = front.drop_first();
        law_bytes_count_by_their_place(rest, back, byte);
        assert((front + back).drop_first() =~= rest + back);
        let (scale, value) = (pow256(rest.len()), le_value(back));
        assert((256 * scale) * value == 256 * (scale * value)) by (nonlinear_arith);
    }
    if back.len() == 0 {
        assert(front + back =~= front);
        assert(be_value(front) * 1 == be_value(front));
    } else {
        let rest = back.drop_last();
        law_bytes_count_by_their_place(front, rest, byte);
        assert((front + back).drop_last() =~= front + rest);
        let (scale, value) = (pow256(rest.len()), be_value(front));
        assert(value * (256 * scale) == 256 * (value * scale)) by (nonlinear_arith);
    }
}

} // verus!
