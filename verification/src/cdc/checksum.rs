//! CRC-32C (Castagnoli), the reflected polynomial `0x82f63b78`.

use vstd::prelude::*;

verus! {

/// The reflected Castagnoli polynomial.
pub const CASTAGNOLI: u32 = 0x82f6_3b78;

/// One division step.
pub open spec fn crc_bit(crc: u32) -> u32 {
    if crc & 1 == 1 {
        (crc >> 1) ^ CASTAGNOLI
    } else {
        crc >> 1
    }
}

/// `count` division steps.
pub open spec fn crc_bits(crc: u32, count: nat) -> u32
    decreases count,
{
    if count == 0 {
        crc
    } else {
        crc_bit(crc_bits(crc, (count - 1) as nat))
    }
}

/// The register after all of `bytes`.
pub open spec fn crc_register(bytes: Seq<u8>) -> u32
    decreases bytes.len(),
{
    if bytes.len() == 0 {
        0xffff_ffff
    } else {
        crc_bits(crc_register(bytes.drop_last()) ^ (bytes.last() as u32), 8)
    }
}

/// The CRC-32C of `bytes`.
pub open spec fn crc32c_of(bytes: Seq<u8>) -> u32 {
    !crc_register(bytes)
}

/// The CRC-32C of `bytes`.
pub fn crc32c(bytes: &[u8]) -> (crc: u32)
    ensures
        crc == crc32c_of(bytes@),
{
    let mut crc: u32 = 0xffff_ffff;
    let mut index: usize = 0;
    assert(bytes@.take(0) =~= Seq::empty());
    while index < bytes.len()
        invariant
            index <= bytes@.len(),
            crc == crc_register(bytes@.take(index as int)),
        decreases bytes@.len() - index,
    {
        assert(bytes@.take(index + 1).drop_last() =~= bytes@.take(index as int));
        let start: u32 = crc ^ (bytes[index] as u32);
        crc = start;
        let mut bit: u32 = 0;
        while bit < 8
            invariant
                bit <= 8,
                crc == crc_bits(start, bit as nat),
            decreases 8 - bit,
        {
            crc = if crc & 1 == 1 {
                (crc >> 1) ^ CASTAGNOLI
            } else {
                crc >> 1
            };
            bit = bit + 1;
        }
        index = index + 1;
    }
    assert(bytes@.take(bytes@.len() as int) =~= bytes@);
    !crc
}

proof fn lemma_crc_bit_tells(left: u32, right: u32)
    requires
        crc_bit(left) == crc_bit(right),
    ensures
        left == right,
{
    let (a, b) = (left, right);
    assert(((if a & 1 == 1 {
        (a >> 1) ^ 0x82f6_3b78u32
    } else {
        a >> 1
    }) == (if b & 1 == 1 {
        (b >> 1) ^ 0x82f6_3b78u32
    } else {
        b >> 1
    })) ==> a == b) by (bit_vector);
}

proof fn lemma_crc_bits_tell(left: u32, right: u32, count: nat)
    requires
        crc_bits(left, count) == crc_bits(right, count),
    ensures
        left == right,
    decreases count,
{
    if count > 0 {
        let before = (count - 1) as nat;
        lemma_crc_bit_tells(crc_bits(left, before), crc_bits(right, before));
        lemma_crc_bits_tell(left, right, before);
    }
}

proof fn lemma_register_tells(left: Seq<u8>, right: Seq<u8>, tail: Seq<u8>)
    requires
        crc_register(left + tail) == crc_register(right + tail),
    ensures
        crc_register(left) == crc_register(right),
    decreases tail.len(),
{
    if tail.len() == 0 {
        assert(left + tail =~= left);
        assert(right + tail =~= right);
    } else {
        let front = tail.drop_last();
        let last = tail.last() as u32;
        assert((left + tail).drop_last() =~= left + front);
        assert((right + tail).drop_last() =~= right + front);
        let (a, b) = (crc_register(left + front), crc_register(right + front));
        lemma_crc_bits_tell(a ^ last, b ^ last, 8);
        assert(a ^ last == b ^ last ==> a == b) by (bit_vector);
        lemma_register_tells(left, right, front);
    }
}

/// A checksum tells of any byte that was changed, wherever it stands and whatever it was changed
/// to.
pub proof fn law_changed_byte_changes_the_checksum(
    before: Seq<u8>,
    byte: u8,
    other: u8,
    behind: Seq<u8>,
)
    requires
        byte != other,
    ensures
        crc32c_of(before.push(byte) + behind) != crc32c_of(before.push(other) + behind),
{
    let left = before.push(byte);
    let right = before.push(other);
    let (a, b) = (crc_register(left + behind), crc_register(right + behind));
    assert(!a == !b ==> a == b) by (bit_vector);
    if a == b {
        lemma_register_tells(left, right, behind);
        assert(left.drop_last() =~= before);
        assert(right.drop_last() =~= before);
        let start = crc_register(before);
        lemma_crc_bits_tell(start ^ (byte as u32), start ^ (other as u32), 8);
        assert(start ^ (byte as u32) == start ^ (other as u32) ==> byte == other) by (bit_vector);
    }
}

/// Checksums are those of the Castagnoli polynomial: what a byte does to a checksum is eight steps
/// of division, each of which halves the register and, where a one falls out, adds the polynomial.
pub proof fn law_checksum_divides_by_the_polynomial(bytes: Seq<u8>, byte: u8, crc: u32)
    ensures
        crc32c_of(Seq::empty()) == 0,
        crc32c_of(bytes.push(byte)) == !crc_bits(!crc32c_of(bytes) ^ (byte as u32), 8),
        crc % 2 == 0 ==> crc_bit(crc) == crc / 2,
        crc % 2 == 1 ==> crc_bit(crc) == (crc / 2) ^ 0x82f6_3b78,
        crc_bits(crc, 8) == crc_bit(crc_bit(crc_bit(crc_bit(crc_bit(crc_bit(crc_bit(crc_bit(
            crc,
        )))))))),
{
    assert(!0xffff_ffffu32 == 0) by (bit_vector);
    assert(bytes.push(byte).drop_last() =~= bytes);
    let register = crc_register(bytes);
    assert(!(!register) == register) by (bit_vector);
    assert(crc % 2 == 0 ==> crc & 1 == 0) by (bit_vector);
    assert(crc % 2 == 1 ==> crc & 1 == 1) by (bit_vector);
    assert(crc >> 1 == crc / 2) by (bit_vector);
    reveal_with_fuel(crc_bits, 9);
}

} // verus!
