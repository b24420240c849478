//! Piece bitfields: `bit_vec::BitVec` and the byte layout of its bits
//! (most significant bit of each byte first).
use bit_vec::BitVec;
use vstd::prelude::*;

verus! {

/// `bit_vec::BitVec`, opaque: what it holds is named by `bitvec_bits`.
#[verifier::external_type_specification]
#[verifier::external_body]
#[verifier::reject_recursive_types(B)]
pub struct ExBitVec<B>(BitVec<B>);

/// The bits that a `BitVec` holds, first bit first.
pub uninterp spec fn bitvec_bits(v: BitVec<u32>) -> Seq<bool>;

/// The mask of bit `k` (0 = most significant) within a byte.
pub open spec fn bit_mask(k: int) -> u8 {
    if k == 0 {
        0x80u8
    } else if k == 1 {
        0x40u8
    } else if k == 2 {
        0x20u8
    } else if k == 3 {
        0x10u8
    } else if k == 4 {
        0x08u8
    } else if k == 5 {
        0x04u8
    } else if k == 6 {
        0x02u8
    } else {
        0x01u8
    }
}

/// Bit `k` of a byte, counted from the most significant one.
pub open spec fn byte_bit(b: u8, k: int) -> bool {
    b & bit_mask(k) != 0
}

/// The bits of a byte string, eight per byte, most significant first.
pub open spec fn bits_of_bytes(bytes: Seq<u8>) -> Seq<bool> {
    Seq::new(bytes.len() * 8, |i: int| byte_bit(bytes[i / 8], i % 8))
}

/// Bit `i` of `bits`, or `false` past its end.
pub open spec fn bit_or_false(bits: Seq<bool>, i: int) -> bool {
    0 <= i < bits.len() && bits[i]
}

/// The byte made of eight bits, the first one most significant.
pub open spec fn pack_byte(b0: bool, b1: bool, b2: bool, b3: bool, b4: bool, b5: bool, b6: bool, b7: bool) -> u8 {
    (if b0 { 0x80u8 } else { 0u8 }) | (if b1 { 0x40u8 } else { 0u8 }) | (if b2 { 0x20u8 } else { 0u8 })
        | (if b3 { 0x10u8 } else { 0u8 }) | (if b4 { 0x08u8 } else { 0u8 }) | (if b5 { 0x04u8 } else { 0u8 })
        | (if b6 { 0x02u8 } else { 0u8 }) | (if b7 { 0x01u8 } else { 0u8 })
}

/// Byte `j` of the packing of `bits`: bits `8j .. 8j+8`, missing ones false.
pub open spec fn packed_byte(bits: Seq<bool>, j: int) -> u8 {
    pack_byte(
        bit_or_false(bits, 8 * j),
        bit_or_false(bits, 8 * j + 1),
        bit_or_false(bits, 8 * j + 2),
        bit_or_false(bits, 8 * j + 3),
        bit_or_false(bits, 8 * j + 4),
        bit_or_false(bits, 8 * j + 5),
        bit_or_false(bits, 8 * j + 6),
        bit_or_false(bits, 8 * j + 7),
    )
}

/// The number of bytes that hold `n` bits.
pub open spec fn bytes_for_bits(n: int) -> int {
    (n + 7) / 8
}

/// The bytes of a bit string, eight bits per byte, most significant first,
/// the last byte filled with false bits.
pub open spec fn bytes_of_bits(bits: Seq<bool>) -> Seq<u8> {
    Seq::new(bytes_for_bits(bits.len() as int) as nat, |j: int| packed_byte(bits, j))
}

/// A bit string followed by false bits up to a multiple of eight.
pub open spec fn pad_to_bytes(bits: Seq<bool>) -> Seq<bool> {
    Seq::new((bytes_for_bits(bits.len() as int) * 8) as nat, |i: int| bit_or_false(bits, i))
}

/// `BitVec::from_bytes`: eight bits per byte, most significant first.
/// It panics when the bit count overflows `usize`, hence the bound.
#[verifier::external_body]
pub(crate) fn bitvec_from_bytes(bytes: &[u8]) -> (v: BitVec)
    requires
        bytes@.len() * 8 <= usize::MAX,
    ensures
        bitvec_bits(v) == bits_of_bytes(bytes@),
{
    BitVec::from_bytes(bytes)
}

/// `BitVec::to_bytes`: the bits packed eight per byte, most significant
/// first, the last byte padded with false bits.
#[verifier::external_body]
pub(crate) fn bitvec_to_bytes(v: &BitVec) -> (bytes: Vec<u8>)
    ensures
        bytes@ == bytes_of_bits(bitvec_bits(*v)),
{
    v.to_bytes()
}

/// `BitVec::len`: the number of bits.
#[verifier::external_body]
pub(crate) fn bitvec_len(v: &BitVec) -> (n: usize)
    ensures
        n == bitvec_bits(*v).len(),
{
    v.len()
}

/// `BitVec::iter`, collected: the bits in order.
#[verifier::external_body]
pub(crate) fn bitvec_to_bools(v: &BitVec) -> (bools: Vec<bool>)
    ensures
        bools@ == bitvec_bits(*v),
{
    v.iter().collect()
}

/// `BitVec: FromIterator<bool>`: a bit vector holding the given bits.
#[verifier::external_body]
pub(crate) fn bitvec_from_bools(bools: Vec<bool>) -> (v: BitVec)
    ensures
        bitvec_bits(v) == bools@,
{
    bools.into_iter().collect()
}

/// Each bit of a packed byte is the bit it was packed from.
pub proof fn lemma_pack_byte_bits(b0: bool, b1: bool, b2: bool, b3: bool, b4: bool, b5: bool, b6: bool, b7: bool)
    ensures
        byte_bit(pack_byte(b0, b1, b2, b3, b4, b5, b6, b7), 0) == b0,
        byte_bit(pack_byte(b0, b1, b2, b3, b4, b5, b6, b7), 1) == b1,
        byte_bit(pack_byte(b0, b1, b2, b3, b4, b5, b6, b7), 2) == b2,
        byte_bit(pack_byte(b0, b1, b2, b3, b4, b5, b6, b7), 3) == b3,
        byte_bit(pack_byte(b0, b1, b2, b3, b4, b5, b6, b7), 4) == b4,
        byte_bit(pack_byte(b0, b1, b2, b3, b4, b5, b6, b7), 5) == b5,
        byte_bit(pack_byte(b0, b1, b2, b3, b4, b5, b6, b7), 6) == b6,
        byte_bit(pack_byte(b0, b1, b2, b3, b4, b5, b6, b7), 7) == b7,
{
    let p = pack_byte(b0, b1, b2, b3, b4, b5, b6, b7);
    assert(p & 0x80u8 != 0 <==> b0) by (bit_vector)
        requires p == pack_byte(b0, b1, b2, b3, b4, b5, b6, b7);
    assert(p & 0x40u8 != 0 <==> b1) by (bit_vector)
        requires p == pack_byte(b0, b1, b2, b3, b4, b5, b6, b7);
    assert(p & 0x20u8 != 0 <==> b2) by (bit_vector)
        requires p == pack_byte(b0, b1, b2, b3, b4, b5, b6, b7);
    assert(p & 0x10u8 != 0 <==> b3) by (bit_vector)
        requires p == pack_byte(b0, b1, b2, b3, b4, b5, b6, b7);
    assert(p & 0x08u8 != 0 <==> b4) by (bit_vector)
        requires p == pack_byte(b0, b1, b2, b3, b4, b5, b6, b7);
    assert(p & 0x04u8 != 0 <==> b5) by (bit_vector)
        requires p == pack_byte(b0, b1, b2, b3, b4, b5, b6, b7);
    assert(p & 0x02u8 != 0 <==> b6) by (bit_vector)
        requires p == pack_byte(b0, b1, b2, b3, b4, b5, b6, b7);
    assert(p & 0x01u8 != 0 <==> b7) by (bit_vector)
        requires p == pack_byte(b0, b1, b2, b3, b4, b5, b6, b7);
}

/// Packing the eight bits of a byte gives the byte back.
pub proof fn lemma_byte_repack(b: u8)
    ensures
        pack_byte(
            byte_bit(b, 0),
            byte_bit(b, 1),
            byte_bit(b, 2),
            byte_bit(b, 3),
            byte_bit(b, 4),
            byte_bit(b, 5),
            byte_bit(b, 6),
            byte_bit(b, 7),
        ) == b,
{
    assert(pack_byte(
        b & 0x80u8 != 0,
        b & 0x40u8 != 0,
        b & 0x20u8 != 0,
        b & 0x10u8 != 0,
        b & 0x08u8 != 0,
        b & 0x04u8 != 0,
        b & 0x02u8 != 0,
        b & 0x01u8 != 0,
    ) == b) by (bit_vector);
}

/// Unpacking the packed bytes of a bit string gives the bit string back,
/// followed by false bits up to a whole number of bytes.
pub proof fn lemma_bits_bytes_roundtrip(bits: Seq<bool>)
    ensures
        bits_of_bytes(bytes_of_bits(bits)) == pad_to_bytes(bits),
{
    let bytes = bytes_of_bits(bits);
    let lhs = bits_of_bytes(bytes);
    let rhs = pad_to_bytes(bits);
    assert forall|i: int| 0 <= i < lhs.len() implies #[trigger] lhs[i] == rhs[i] by {
        let j = i / 8;
        let k = i % 8;
        lemma_pack_byte_bits(
            bit_or_false(bits, 8 * j),
            bit_or_false(bits, 8 * j + 1),
            bit_or_false(bits, 8 * j + 2),
            bit_or_false(bits, 8 * j + 3),
            bit_or_false(bits, 8 * j + 4),
            bit_or_false(bits, 8 * j + 5),
            bit_or_false(bits, 8 * j + 6),
            bit_or_false(bits, 8 * j + 7),
        );
        assert(i == 8 * j + k);
    }
    assert(lhs =~= rhs);
}

/// Packing the bits of a byte string gives the byte string back.
pub proof fn lemma_bytes_bits_roundtrip(bytes: Seq<u8>)
    ensures
        bytes_of_bits(bits_of_bytes(bytes)) == bytes,
{
    let bits = bits_of_bytes(bytes);
    let back = bytes_of_bits(bits);
    assert(bytes_for_bits(bits.len() as int) == bytes.len());
    assert forall|j: int| 0 <= j < back.len() implies #[trigger] back[j] == bytes[j] by {
        lemma_byte_repack(bytes[j]);
        assert forall|k: int| 0 <= k < 8 implies bit_or_false(bits, 8 * j + k) == byte_bit(bytes[j], k) by {
            assert((8 * j + k) / 8 == j);
            assert((8 * j + k) % 8 == k);
        }
        assert(bit_or_false(bits, 8 * j) == byte_bit(bytes[j], 0));
        assert(bit_or_false(bits, 8 * j + 1) == byte_bit(bytes[j], 1));
        assert(bit_or_false(bits, 8 * j + 2) == byte_bit(bytes[j], 2));
        assert(bit_or_false(bits, 8 * j + 3) == byte_bit(bytes[j], 3));
        assert(bit_or_false(bits, 8 * j + 4) == byte_bit(bytes[j], 4));
        assert(bit_or_false(bits, 8 * j + 5) == byte_bit(bytes[j], 5));
        assert(bit_or_false(bits, 8 * j + 6) == byte_bit(bytes[j], 6));
        assert(bit_or_false(bits, 8 * j + 7) == byte_bit(bytes[j], 7));
    }
    assert(back =~= bytes);
}

} // verus!
