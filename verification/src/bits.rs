//! Bit sequences in most-significant-bit-first order.
//!
//! The bits of a message are read, and the recovered bits are packed, by a
//! `bitvec` vector over bytes in `Msb0` order. This module states what that
//! vector holds and what its operations do, over plain sequences of `bool`.

use bitvec::order::Msb0;
use bitvec::vec::BitVec;
use vstd::arithmetic::div_mod::lemma_fundamental_div_mod_converse;
use vstd::prelude::*;

verus! {

/// Value of the bit at `position` of a byte, position 0 being the most
/// significant bit.
pub open spec fn bit_weight(position: int) -> int {
    if position == 0 {
        128
    } else if position == 1 {
        64
    } else if position == 2 {
        32
    } else if position == 3 {
        16
    } else if position == 4 {
        8
    } else if position == 5 {
        4
    } else if position == 6 {
        2
    } else {
        1
    }
}

/// Whether the bit at `position` of `byte` is set, position 0 being the most
/// significant bit.
pub open spec fn bit_of_byte(byte: u8, position: int) -> bool {
    (byte as int / bit_weight(position)) % 2 == 1
}

/// The bits of a byte sequence: eight per byte, bytes in order, the most
/// significant bit of each byte first.
pub open spec fn msb0_bits(bytes: Seq<u8>) -> Seq<bool> {
    Seq::new(8 * bytes.len(), |i: int| bit_of_byte(bytes[i / 8], i % 8))
}

/// What the bit at `index` of `bits` adds to the byte it falls in; nothing
/// where `index` lies past the end.
pub open spec fn bit_share(bits: Seq<bool>, index: int) -> int {
    if 0 <= index < bits.len() && bits[index] {
        bit_weight(index % 8)
    } else {
        0
    }
}

/// Byte `at` of the packing of `bits`.
pub open spec fn packed_byte(bits: Seq<bool>, at: int) -> int {
    bit_share(bits, 8 * at) + bit_share(bits, 8 * at + 1) + bit_share(bits, 8 * at + 2)
        + bit_share(bits, 8 * at + 3) + bit_share(bits, 8 * at + 4) + bit_share(bits, 8 * at + 5)
        + bit_share(bits, 8 * at + 6) + bit_share(bits, 8 * at + 7)
}

/// The bytes that hold `bits`, eight to a byte, the first bit of each eight
/// in the most significant place. A last byte that is only partly filled has
/// zeros in its remaining places.
pub open spec fn pack_msb0(bits: Seq<bool>) -> Seq<u8> {
    Seq::new(((bits.len() + 7) / 8) as nat, |at: int| packed_byte(bits, at) as u8)
}

/// Largest number of bits a `BitBuffer` can hold.
pub open spec fn max_bits() -> int {
    usize::MAX as int / 8
}

/// A growable sequence of bits, stored by `bitvec` in bytes, most significant
/// bit first.
///
/// Values are made by `new` and `from_slice` and changed by `push` only, so
/// the stored bits always begin at the first bit of the first byte, and the
/// places of the last byte that lie past the end hold zeros.
#[verifier::external_body]
pub struct BitBuffer {
    bits: BitVec<u8, Msb0>,
}

/// The bits that a buffer holds, in order.
pub uninterp spec fn bit_contents(buffer: BitBuffer) -> Seq<bool>;

impl BitBuffer {
    /// `BitVec::new`: a vector that holds no bits and has no storage.
    #[verifier::external_body]
    pub(crate) fn new() -> (buffer: BitBuffer)
        ensures
            bit_contents(buffer) == Seq::<bool>::empty(),
    {
        BitBuffer { bits: BitVec::new() }
    }

    /// `BitVec::from_slice`: a copy of `bytes`, viewed as bits in `Msb0`
    /// order, which counts bit 0 of each byte from its most significant end.
    /// The call panics on a slice too long for a bit vector to index; the
    /// bound here keeps all of its bits within `BitSlice::MAX_BITS`.
    #[verifier::external_body]
    pub(crate) fn from_slice(bytes: &[u8]) -> (buffer: BitBuffer)
        requires
            8 * bytes@.len() <= max_bits(),
        ensures
            bit_contents(buffer) == msb0_bits(bytes@),
    {
        BitBuffer { bits: BitVec::from_slice(bytes) }
    }

    /// `BitSlice::get` with a `usize`: the bit at `index`, or `None` where
    /// `index` is not below the length.
    #[verifier::external_body]
    pub(crate) fn get(&self, index: usize) -> (bit: Option<bool>)
        ensures
            bit == if index < bit_contents(*self).len() {
                Some(bit_contents(*self)[index as int])
            } else {
                None::<bool>
            },
    {
        self.bits.get(index).as_deref().copied()
    }

    /// `BitVec::push`: appends one bit. Where the bits so far fill whole
    /// bytes, a zero byte is added to the storage first. The call panics
    /// where the new length would exceed `BitSlice::MAX_BITS`.
    #[verifier::external_body]
    pub(crate) fn push(&mut self, value: bool)
        requires
            bit_contents(*old(self)).len() < max_bits(),
        ensures
            bit_contents(*final(self)) == bit_contents(*old(self)).push(value),
    {
        self.bits.push(value)
    }

    /// `BitVec::into_vec`: the storage bytes that hold bits of the vector.
    /// For a buffer, whose storage starts at a byte's first bit and is
    /// zero past the end, these are the packed bits.
    #[verifier::external_body]
    pub(crate) fn into_vec(self) -> (bytes: Vec<u8>)
        ensures
            bytes@ == pack_msb0(bit_contents(self)),
    {
        self.bits.into_vec()
    }
}

/// A byte is the sum of the weights of its set bits.
pub proof fn lemma_byte_is_sum_of_bits(byte: u8)
    ensures
        byte as int == (if bit_of_byte(byte, 0) { 128int } else { 0 })
            + (if bit_of_byte(byte, 1) { 64int } else { 0 })
            + (if bit_of_byte(byte, 2) { 32int } else { 0 })
            + (if bit_of_byte(byte, 3) { 16int } else { 0 })
            + (if bit_of_byte(byte, 4) { 8int } else { 0 })
            + (if bit_of_byte(byte, 5) { 4int } else { 0 })
            + (if bit_of_byte(byte, 6) { 2int } else { 0 })
            + (if bit_of_byte(byte, 7) { 1int } else { 0 }),
{
    let b: int = byte as int;
    let q1: int = b / 2;
    let q2: int = b / 4;
    let q3: int = b / 8;
    let q4: int = b / 16;
    let q5: int = b / 32;
    let q6: int = b / 64;
    let q7: int = b / 128;
    assert(q2 == q1 / 2 && q3 == q2 / 2 && q4 == q3 / 2 && q5 == q4 / 2 && q6 == q5 / 2 && q7
        == q6 / 2);
    assert(b == 2 * q1 + b % 2);
    assert(q1 == 2 * q2 + q1 % 2);
    assert(q2 == 2 * q3 + q2 % 2);
    assert(q3 == 2 * q4 + q3 % 2);
    assert(q4 == 2 * q5 + q4 % 2);
    assert(q5 == 2 * q6 + q5 % 2);
    assert(q6 == 2 * q7 + q6 % 2);
    assert(q7 == 0 || q7 == 1);
    assert(b / 1 == b);
}

/// Packing the bits of a byte sequence gives the byte sequence back.
pub proof fn lemma_pack_of_bits(bytes: Seq<u8>)
    ensures
        pack_msb0(msb0_bits(bytes)) == bytes,
{
    let bits = msb0_bits(bytes);
    assert forall|at: int| 0 <= at < bytes.len() implies packed_byte(bits, at) == bytes[at] as int by {
        lemma_byte_is_sum_of_bits(bytes[at]);
        assert(bits[8 * at] == bit_of_byte(bytes[at], 0));
        assert(bits[8 * at + 1] == bit_of_byte(bytes[at], 1));
        assert(bits[8 * at + 2] == bit_of_byte(bytes[at], 2));
        assert(bits[8 * at + 3] == bit_of_byte(bytes[at], 3));
        assert(bits[8 * at + 4] == bit_of_byte(bytes[at], 4));
        assert(bits[8 * at + 5] == bit_of_byte(bytes[at], 5));
        assert(bits[8 * at + 6] == bit_of_byte(bytes[at], 6));
        assert(bits[8 * at + 7] == bit_of_byte(bytes[at], 7));
    }
    assert(pack_msb0(bits) =~= bytes);
}

/// In a byte put together from eight binary digits, most significant first,
/// the bit at each place is the digit put there.
pub proof fn lemma_places_of_digits(d0: int, d1: int, d2: int, d3: int, d4: int, d5: int, d6: int, d7: int)
    requires
        0 <= d0 <= 1,
        0 <= d1 <= 1,
        0 <= d2 <= 1,
        0 <= d3 <= 1,
        0 <= d4 <= 1,
        0 <= d5 <= 1,
        0 <= d6 <= 1,
        0 <= d7 <= 1,
    ensures
        ({
            let byte = 128 * d0 + 64 * d1 + 32 * d2 + 16 * d3 + 8 * d4 + 4 * d5 + 2 * d6 + d7;
            &&& 0 <= byte < 256
            &&& (byte / 128) % 2 == d0
            &&& (byte / 64) % 2 == d1
            &&& (byte / 32) % 2 == d2
            &&& (byte / 16) % 2 == d3
            &&& (byte / 8) % 2 == d4
            &&& (byte / 4) % 2 == d5
            &&& (byte / 2) % 2 == d6
            &&& (byte / 1) % 2 == d7
        }),
{
    let byte = 128 * d0 + 64 * d1 + 32 * d2 + 16 * d3 + 8 * d4 + 4 * d5 + 2 * d6 + d7;
    let q0 = d0;
    let q1 = 2 * q0 + d1;
    let q2 = 2 * q1 + d2;
    let q3 = 2 * q2 + d3;
    let q4 = 2 * q3 + d4;
    let q5 = 2 * q4 + d5;
    let q6 = 2 * q5 + d6;
    let q7 = 2 * q6 + d7;
    lemma_fundamental_div_mod_converse(byte, 128, q0, byte - 128 * q0);
    lemma_fundamental_div_mod_converse(byte, 64, q1, byte - 64 * q1);
    lemma_fundamental_div_mod_converse(byte, 32, q2, byte - 32 * q2);
    lemma_fundamental_div_mod_converse(byte, 16, q3, byte - 16 * q3);
    lemma_fundamental_div_mod_converse(byte, 8, q4, byte - 8 * q4);
    lemma_fundamental_div_mod_converse(byte, 4, q5, byte - 4 * q5);
    lemma_fundamental_div_mod_converse(byte, 2, q6, byte - 2 * q6);
    lemma_fundamental_div_mod_converse(byte, 1, q7, 0);
    lemma_fundamental_div_mod_converse(q0, 2, 0, d0);
    lemma_fundamental_div_mod_converse(q1, 2, q0, d1);
    lemma_fundamental_div_mod_converse(q2, 2, q1, d2);
    lemma_fundamental_div_mod_converse(q3, 2, q2, d3);
    lemma_fundamental_div_mod_converse(q4, 2, q3, d4);
    lemma_fundamental_div_mod_converse(q5, 2, q4, d5);
    lemma_fundamental_div_mod_converse(q6, 2, q5, d6);
    lemma_fundamental_div_mod_converse(q7, 2, q6, d7);
}

/// The binary digit that the bit at `index` of `bits` stands for: 1 where
/// it is set, 0 where it is clear or `index` lies past the end.
pub open spec fn bit_digit(bits: Seq<bool>, index: int) -> int {
    if 0 <= index < bits.len() && bits[index] {
        1
    } else {
        0
    }
}

/// Packing keeps every bit in its place: bit `index` of `bits` is the bit at
/// place `index % 8` of byte `index / 8` of the packing, and the places of
/// the last byte that lie past the end of `bits` are clear.
pub proof fn lemma_bits_of_pack(bits: Seq<bool>, index: int)
    requires
        0 <= index < 8 * pack_msb0(bits).len(),
    ensures
        msb0_bits(pack_msb0(bits))[index] == (index < bits.len() && bits[index]),
{
    let at = index / 8;
    let first = 8 * at;
    let d0 = bit_digit(bits, first);
    let d1 = bit_digit(bits, first + 1);
    let d2 = bit_digit(bits, first + 2);
    let d3 = bit_digit(bits, first + 3);
    let d4 = bit_digit(bits, first + 4);
    let d5 = bit_digit(bits, first + 5);
    let d6 = bit_digit(bits, first + 6);
    let d7 = bit_digit(bits, first + 7);
    lemma_places_of_digits(d0, d1, d2, d3, d4, d5, d6, d7);
    assert(bit_share(bits, first) == 128 * d0);
    assert(bit_share(bits, first + 1) == 64 * d1);
    assert(bit_share(bits, first + 2) == 32 * d2);
    assert(bit_share(bits, first + 3) == 16 * d3);
    assert(bit_share(bits, first + 4) == 8 * d4);
    assert(bit_share(bits, first + 5) == 4 * d5);
    assert(bit_share(bits, first + 6) == 2 * d6);
    assert(bit_share(bits, first + 7) == d7);
    let byte = packed_byte(bits, at);
    assert(byte == 128 * d0 + 64 * d1 + 32 * d2 + 16 * d3 + 8 * d4 + 4 * d5 + 2 * d6 + d7);
    assert(pack_msb0(bits)[at] == byte as u8);
    assert(byte as u8 as int == byte);
}

/// The packing of `bits`, read as bits again, begins with `bits`.
pub proof fn lemma_pack_keeps_bits(bits: Seq<bool>)
    ensures
        msb0_bits(pack_msb0(bits)).len() >= bits.len(),
        msb0_bits(pack_msb0(bits)).take(bits.len() as int) == bits,
{
    let unpacked = msb0_bits(pack_msb0(bits));
    assert forall|i: int| 0 <= i < bits.len() implies unpacked[i] == bits[i] by {
        lemma_bits_of_pack(bits, i);
    }
    assert(unpacked.take(bits.len() as int) =~= bits);
}

} // verus!
