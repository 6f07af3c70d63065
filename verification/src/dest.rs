//! Extraction: one bit per window, decided from the first sample of the
//! window in the container that carries the message and in the unmodified one.

use crate::bits::{
    bit_contents, bit_of_byte, lemma_bits_of_pack, lemma_pack_of_bits, max_bits, msb0_bits,
    pack_msb0, BitBuffer,
};
use crate::st::{chip_at, embedded, lemma_sample_position, message_bit, modulated_len};
use crate::utils::DecryptData;
use vstd::prelude::*;

verus! {

/// The bit decided for a window: 1 where the residual of its first sample
/// and the key's first element are both positive or both negative, else 0.
pub open spec fn decided_bit(residual_sign: int, key_first: int) -> bool {
    (residual_sign > 0 && key_first > 0) || (residual_sign < 0 && key_first < 0)
}

/// The bits decided for a run of windows, from the sign of each window's
/// residual.
pub open spec fn decided_bits(signs: Seq<i8>, key_first: int) -> Seq<bool> {
    Seq::new(signs.len(), |i: int| decided_bit(signs[i] as int, key_first))
}

/// The message recovered from the signs of the windows' residuals: the
/// decided bits, packed eight to a byte, most significant bit first.
pub open spec fn recovered_message(signs: Seq<i8>, key_first: int) -> Seq<u8> {
    pack_msb0(decided_bits(signs, key_first))
}

/// The key's first element, the only one that extraction consults; 0 for an
/// empty key.
pub open spec fn key_first(key: Seq<i16>) -> int {
    if key.len() > 0 {
        key[0] as int
    } else {
        0
    }
}

/// Whether `signs` is what `residual_sign` returned for the first samples of
/// the first `signs.len()` windows of `samples_per_bit` samples each.
pub open spec fn signs_read<A, F: Fn(A, A) -> i8>(
    residual_sign: F,
    stego: Seq<A>,
    plain: Seq<A>,
    samples_per_bit: int,
    signs: Seq<i8>,
) -> bool {
    forall|i: int|
        0 <= i < signs.len() ==> residual_sign.ensures(
            (stego[i * samples_per_bit], plain[i * samples_per_bit]),
            #[trigger] signs[i],
        )
}

/// -1, 0 or +1, as `value` is negative, zero or positive.
pub open spec fn sign_of(value: int) -> int {
    if value > 0 {
        1
    } else if value < 0 {
        -1
    } else {
        0
    }
}

/// Whether the residual of every window has the sign of the chip that
/// modulated the window's first sample.
pub open spec fn signs_follow_chips(
    signs: Seq<i8>,
    message: Seq<u8>,
    key: Seq<i16>,
    samples_per_bit: int,
) -> bool {
    forall|i: int|
        0 <= i < signs.len() ==> sign_of(#[trigger] signs[i] as int) == sign_of(
            chip_at(message, key, samples_per_bit, i * samples_per_bit),
        )
}

/// A message of all-zero bytes, `len` of them.
pub open spec fn zero_bytes(len: nat) -> Seq<u8> {
    Seq::new(len, |at: int| 0u8)
}

/// Extraction undoes embedding, bit by bit: where every window's residual
/// has the sign of the chip that modulated its first sample, and the key's
/// first element is not 0, the bit decided for a window is the message bit
/// the window carried, and 1 for a window past the end of the message.
pub proof fn lemma_round_trip_bits(
    message: Seq<u8>,
    key: Seq<i16>,
    samples_per_bit: int,
    signs: Seq<i8>,
)
    requires
        1 <= samples_per_bit <= key.len(),
        key[0] != 0,
        signs_follow_chips(signs, message, key, samples_per_bit),
    ensures
        forall|i: int|
            0 <= i < signs.len() ==> #[trigger] decided_bits(signs, key_first(key))[i] == (
            message_bit(message, i) != Some(false)),
{
    assert forall|i: int| 0 <= i < signs.len() implies #[trigger] decided_bits(
        signs,
        key_first(key),
    )[i] == (message_bit(message, i) != Some(false)) by {
        lemma_sample_position(samples_per_bit, signs.len() as int, i, 0);
        assert(sign_of(signs[i] as int) == sign_of(
            chip_at(message, key, samples_per_bit, i * samples_per_bit),
        ));
    }
}

/// Extraction undoes embedding: with eight windows per message byte, and
/// under the conditions of `lemma_round_trip_bits`, the recovered message is
/// the embedded one.
pub proof fn lemma_round_trip(
    message: Seq<u8>,
    key: Seq<i16>,
    samples_per_bit: int,
    signs: Seq<i8>,
)
    requires
        1 <= samples_per_bit <= key.len(),
        key[0] != 0,
        signs.len() == 8 * message.len(),
        signs_follow_chips(signs, message, key, samples_per_bit),
    ensures
        recovered_message(signs, key_first(key)) == message,
{
    lemma_round_trip_bits(message, key, samples_per_bit, signs);
    assert(decided_bits(signs, key_first(key)) =~= msb0_bits(message));
    lemma_pack_of_bits(message);
}

/// Extraction undoes embedding, over the contracts of `st` and `dest`.
///
/// Let the arithmetic be faithful to signs: whatever `modulate` makes of an
/// amplitude and a chip, `residual_sign` finds between it and the amplitude
/// the sign of the chip. Let `stego` be `container` with `message` embedded
/// at eight windows per byte, under a key whose first element is not 0, and
/// let `signs` be what `residual_sign` returned for the windows. Then the
/// recovered message is `message`.
pub proof fn lemma_extraction_inverts_embedding<A, M: Fn(A, i32) -> A, R: Fn(A, A) -> i8>(
    modulate: M,
    residual_sign: R,
    container: Seq<A>,
    message: Seq<u8>,
    key: Seq<i16>,
    samples_per_bit: int,
    m: int,
    stego: Seq<A>,
    signs: Seq<i8>,
)
    requires
        forall|amplitude: A, chip: i32, moved: A, sign: i8|
            modulate.ensures((amplitude, chip), moved) && residual_sign.ensures(
                (moved, amplitude),
                sign,
            ) ==> sign_of(sign as int) == sign_of(chip as int),
        1 <= samples_per_bit <= key.len(),
        key[0] != 0,
        m == message.len(),
        modulated_len(samples_per_bit, 8, m) <= container.len(),
        embedded(modulate, container, message, key, samples_per_bit, 8, m, stego),
        signs.len() == 8 * m,
        signs_read(residual_sign, stego, container, samples_per_bit, signs),
    ensures
        recovered_message(signs, key_first(key)) == message,
{
    assert forall|i: int| 0 <= i < signs.len() implies sign_of(#[trigger] signs[i] as int)
        == sign_of(chip_at(message, key, samples_per_bit, i * samples_per_bit)) by {
        let j = i * samples_per_bit;
        lemma_sample_position(samples_per_bit, 8 * m, i, 0);
        assert(8 * m * samples_per_bit == modulated_len(samples_per_bit, 8, m));
        let chip = chip_at(message, key, samples_per_bit, j);
        assert(chip == key[0] || chip == -key[0]);
        assert(modulate.ensures((container[j], chip as i32), stego[j]));
        assert(residual_sign.ensures((stego[j], container[j]), signs[i]));
    }
    lemma_round_trip(message, key, samples_per_bit, signs);
}

/// The bit decided for window `window` stands in byte `window / 8` of the
/// recovered message, at place `window % 8` counted from the most
/// significant bit.
pub proof fn lemma_recovered_bit(signs: Seq<i8>, key_first: int, window: int)
    requires
        0 <= window < signs.len(),
    ensures
        0 <= window / 8 < recovered_message(signs, key_first).len(),
        bit_of_byte(recovered_message(signs, key_first)[window / 8], window % 8) == decided_bit(
            signs[window] as int,
            key_first,
        ),
{
    lemma_bits_of_pack(decided_bits(signs, key_first), window);
}

/// Residuals that are all zero give a message of all-zero bytes, whatever
/// the key.
pub proof fn lemma_null_perturbation(signs: Seq<i8>, key_first: int)
    requires
        forall|i: int| 0 <= i < signs.len() ==> signs[i] == 0,
    ensures
        recovered_message(signs, key_first) == zero_bytes(((signs.len() + 7) / 8) as nat),
{
    assert(recovered_message(signs, key_first) =~= zero_bytes(((signs.len() + 7) / 8) as nat));
}

/// Decides one window's bit.
pub fn decide(residual_sign: i8, key_first: i16) -> (bit: bool)
    ensures
        bit == decided_bit(residual_sign as int, key_first as int),
{
    (residual_sign > 0 && key_first > 0) || (residual_sign < 0 && key_first < 0)
}

/// Recovers the message from the signs of the windows' residuals, one sign
/// per window: negative, zero or positive.
pub fn recover(signs: &[i8], key_first: i16) -> (message: Vec<u8>)
    requires
        signs@.len() <= max_bits(),
    ensures
        message@ == recovered_message(signs@, key_first as int),
        message@.len() == (signs@.len() + 7) / 8,
{
    let mut bits = BitBuffer::new();
    let mut i: usize = 0;
    while i < signs.len()
        invariant
            i <= signs@.len() <= max_bits(),
            bit_contents(bits) == decided_bits(signs@.take(i as int), key_first as int),
        decreases signs@.len() - i,
    {
        let bit: bool = decide(signs[i], key_first);
        bits.push(bit);
        i = i + 1;
        assert(bit_contents(bits) =~= decided_bits(signs@.take(i as int), key_first as int));
    }
    assert(signs@.take(i as int) =~= signs@);
    bits.into_vec()
}

/// Extracts the message of `n * m` bits that `data.stegocontainer` carries.
///
/// Window `i` begins at sample `i * samples_per_msg_bit`. For each window,
/// `residual_sign` is given that sample of the stego container and of the
/// unmodified one, in this order, and the window's bit is decided from the sign it
/// returns and from the key's first element. The bits are packed eight to a
/// byte, most significant bit first.
///
/// `residual_sign(s, o)` is the arithmetic on one pair of amplitudes: the
/// sign, negative, zero or positive, of `(s - o) / (o + AMPLITUDE_OFFSET)`.
pub fn dest<A: Copy, F: Fn(A, A) -> i8>(
    data: &DecryptData<A>,
    samples_per_msg_bit: usize,
    n: usize,
    m: usize,
    residual_sign: F,
) -> (message: Vec<u8>)
    requires
        n * m <= max_bits(),
        n * m * samples_per_msg_bit <= data.stegocontainer.amplitudes@.len(),
        n * m * samples_per_msg_bit <= data.container.amplitudes@.len(),
        n * m > 0 ==> samples_per_msg_bit >= 1 && data.key@.len() >= 1,
        forall|i: int|
            0 <= i < n * m ==> residual_sign.requires(
                (
                    #[trigger] data.stegocontainer.amplitudes@[i * samples_per_msg_bit],
                    data.container.amplitudes@[i * samples_per_msg_bit],
                ),
            ),
    ensures
        message@.len() == (n * m + 7) / 8,
        exists|signs: Seq<i8>|
            {
                &&& signs.len() == n * m
                &&& signs_read(
                    residual_sign,
                    data.stegocontainer.amplitudes@,
                    data.container.amplitudes@,
                    samples_per_msg_bit as int,
                    signs,
                )
                &&& message@ == recovered_message(signs, key_first(data.key@))
            },
        data.stegocontainer.amplitudes@ == data.container.amplitudes@ && (forall|
            amplitude: A,
            sign: i8,
        | #[trigger]
            residual_sign.ensures((amplitude, amplitude), sign) ==> sign == 0) ==> message@
            == zero_bytes(message@.len()),
{
    let stego = &data.stegocontainer.amplitudes;
    let plain = &data.container.amplitudes;
    let ghost spb: int = samples_per_msg_bit as int;
    let mut signs: Vec<i8> = Vec::new();
    if n == 0 || m == 0 {
        assert(n * m == 0) by (nonlinear_arith)
            requires
                n == 0 || m == 0,
        ;
        let message = recover(signs.as_slice(), 0);
        assert(signs_read(residual_sign, stego@, plain@, spb, signs@));
        assert(message@ =~= recovered_message(signs@, key_first(data.key@)));
        assert(message@ =~= zero_bytes(message@.len()));
        return message;
    }
    assert(n * m > 0) by (nonlinear_arith)
        requires
            n > 0,
            m > 0,
    ;
    assert(n * m <= n * m * spb) by (nonlinear_arith)
        requires
            spb >= 1,
            n * m >= 0,
    ;
    let windows: usize = n * m;
    let len: usize = stego.len();
    let mut i: usize = 0;
    while i < windows
        invariant
            spb == samples_per_msg_bit as int,
            spb >= 1,
            len == stego@.len(),
            stego == &data.stegocontainer.amplitudes,
            plain == &data.container.amplitudes,
            windows * spb <= stego@.len(),
            windows * spb <= plain@.len(),
            i <= windows,
            signs@.len() == i,
            signs_read(residual_sign, stego@, plain@, spb, signs@),
            forall|w: int|
                0 <= w < windows ==> residual_sign.requires(
                    (#[trigger] stego@[w * spb], plain@[w * spb]),
                ),
        decreases windows - i,
    {
        assert(0 <= i * spb < windows * spb) by (nonlinear_arith)
            requires
                0 <= i < windows,
                spb >= 1,
        ;
        let start: usize = i * samples_per_msg_bit;
        let sign: i8 = residual_sign(stego[start], plain[start]);
        signs.push(sign);
        i = i + 1;
    }
    let message = recover(signs.as_slice(), data.key[0]);
    proof {
        if stego@ == plain@ && (forall|amplitude: A, sign: i8| #[trigger]
            residual_sign.ensures((amplitude, amplitude), sign) ==> sign == 0) {
            assert forall|w: int| 0 <= w < signs@.len() implies signs@[w] == 0 by {
                assert(residual_sign.ensures((stego@[w * spb], plain@[w * spb]), signs@[w]));
            }
            lemma_null_perturbation(signs@, key_first(data.key@));
        }
    }
    message
}

} // verus!
