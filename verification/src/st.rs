//! Embedding: the samples of each window are modulated by the key, with the
//! sign of the message bit that the window carries.

use crate::bits::{bit_contents, max_bits, msb0_bits, BitBuffer};
use crate::utils::EncryptData;
use vstd::arithmetic::div_mod::lemma_fundamental_div_mod_converse;
use vstd::prelude::*;

verus! {

/// Numerator of the modulation depth, the fraction of `amplitude +
/// AMPLITUDE_OFFSET` by which one chip moves a sample.
pub const DEPTH_NUMERATOR: i32 = 5;

/// Denominator of the modulation depth.
pub const DEPTH_DENOMINATOR: i32 = 10_000;

/// What is added to an amplitude before it is scaled by the depth. With
/// amplitudes in [-1, 1] the sum is positive, so a chip moves a sample in
/// the chip's own direction.
pub const AMPLITUDE_OFFSET: i32 = 2;

/// The message bit that window `window` carries: the bits of the message
/// bytes in order, most significant bit of each byte first, and nothing from
/// the end of the message on.
pub open spec fn message_bit(message: Seq<u8>, window: int) -> Option<bool> {
    if 0 <= window < msb0_bits(message).len() {
        Some(msb0_bits(message)[window])
    } else {
        None
    }
}

/// The sign a window is modulated with: -1 where its bit is 0, and +1 where
/// its bit is 1 or the message has no bit left for it.
pub open spec fn window_sign(message: Seq<u8>, window: int) -> int {
    if message_bit(message, window) == Some(false) {
        -1
    } else {
        1
    }
}

/// The chip that modulates the sample at `offset` of window `window`: the
/// key's element for the offset, with the window's sign.
pub open spec fn chip_in_window(message: Seq<u8>, key: Seq<i16>, window: int, offset: int) -> int {
    window_sign(message, window) * key[offset]
}

/// The chip that modulates sample `sample` of a container cut into windows of
/// `samples_per_bit` samples.
pub open spec fn chip_at(message: Seq<u8>, key: Seq<i16>, samples_per_bit: int, sample: int) -> int {
    chip_in_window(message, key, sample / samples_per_bit, sample % samples_per_bit)
}

/// Number of samples that an embedding modulates: `n * m` windows of
/// `samples_per_bit` samples, from the first sample on.
pub open spec fn modulated_len(samples_per_bit: int, n: int, m: int) -> int {
    n * m * samples_per_bit
}

/// Whether `stego` is `container` with `message` embedded: of the same
/// length, every modulated sample what `modulate` made of the container's
/// sample and its chip, every other sample the container's.
pub open spec fn embedded<A, F: Fn(A, i32) -> A>(
    modulate: F,
    container: Seq<A>,
    message: Seq<u8>,
    key: Seq<i16>,
    samples_per_bit: int,
    n: int,
    m: int,
    stego: Seq<A>,
) -> bool {
    &&& stego.len() == container.len()
    &&& forall|j: int|
        0 <= j < modulated_len(samples_per_bit, n, m) ==> modulate.ensures(
            (container[j], chip_at(message, key, samples_per_bit, j) as i32),
            #[trigger] stego[j],
        )
    &&& forall|j: int|
        modulated_len(samples_per_bit, n, m) <= j < stego.len() ==> #[trigger] stego[j]
            == container[j]
}

/// A sample lies in the window and at the offset that division by the window
/// length gives.
pub proof fn lemma_sample_position(samples_per_bit: int, windows: int, window: int, offset: int)
    requires
        0 <= window < windows,
        0 <= offset < samples_per_bit,
    ensures
        0 <= window * samples_per_bit + offset < windows * samples_per_bit,
        (window * samples_per_bit + offset) / samples_per_bit == window,
        (window * samples_per_bit + offset) % samples_per_bit == offset,
{
    lemma_fundamental_div_mod_converse(
        window * samples_per_bit + offset,
        samples_per_bit,
        window,
        offset,
    );
    assert(window * samples_per_bit + offset < windows * samples_per_bit) by (nonlinear_arith)
        requires
            0 <= window < windows,
            0 <= offset < samples_per_bit,
    ;
    assert(0 <= window * samples_per_bit) by (nonlinear_arith)
        requires
            0 <= window,
            0 < samples_per_bit,
    ;
}

/// Embeds `data.message` in `data.container.amplitudes`.
///
/// The first `n * m * samples_per_msg_bit` samples are cut into `n * m`
/// windows. Sample `j` of them is replaced by what `modulate` makes of it and
/// of its chip, `chip_at(.., j)`; the samples after them are kept. The result
/// has the container's length, and with `m == 0` it is the container.
///
/// A window holds at least one sample: where there are windows to fill and
/// none would, nothing can be embedded, and the caller has to fail with
/// `InsufficientCapacity` before it comes here, as `encrypt` does.
///
/// `modulate(a, c)` is the arithmetic on one amplitude: with the depth `d`
/// of `DEPTH_NUMERATOR / DEPTH_DENOMINATOR` it computes
/// `a + (c * d) * (a + AMPLITUDE_OFFSET)`.
pub fn st<A: Copy, F: Fn(A, i32) -> A>(
    data: &EncryptData<A>,
    samples_per_msg_bit: usize,
    n: usize,
    m: usize,
    psp: Vec<i16>,
    modulate: F,
) -> (result: Vec<A>)
    requires
        8 * data.message@.len() <= max_bits(),
        modulated_len(samples_per_msg_bit as int, n as int, m as int)
            <= data.container.amplitudes@.len(),
        n * m > 0 ==> 1 <= samples_per_msg_bit <= psp@.len(),
        forall|j: int|
            0 <= j < modulated_len(samples_per_msg_bit as int, n as int, m as int)
                ==> modulate.requires(
                (
                    #[trigger] data.container.amplitudes@[j],
                    chip_at(data.message@, psp@, samples_per_msg_bit as int, j) as i32,
                ),
            ),
    ensures
        embedded(
            modulate,
            data.container.amplitudes@,
            data.message@,
            psp@,
            samples_per_msg_bit as int,
            n as int,
            m as int,
            result@,
        ),
        result@.len() == data.container.amplitudes@.len(),
        m == 0 ==> result@ == data.container.amplitudes@,
{
    let amplitudes = &data.container.amplitudes;
    let len: usize = amplitudes.len();
    let ghost message = data.message@;
    let ghost key = psp@;
    let ghost spb: int = samples_per_msg_bit as int;
    let mut result: Vec<A> = Vec::new();
    let mut touched: usize = 0;
    if samples_per_msg_bit > 0 {
        assert(n * m <= n * m * spb) by (nonlinear_arith)
            requires
                spb >= 1,
                n * m >= 0,
        ;
        let windows: usize = n * m;
        let msg_bits = BitBuffer::from_slice(data.message.as_slice());
        let mut i: usize = 0;
        while i < windows
            invariant
                spb == samples_per_msg_bit as int,
                spb > 0,
                message == data.message@,
                key == psp@,
                len == amplitudes@.len(),
                amplitudes == &data.container.amplitudes,
                windows == n * m,
                windows * spb <= len,
                windows > 0 ==> spb <= psp@.len(),
                i <= windows,
                touched == i * spb,
                result@.len() == touched,
                bit_contents(msg_bits) == msb0_bits(message),
                forall|j: int|
                    0 <= j < windows * spb ==> modulate.requires(
                        (#[trigger] amplitudes@[j], chip_at(message, key, spb, j) as i32),
                    ),
                forall|j: int|
                    0 <= j < touched ==> modulate.ensures(
                        (amplitudes@[j], chip_at(message, key, spb, j) as i32),
                        #[trigger] result@[j],
                    ),
            decreases windows - i,
        {
            let negative: bool = match msg_bits.get(i) {
                Some(bit) => !bit,
                None => false,
            };
            assert(negative == (window_sign(message, i as int) == -1));
            let mut k: usize = 0;
            while k < samples_per_msg_bit
                invariant
                    spb == samples_per_msg_bit as int,
                    spb > 0,
                    key == psp@,
                    len == amplitudes@.len(),
                    windows * spb <= len,
                    spb <= psp@.len(),
                    i < windows,
                    k <= samples_per_msg_bit,
                    touched == i * spb + k,
                    result@.len() == touched,
                    negative == (window_sign(message, i as int) == -1),
                    forall|j: int|
                        0 <= j < windows * spb ==> modulate.requires(
                            (#[trigger] amplitudes@[j], chip_at(message, key, spb, j) as i32),
                        ),
                    forall|j: int|
                        0 <= j < touched ==> modulate.ensures(
                            (amplitudes@[j], chip_at(message, key, spb, j) as i32),
                            #[trigger] result@[j],
                        ),
                decreases samples_per_msg_bit - k,
            {
                proof {
                    lemma_sample_position(spb, windows as int, i as int, k as int);
                }
                let element: i32 = psp[k] as i32;
                let chip: i32 = if negative {
                    -element
                } else {
                    element
                };
                assert(chip == chip_at(message, key, spb, touched as int));
                let amplitude: A = amplitudes[touched];
                let modulated: A = modulate(amplitude, chip);
                result.push(modulated);
                touched = touched + 1;
                k = k + 1;
            }
            i = i + 1;
            assert(touched == i * spb) by (nonlinear_arith)
                requires
                    touched == (i - 1) * spb + spb,
            ;
        }
        assert(touched == modulated_len(spb, n as int, m as int));
    } else {
        assert(modulated_len(spb, n as int, m as int) == 0) by (nonlinear_arith)
            requires
                spb == 0,
                modulated_len(spb, n as int, m as int) == n * m * spb,
        ;
    }
    let ghost modulated: int = touched as int;
    while touched < len
        invariant
            len == amplitudes@.len(),
            0 <= modulated <= touched <= len,
            result@.len() == touched,
            forall|j: int|
                0 <= j < modulated ==> modulate.ensures(
                    (amplitudes@[j], chip_at(message, key, spb, j) as i32),
                    #[trigger] result@[j],
                ),
            forall|j: int| modulated <= j < touched ==> #[trigger] result@[j] == amplitudes@[j],
        decreases len - touched,
    {
        result.push(amplitudes[touched]);
        touched = touched + 1;
    }
    proof {
        if m == 0 {
            assert(modulated_len(spb, n as int, m as int) == 0) by (nonlinear_arith)
                requires
                    m == 0,
                    modulated_len(spb, n as int, m as int) == n * m * spb,
            ;
            assert(result@ =~= amplitudes@);
        }
    }
    result
}

} // verus!
