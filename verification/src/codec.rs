//! The two directions of a run: embedding a message with a fresh key, and
//! extracting one with the parameters of its embedding.

use crate::bits::max_bits;
use crate::dest::{dest, key_first, recovered_message, signs_read};
use crate::park_miller_prng::{key_from, state_after, ParkMiller};
use crate::st::{embedded, modulated_len, st};
use crate::utils::{
    bits_per_char, count_bits_per_char, samples_per_bit, window_len, DecryptData, EncryptData,
    StegoError,
};
use vstd::arithmetic::div_mod::lemma_fundamental_div_mod;
use vstd::prelude::*;
use vstd::utf8::{decode_utf8, valid_utf8};

verus! {

/// The result of an embedding: the samples that carry the message, and what
/// an extraction needs to know besides them.
pub struct Embedding<A> {
    pub amplitudes: Vec<A>,
    pub key: Vec<i16>,
    pub bits_per_char: usize,
    pub message_len: usize,
    pub samples_per_msg_bit: usize,
}

/// Bits per character of a message given as UTF-8 bytes.
pub open spec fn message_bits_per_char(message: Seq<u8>) -> int {
    bits_per_char(decode_utf8(message))
}

/// Samples per window for a message in a container of `samples_num` samples.
pub open spec fn message_window_len(message: Seq<u8>, samples_num: int) -> int {
    window_len(samples_num, message_bits_per_char(message) * message.len())
}

/// Why a message cannot be embedded in a container, if it cannot.
///
/// The message must be UTF-8. The container must have a sample for every
/// window, by its `samples_num`. And its amplitudes must reach as far as the
/// windows do, the message being no longer than a bit sequence can index.
pub open spec fn embedding_error(
    message: Seq<u8>,
    samples_num: int,
    amplitudes: int,
) -> Option<StegoError> {
    let n = message_bits_per_char(message);
    let m = message.len() as int;
    let samples_per_bit = message_window_len(message, samples_num);
    if !valid_utf8(message) {
        Some(StegoError::InvalidMessageEncoding)
    } else if samples_per_bit == 0 {
        Some(StegoError::InsufficientCapacity)
    } else if 8 * m > max_bits() || modulated_len(samples_per_bit, n, m) > amplitudes {
        Some(StegoError::PreconditionViolation)
    } else {
        None
    }
}

/// Whether a message of `n * m` bits cannot be extracted: the two sample
/// sequences differ in length; or there are windows to read and the key is
/// empty, or there are more windows than a bit sequence can index, or the
/// container has fewer samples than windows, or its amplitudes end before
/// the windows do.
pub open spec fn extraction_fails(
    stego: int,
    plain: int,
    samples_num: int,
    key: int,
    n: int,
    m: int,
) -> bool {
    ||| stego != plain
    ||| n * m > 0 && (key == 0 || n * m > max_bits() || window_len(samples_num, n * m) == 0 || n
        * m * window_len(samples_num, n * m) > plain)
}

/// Windows of the length that `window_len` gives fit in the samples they
/// were cut from, and there are no more of them than samples.
pub proof fn lemma_windows_fit(samples: int, windows: int)
    requires
        0 <= samples,
        0 < windows,
    ensures
        0 <= windows * window_len(samples, windows) <= samples,
        window_len(samples, windows) >= 1 ==> windows <= samples,
{
    lemma_fundamental_div_mod(samples, windows);
    let quotient = samples / windows;
    assert(quotient >= 0) by (nonlinear_arith)
        requires
            samples >= 0,
            windows > 0,
            quotient == samples / windows,
    ;
    assert(windows * quotient >= 0) by (nonlinear_arith)
        requires
            quotient >= 0,
            windows > 0,
    ;
    if quotient >= 1 {
        assert(windows * quotient >= windows) by (nonlinear_arith)
            requires
                quotient >= 1,
                windows > 0,
        ;
    }
}

/// Embeds `data.message` in `data.container` with a key drawn from
/// `generator`.
///
/// The bits per character `n` are counted from the message, `m` is its
/// length in bytes, and each of the `n * m` windows gets `samples_num`
/// divided by `n * m` samples. The key is as long as a window. On an error
/// nothing has been drawn from the generator.
pub fn encrypt<A: Copy, F: Fn(A, i32) -> A>(
    data: &EncryptData<A>,
    generator: &mut ParkMiller,
    modulate: F,
) -> (result: Result<Embedding<A>, StegoError>)
    requires
        forall|amplitude: A, chip: i32| modulate.requires((amplitude, chip)),
    ensures
        match result {
            Ok(embedding) => {
                &&& embedding_error(
                    data.message@,
                    data.container.samples_num as int,
                    data.container.amplitudes@.len() as int,
                ) is None
                &&& embedding.bits_per_char == message_bits_per_char(data.message@)
                &&& embedding.message_len == data.message@.len()
                &&& embedding.samples_per_msg_bit == message_window_len(
                    data.message@,
                    data.container.samples_num as int,
                )
                &&& embedding.key@ == key_from(
                    old(generator).state(),
                    embedding.samples_per_msg_bit as nat,
                )
                &&& final(generator).state() == state_after(
                    old(generator).state(),
                    embedding.samples_per_msg_bit as nat,
                )
                &&& embedded(
                    modulate,
                    data.container.amplitudes@,
                    data.message@,
                    embedding.key@,
                    embedding.samples_per_msg_bit as int,
                    embedding.bits_per_char as int,
                    embedding.message_len as int,
                    embedding.amplitudes@,
                )
            },
            Err(error) => {
                &&& embedding_error(
                    data.message@,
                    data.container.samples_num as int,
                    data.container.amplitudes@.len() as int,
                ) == Some(error)
                &&& final(generator).state() == old(generator).state()
            },
        },
{
    let n: usize = match count_bits_per_char(data.message.as_slice()) {
        Ok(bits) => bits,
        Err(_) => {
            return Err(StegoError::InvalidMessageEncoding);
        },
    };
    let m: usize = data.message.len();
    let samples_per_msg_bit: usize = match samples_per_bit(data.container.samples_num, n, m) {
        Ok(samples) => samples,
        Err(_) => {
            return Err(StegoError::InsufficientCapacity);
        },
    };
    if m > usize::MAX / 64 {
        return Err(StegoError::PreconditionViolation);
    }
    let ghost spb: int = samples_per_msg_bit as int;
    if n > 0 && m > 0 {
        assert(n * m > 0) by (nonlinear_arith)
            requires
                n > 0,
                m > 0,
        ;
        proof {
            lemma_windows_fit(data.container.samples_num as int, n * m);
            assert(n * m * spb == modulated_len(spb, n as int, m as int));
        }
        let windows: usize = n * m;
        let modulated: usize = windows * samples_per_msg_bit;
        if modulated > data.container.amplitudes.len() {
            return Err(StegoError::PreconditionViolation);
        }
    } else {
        assert(modulated_len(spb, n as int, m as int) == 0) by (nonlinear_arith)
            requires
                n == 0 || m == 0,
                modulated_len(spb, n as int, m as int) == n * m * spb,
        ;
    }
    let key: Vec<i16> = generator.generate_prs(samples_per_msg_bit);
    let amplitudes: Vec<A> = st(data, samples_per_msg_bit, n, m, key.clone(), modulate);
    Ok(Embedding { amplitudes, key, bits_per_char: n, message_len: m, samples_per_msg_bit })
}

/// Extracts the message of `bits_per_char * message_len` bits from
/// `data.stegocontainer`, the window length being what an embedding of such
/// a message in `data.container` used.
pub fn decrypt<A: Copy, F: Fn(A, A) -> i8>(
    data: &DecryptData<A>,
    bits_per_char: usize,
    message_len: usize,
    residual_sign: F,
) -> (result: Result<Vec<u8>, StegoError>)
    requires
        forall|stego: A, plain: A| residual_sign.requires((stego, plain)),
    ensures
        result is Err <==> extraction_fails(
            data.stegocontainer.amplitudes@.len() as int,
            data.container.amplitudes@.len() as int,
            data.container.samples_num as int,
            data.key@.len() as int,
            bits_per_char as int,
            message_len as int,
        ),
        result is Err ==> result->Err_0 == StegoError::PreconditionViolation,
        result is Ok ==> exists|signs: Seq<i8>|
            {
                &&& signs.len() == bits_per_char * message_len
                &&& signs_read(
                    residual_sign,
                    data.stegocontainer.amplitudes@,
                    data.container.amplitudes@,
                    window_len(data.container.samples_num as int, bits_per_char * message_len),
                    signs,
                )
                &&& result->Ok_0@ == recovered_message(signs, key_first(data.key@))
            },
{
    if data.stegocontainer.amplitudes.len() != data.container.amplitudes.len() {
        return Err(StegoError::PreconditionViolation);
    }
    if bits_per_char == 0 || message_len == 0 {
        assert(bits_per_char * message_len == 0) by (nonlinear_arith)
            requires
                bits_per_char == 0 || message_len == 0,
        ;
        let message: Vec<u8> = dest(data, 0, bits_per_char, message_len, residual_sign);
        proof {
            let signs = choose|signs: Seq<i8>|
                {
                    &&& signs.len() == bits_per_char * message_len
                    &&& signs_read(
                        residual_sign,
                        data.stegocontainer.amplitudes@,
                        data.container.amplitudes@,
                        0,
                        signs,
                    )
                    &&& message@ == recovered_message(signs, key_first(data.key@))
                };
            assert(signs_read(
                residual_sign,
                data.stegocontainer.amplitudes@,
                data.container.amplitudes@,
                window_len(data.container.samples_num as int, bits_per_char * message_len),
                signs,
            ));
        }
        return Ok(message);
    }
    assert(bits_per_char * message_len > 0) by (nonlinear_arith)
        requires
            bits_per_char > 0,
            message_len > 0,
    ;
    let samples_per_msg_bit: usize = match samples_per_bit(
        data.container.samples_num,
        bits_per_char,
        message_len,
    ) {
        Ok(samples) => samples,
        Err(_) => {
            return Err(StegoError::PreconditionViolation);
        },
    };
    proof {
        lemma_windows_fit(data.container.samples_num as int, bits_per_char * message_len);
    }
    let windows: usize = bits_per_char * message_len;
    let read: usize = windows * samples_per_msg_bit;
    if data.key.len() == 0 || windows > usize::MAX / 8 || read > data.container.amplitudes.len() {
        return Err(StegoError::PreconditionViolation);
    }
    Ok(dest(data, samples_per_msg_bit, bits_per_char, message_len, residual_sign))
}

} // verus!
