//! The data that an embedding or an extraction works on, the errors either
//! can end in, and the window size.

use vstd::prelude::*;
use vstd::string::StringSliceAdditionalSpecFns;
use vstd::utf8::{decode_utf8, encode_utf8_decode_utf8, valid_utf8};

verus! {

/// How an operation of the library can fail.
#[derive(Debug, Clone, Copy, PartialEq, Eq, Structural)]
pub enum StegoError {
    /// The message is not valid UTF-8.
    InvalidMessageEncoding,
    /// The container has fewer samples than the message needs windows.
    InsufficientCapacity,
    /// A token of a key text is not an integer.
    KeyParseError,
    /// The sample sequences are shorter than the windows to be read, or
    /// differ in length, or the key is empty.
    PreconditionViolation,
}

/// What an error says, in words.
pub open spec fn error_text(error: StegoError) -> Seq<char> {
    match error {
        StegoError::InvalidMessageEncoding => "the message is not valid UTF-8"@,
        StegoError::InsufficientCapacity => "the container has too few samples to hide the message"@,
        StegoError::KeyParseError => "the key holds a token that is not an integer"@,
        StegoError::PreconditionViolation => "the samples or the key do not fit the windows to be read"@,
    }
}

impl StegoError {
    /// The error in words.
    pub fn message(&self) -> (text: String)
        ensures
            text@ == error_text(*self),
    {
        match self {
            StegoError::InvalidMessageEncoding => "the message is not valid UTF-8".to_string(),
            StegoError::InsufficientCapacity => "the container has too few samples to hide the message".to_string(),
            StegoError::KeyParseError => "the key holds a token that is not an integer".to_string(),
            StegoError::PreconditionViolation => "the samples or the key do not fit the windows to be read".to_string(),
        }
    }
}

/// A decoded audio file: its samples, as amplitudes of type `A`, and the
/// format they were stored in.
#[derive(Debug)]
pub struct WavFile<A> {
    pub name: String,
    pub amplitudes: Vec<A>,
    pub bits_per_sample: u16,
    pub channels: u16,
    pub sample_rate: u32,
    pub samples_num: u32,
}

/// What an embedding starts from: the container and the message to hide.
#[derive(Debug)]
pub struct EncryptData<A> {
    pub container: WavFile<A>,
    pub message: Vec<u8>,
}

/// What an extraction starts from: the unmodified container, the container
/// that carries the message, and the key.
pub struct DecryptData<A> {
    pub container: WavFile<A>,
    pub stegocontainer: WavFile<A>,
    pub key: Vec<i16>,
}

/// The input of one run, by its direction.
pub enum ProcessResult<A> {
    Encrypt(EncryptData<A>),
    Decrypt(DecryptData<A>),
}

/// Number of bytes that a character takes in UTF-8.
pub open spec fn utf8_width(c: char) -> int {
    if (c as u32) < 0x80 {
        1
    } else if (c as u32) < 0x800 {
        2
    } else if (c as u32) < 0x1_0000 {
        3
    } else {
        4
    }
}

/// The largest `utf8_width` among the characters of a text; 0 for no text.
pub open spec fn widest_char(text: Seq<char>) -> int
    decreases text.len(),
{
    if text.len() == 0 {
        0
    } else if widest_char(text.drop_last()) >= utf8_width(text.last()) {
        widest_char(text.drop_last())
    } else {
        utf8_width(text.last())
    }
}

/// Bits per character of a message: eight times the UTF-8 width of its
/// widest character.
pub open spec fn bits_per_char(text: Seq<char>) -> int {
    8 * widest_char(text)
}

/// The width of a character in UTF-8, in bytes.
pub fn width_of(c: char) -> (width: usize)
    ensures
        width == utf8_width(c),
{
    let code: u32 = c as u32;
    if code < 0x80 {
        1
    } else if code < 0x800 {
        2
    } else if code < 0x1_0000 {
        3
    } else {
        4
    }
}

/// The bits per character of a message given as bytes: eight times the
/// UTF-8 width of its widest character, and 0 for an empty message. Fails
/// with `InvalidMessageEncoding` exactly where the bytes are not UTF-8.
pub fn count_bits_per_char(bytes: &[u8]) -> (result: Result<usize, StegoError>)
    ensures
        result is Err <==> !valid_utf8(bytes@),
        result is Err ==> result->Err_0 == StegoError::InvalidMessageEncoding,
        result is Ok ==> result->Ok_0 as int == bits_per_char(decode_utf8(bytes@)),
        result is Ok ==> result->Ok_0 <= 32,
{
    match core::str::from_utf8(bytes) {
        Ok(text) => {
            proof {
                encode_utf8_decode_utf8(text@);
            }
            let mut max_bits_per_char: usize = 0;
            for c in it: text.chars()
                invariant
                    it.seq() == text@,
                    max_bits_per_char == bits_per_char(it.seq().take(it.index() as int)),
                    max_bits_per_char <= 32,
            {
                let bits: usize = width_of(c) * 8;
                proof {
                    let before = it.seq().take(it.index() as int);
                    let after = it.seq().take(it.index() + 1);
                    assert(after.drop_last() =~= before);
                    assert(after.last() == c);
                }
                if bits > max_bits_per_char {
                    max_bits_per_char = bits;
                }
            }
            assert(text@.take(text@.len() as int) =~= text@);
            Ok(max_bits_per_char)
        },
        Err(_) => Err(StegoError::InvalidMessageEncoding),
    }
}

/// Samples per window: the samples shared out evenly among the windows,
/// rounded down. With no window at all, every sample falls to the one
/// window there could be.
pub open spec fn window_len(samples: int, windows: int) -> int {
    if windows <= 0 {
        samples
    } else {
        samples / windows
    }
}

/// The number of samples that each of `n * m` windows gets out of
/// `samples_num` samples, or `InsufficientCapacity` where that number is 0.
pub fn samples_per_bit(samples_num: u32, n: usize, m: usize) -> (result: Result<
    usize,
    StegoError,
>)
    ensures
        result is Err <==> window_len(samples_num as int, n * m) == 0,
        result is Err ==> result->Err_0 == StegoError::InsufficientCapacity,
        result is Ok ==> result->Ok_0 as int == window_len(samples_num as int, n * m),
{
    let total: u128 = samples_num as u128;
    assert(0 <= n * m <= 0xffff_ffff_ffff_ffff * 0xffff_ffff_ffff_ffff) by (nonlinear_arith)
        requires
            0 <= n <= 0xffff_ffff_ffff_ffff,
            0 <= m <= 0xffff_ffff_ffff_ffff,
    ;
    let windows: u128 = (n as u128) * (m as u128);
    let per_window: u128 = if windows == 0 {
        total
    } else {
        total / windows
    };
    if per_window == 0 {
        Err(StegoError::InsufficientCapacity)
    } else {
        Ok(per_window as usize)
    }
}

} // verus!
