use wav_stego::utils::{count_bits_per_char, samples_per_bit, width_of, StegoError};

#[test]
fn bits_per_char_of_ascii_is_eight() {
    assert_eq!(count_bits_per_char(b"hello"), Ok(8));
}

#[test]
fn bits_per_char_is_that_of_the_widest_character() {
    assert_eq!(count_bits_per_char("привет".as_bytes()), Ok(16));
    assert_eq!(count_bits_per_char("a€b".as_bytes()), Ok(24));
    assert_eq!(count_bits_per_char("a€😀é".as_bytes()), Ok(32));
    assert_eq!(count_bits_per_char("😀a".as_bytes()), Ok(32));
}

#[test]
fn bits_per_char_of_no_message_is_zero() {
    assert_eq!(count_bits_per_char(b""), Ok(0));
}

#[test]
fn bits_per_char_rejects_what_is_not_utf8() {
    assert_eq!(count_bits_per_char(&[0xff]), Err(StegoError::InvalidMessageEncoding));
    assert_eq!(count_bits_per_char(&[b'a', 0x80]), Err(StegoError::InvalidMessageEncoding));
    assert_eq!(count_bits_per_char(&[0xc3]), Err(StegoError::InvalidMessageEncoding));
    assert_eq!(count_bits_per_char(&[0xc0, 0x80]), Err(StegoError::InvalidMessageEncoding));
    assert_eq!(count_bits_per_char(&[0xed, 0xa0, 0x80]), Err(StegoError::InvalidMessageEncoding));
    assert_eq!(count_bits_per_char(&[0b10101010]), Err(StegoError::InvalidMessageEncoding));
}

#[test]
fn width_of_agrees_with_the_standard_width() {
    for code in 0..=0x10ffffu32 {
        if let Some(c) = char::from_u32(code) {
            assert_eq!(width_of(c), c.len_utf8());
        }
    }
}

#[test]
fn samples_per_bit_is_the_quotient_rounded_down() {
    assert_eq!(samples_per_bit(8, 8, 1), Ok(1));
    assert_eq!(samples_per_bit(100, 8, 1), Ok(12));
    assert_eq!(samples_per_bit(44100, 16, 5), Ok(551));
    assert_eq!(samples_per_bit(16, 8, 2), Ok(1));
    assert_eq!(samples_per_bit(u32::MAX, 1, 1), Ok(u32::MAX as usize));
}

#[test]
fn samples_per_bit_of_too_small_a_container() {
    assert_eq!(samples_per_bit(8, 8, 2), Err(StegoError::InsufficientCapacity));
    assert_eq!(samples_per_bit(15, 8, 2), Err(StegoError::InsufficientCapacity));
    assert_eq!(samples_per_bit(0, 8, 1), Err(StegoError::InsufficientCapacity));
    assert_eq!(
        samples_per_bit(u32::MAX, usize::MAX, usize::MAX),
        Err(StegoError::InsufficientCapacity)
    );
}

#[test]
fn samples_per_bit_without_windows() {
    assert_eq!(samples_per_bit(8, 0, 0), Ok(8));
    assert_eq!(samples_per_bit(8, 8, 0), Ok(8));
    assert_eq!(samples_per_bit(0, 0, 0), Err(StegoError::InsufficientCapacity));
}

#[test]
fn samples_per_bit_agrees_with_the_floating_point_quotient() {
    for samples_num in [1u32, 7, 8, 9, 1000, 44100, 1 << 31, u32::MAX] {
        for windows in [1usize, 2, 3, 7, 8, 16, 24, 32, 1000, 44100, 1 << 20] {
            let quotient = (samples_num as f64 / windows as f64).floor() as usize;
            let expected = if quotient == 0 {
                Err(StegoError::InsufficientCapacity)
            } else {
                Ok(quotient)
            };
            assert_eq!(samples_per_bit(samples_num, windows, 1), expected);
        }
    }
}

#[test]
fn every_error_says_something_of_its_own() {
    let errors = [
        StegoError::InvalidMessageEncoding,
        StegoError::InsufficientCapacity,
        StegoError::KeyParseError,
        StegoError::PreconditionViolation,
    ];
    assert_eq!(errors[0].message(), "the message is not valid UTF-8");
    assert_eq!(errors[1].message(), "the container has too few samples to hide the message");
    assert_eq!(errors[2].message(), "the key holds a token that is not an integer");
    assert_eq!(errors[3].message(), "the samples or the key do not fit the windows to be read");
}
