use wav_stego::key_codec::{key_from_text, key_to_text, parse_token, whitespace};
use wav_stego::utils::StegoError;

#[test]
fn key_text_of_signed_integers() {
    let key = vec![1, -1, 2, -2, 3];
    assert_eq!(key_to_text(&key), "1,-1,2,-2,3");
}

#[test]
fn key_text_has_no_separator_at_either_end() {
    assert_eq!(key_to_text(&[1]), "1");
    assert_eq!(key_to_text(&[]), "");
    assert_eq!(key_to_text(&[-1, 1]), "-1,1");
}

#[test]
fn key_text_of_extreme_elements() {
    assert_eq!(key_to_text(&[i16::MIN, i16::MAX, 0, 10, -100, 9999]), "-32768,32767,0,10,-100,9999");
}

#[test]
fn key_text_agrees_with_display() {
    for element in i16::MIN..=i16::MAX {
        assert_eq!(key_to_text(&[element]), element.to_string());
    }
}

#[test]
fn key_from_text_reads_what_was_written() {
    assert_eq!(key_from_text("1,-1,2,-2,3"), Ok(vec![1, -1, 2, -2, 3]));
    let key: Vec<i16> = vec![1, -1, -1, 1, 1, 1, -1];
    assert_eq!(key_from_text(&key_to_text(&key)), Ok(key));
    let wide: Vec<i16> = vec![i16::MIN, -1, 0, 1, i16::MAX];
    assert_eq!(key_from_text(&key_to_text(&wide)), Ok(wide));
}

#[test]
fn key_from_text_reads_the_first_line_only() {
    assert_eq!(key_from_text("1,-1\n2,x\n"), Ok(vec![1, -1]));
    assert_eq!(key_from_text("1,-1\r\nrest"), Ok(vec![1, -1]));
    assert_eq!(key_from_text("\n1,-1"), Err(StegoError::KeyParseError));
}

#[test]
fn key_from_text_trims_the_line_but_not_its_tokens() {
    assert_eq!(key_from_text("  1,-1 \t\n"), Ok(vec![1, -1]));
    assert_eq!(key_from_text("\u{a0}1,-1\u{3000}"), Ok(vec![1, -1]));
    assert_eq!(key_from_text("1, -1"), Err(StegoError::KeyParseError));
    assert_eq!(key_from_text("1 ,-1"), Err(StegoError::KeyParseError));
}

#[test]
fn key_from_text_rejects_what_is_no_integer() {
    assert_eq!(key_from_text(""), Err(StegoError::KeyParseError));
    assert_eq!(key_from_text("1,"), Err(StegoError::KeyParseError));
    assert_eq!(key_from_text(",1"), Err(StegoError::KeyParseError));
    assert_eq!(key_from_text("1,,1"), Err(StegoError::KeyParseError));
    assert_eq!(key_from_text("1,a,1"), Err(StegoError::KeyParseError));
    assert_eq!(key_from_text("x,1,1"), Err(StegoError::KeyParseError));
    assert_eq!(key_from_text("1.0"), Err(StegoError::KeyParseError));
    assert_eq!(key_from_text("-"), Err(StegoError::KeyParseError));
    assert_eq!(key_from_text("+"), Err(StegoError::KeyParseError));
    assert_eq!(key_from_text("--1"), Err(StegoError::KeyParseError));
    assert_eq!(key_from_text("1-"), Err(StegoError::KeyParseError));
    assert_eq!(key_from_text("32768"), Err(StegoError::KeyParseError));
    assert_eq!(key_from_text("-32769"), Err(StegoError::KeyParseError));
    assert_eq!(key_from_text("99999999999999999999"), Err(StegoError::KeyParseError));
    assert_eq!(key_from_text("\u{661}"), Err(StegoError::KeyParseError));
}

#[test]
fn key_from_text_accepts_signs_and_leading_zeros() {
    assert_eq!(key_from_text("+1,-0,007,+0"), Ok(vec![1, 0, 7, 0]));
    assert_eq!(key_from_text("-32768,32767,0000032767"), Ok(vec![i16::MIN, i16::MAX, i16::MAX]));
}

#[test]
fn key_from_text_does_not_check_the_magnitude() {
    assert_eq!(key_from_text("5,-7,0"), Ok(vec![5, -7, 0]));
}

#[test]
fn parse_token_agrees_with_the_standard_parser() {
    let alphabet = ['0', '1', '9', '-', '+', ' ', 'a', '3'];
    let mut tokens: Vec<String> = vec![String::new()];
    let mut last: Vec<String> = vec![String::new()];
    for _ in 0..5 {
        let mut next = Vec::new();
        for token in &last {
            for c in alphabet {
                let mut longer = token.clone();
                longer.push(c);
                next.push(longer);
            }
        }
        tokens.extend(next.iter().cloned());
        last = next;
    }
    for number in -40000i32..40000 {
        tokens.push(number.to_string());
    }
    for token in tokens {
        let chars: Vec<char> = token.chars().collect();
        assert_eq!(parse_token(&chars), token.parse::<i16>().ok(), "token {:?}", token);
    }
}

#[test]
fn whitespace_agrees_with_the_standard_property() {
    for code in 0..=0x10ffffu32 {
        if let Some(c) = char::from_u32(code) {
            assert_eq!(whitespace(c), c.is_whitespace(), "U+{:04X}", code);
        }
    }
}
