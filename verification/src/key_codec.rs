//! The text form of a key: its elements in decimal, joined by commas, on
//! one line.

use crate::text::chars_of;
use crate::utils::StegoError;
use vstd::prelude::*;
use vstd::slice::slice_subrange;
use vstd::string::StringExecFns;

verus! {

/// Whether a character has the Unicode property `White_Space`.
pub open spec fn is_whitespace(c: char) -> bool {
    let code = c as u32;
    ||| 0x09 <= code <= 0x0d
    ||| code == 0x20
    ||| code == 0x85
    ||| code == 0xa0
    ||| code == 0x1680
    ||| 0x2000 <= code <= 0x200a
    ||| code == 0x2028
    ||| code == 0x2029
    ||| code == 0x202f
    ||| code == 0x205f
    ||| code == 0x3000
}

/// Length of the first line of a text, its line feed included.
pub open spec fn first_line_len(text: Seq<char>) -> nat
    decreases text.len(),
{
    if text.len() == 0 {
        0
    } else if text[0] == '\n' {
        1
    } else {
        1 + first_line_len(text.drop_first())
    }
}

/// The first line of a text, its line feed included.
pub open spec fn first_line(text: Seq<char>) -> Seq<char> {
    text.take(first_line_len(text) as int)
}

/// A text without the whitespace it begins with.
pub open spec fn trim_start(text: Seq<char>) -> Seq<char>
    decreases text.len(),
{
    if text.len() > 0 && is_whitespace(text[0]) {
        trim_start(text.drop_first())
    } else {
        text
    }
}

/// A text without the whitespace it ends with.
pub open spec fn trim_end(text: Seq<char>) -> Seq<char>
    decreases text.len(),
{
    if text.len() > 0 && is_whitespace(text.last()) {
        trim_end(text.drop_last())
    } else {
        text
    }
}

/// A text without the whitespace at either end.
pub open spec fn trim(text: Seq<char>) -> Seq<char> {
    trim_end(trim_start(text))
}

/// The pieces of a text between its commas, in order: one more than there
/// are commas, empty pieces included.
pub open spec fn split_commas(text: Seq<char>) -> Seq<Seq<char>>
    decreases text.len(),
{
    if text.len() == 0 {
        seq![Seq::<char>::empty()]
    } else {
        let before = split_commas(text.drop_last());
        if text.last() == ',' {
            before.push(Seq::<char>::empty())
        } else {
            before.drop_last().push(before.last().push(text.last()))
        }
    }
}

/// Whether a character is one of `0` to `9`.
pub open spec fn is_digit(c: char) -> bool {
    '0' <= c <= '9'
}

/// Whether a text consists of digits only.
pub open spec fn all_digits(text: Seq<char>) -> bool {
    forall|i: int| 0 <= i < text.len() ==> is_digit(#[trigger] text[i])
}

/// The number that a run of digits denotes in base 10; 0 for no digits.
pub open spec fn digits_value(digits: Seq<char>) -> int
    decreases digits.len(),
{
    if digits.len() == 0 {
        0
    } else {
        10 * digits_value(digits.drop_last()) + (digits.last() as u32 - '0' as u32)
    }
}

/// The digits of a token, after its sign if it has one.
pub open spec fn token_digits(token: Seq<char>) -> Seq<char> {
    if token.len() > 0 && (token[0] == '-' || token[0] == '+') {
        token.drop_first()
    } else {
        token
    }
}

/// The integer that a token denotes: an optional `+` or `-`, then one or
/// more digits, the value within the range of `i16`. No other token denotes
/// one.
pub open spec fn token_value(token: Seq<char>) -> Option<i16> {
    let digits = token_digits(token);
    let magnitude = digits_value(digits);
    let value = if token.len() > 0 && token[0] == '-' {
        -magnitude
    } else {
        magnitude
    };
    if digits.len() > 0 && all_digits(digits) && i16::MIN <= value <= i16::MAX {
        Some(value as i16)
    } else {
        None
    }
}

/// The key that a run of tokens denotes, where every token denotes an
/// integer.
pub open spec fn tokens_key(tokens: Seq<Seq<char>>) -> Option<Seq<i16>> {
    if forall|i: int| 0 <= i < tokens.len() ==> (#[trigger] token_value(tokens[i])) is Some {
        Some(Seq::new(tokens.len(), |i: int| token_value(tokens[i])->0))
    } else {
        None
    }
}

/// The key that a text denotes: the first line, without the whitespace
/// around it, split at its commas, every piece read as an integer.
pub open spec fn text_key(text: Seq<char>) -> Option<Seq<i16>> {
    tokens_key(split_commas(trim(first_line(text))))
}

/// Tells whether a character has the Unicode property `White_Space`.
pub fn whitespace(c: char) -> (white: bool)
    ensures
        white == is_whitespace(c),
{
    let code: u32 = c as u32;
    (0x09 <= code && code <= 0x0d) || code == 0x20 || code == 0x85 || code == 0xa0 || code
        == 0x1680 || (0x2000 <= code && code <= 0x200a) || code == 0x2028 || code == 0x2029
        || code == 0x202f || code == 0x205f || code == 0x3000
}

/// The first line of a text, its line feed included.
pub fn line_of(text: &[char]) -> (line: &[char])
    ensures
        line@ == first_line(text@),
{
    let mut end: usize = 0;
    assert(text@.skip(0) =~= text@);
    while end < text.len() && text[end] != '\n'
        invariant
            end <= text@.len(),
            first_line_len(text@) == end + first_line_len(text@.skip(end as int)),
        decreases text@.len() - end,
    {
        assert(text@.skip(end as int).drop_first() =~= text@.skip(end + 1));
        end = end + 1;
    }
    if end < text.len() {
        end = end + 1;
    }
    slice_subrange(text, 0, end)
}

/// A text without the whitespace at either end.
pub fn trimmed(text: &[char]) -> (inner: &[char])
    ensures
        inner@ == trim(text@),
{
    let mut start: usize = 0;
    assert(text@.skip(0) =~= text@);
    while start < text.len() && whitespace(text[start])
        invariant
            start <= text@.len(),
            trim_start(text@) == trim_start(text@.skip(start as int)),
        decreases text@.len() - start,
    {
        assert(text@.skip(start as int).drop_first() =~= text@.skip(start + 1));
        start = start + 1;
    }
    let mut end: usize = text.len();
    assert(text@.subrange(start as int, end as int) =~= text@.skip(start as int));
    while end > start && whitespace(text[end - 1])
        invariant
            start <= end <= text@.len(),
            trim(text@) == trim_end(text@.subrange(start as int, end as int)),
        decreases end,
    {
        assert(text@.subrange(start as int, end as int).drop_last() =~= text@.subrange(
            start as int,
            end - 1,
        ));
        end = end - 1;
    }
    slice_subrange(text, start, end)
}

/// The value of a run of digits is not negative, and grows with every digit.
pub proof fn lemma_digits_value_grows(digits: Seq<char>)
    requires
        digits.len() > 0,
        all_digits(digits),
    ensures
        0 <= digits_value(digits.drop_last()) <= digits_value(digits),
    decreases digits.len(),
{
    let shorter = digits.drop_last();
    if shorter.len() > 0 {
        lemma_digits_value_grows(shorter);
    }
}

/// Reads one token as an integer.
pub fn parse_token(token: &[char]) -> (value: Option<i16>)
    ensures
        value == token_value(token@),
{
    let len: usize = token.len();
    let signed: bool = len > 0 && (token[0] == '-' || token[0] == '+');
    let negative: bool = len > 0 && token[0] == '-';
    let start: usize = if signed {
        1
    } else {
        0
    };
    let ghost digits = token_digits(token@);
    assert(digits =~= token@.subrange(start as int, len as int));
    if start == len {
        return None;
    }
    // The magnitude read so far, or 32769 for every magnitude above 32768.
    let mut magnitude: i32 = 0;
    let mut i: usize = start;
    while i < len
        invariant
            start <= i <= len,
            len == token@.len(),
            digits == token@.subrange(start as int, len as int),
            digits == token_digits(token@),
            negative == (token@.len() > 0 && token@[0] == '-'),
            all_digits(token@.subrange(start as int, i as int)),
            0 <= digits_value(token@.subrange(start as int, i as int)),
            0 <= magnitude <= 32769,
            magnitude <= 32768 ==> magnitude == digits_value(
                token@.subrange(start as int, i as int),
            ),
            magnitude == 32769 ==> digits_value(token@.subrange(start as int, i as int)) >= 32769,
        decreases len - i,
    {
        let c: char = token[i];
        if !('0' <= c && c <= '9') {
            assert(digits[i - start] == c);
            assert(!is_digit(digits[i - start]));
            assert(!all_digits(digits));
            return None;
        }
        let digit: i32 = (c as u32 - '0' as u32) as i32;
        proof {
            let longer = token@.subrange(start as int, i + 1);
            assert(longer.drop_last() =~= token@.subrange(start as int, i as int));
            assert(longer.last() == c);
            assert(all_digits(longer));
            lemma_digits_value_grows(longer);
        }
        magnitude = if magnitude * 10 + digit > 32768 {
            32769
        } else {
            magnitude * 10 + digit
        };
        i = i + 1;
    }
    let value: i32 = if negative {
        -magnitude
    } else {
        magnitude
    };
    if -32768 <= value && value <= 32767 {
        Some(value as i16)
    } else {
        None
    }
}

/// Reads a line, already trimmed, as a key.
pub fn parse_line(line: &[char]) -> (result: Result<Vec<i16>, StegoError>)
    ensures
        tokens_key(split_commas(line@)) is Some <==> result is Ok,
        result is Ok ==> Some(result->Ok_0@) == tokens_key(split_commas(line@)),
        result is Err ==> result->Err_0 == StegoError::KeyParseError,
{
    let len: usize = line.len();
    let mut key: Vec<i16> = Vec::new();
    let mut failed: bool = false;
    let mut token_start: usize = 0;
    let mut i: usize = 0;
    let ghost mut done: Seq<Seq<char>> = Seq::empty();
    assert(line@.take(0) =~= Seq::<char>::empty());
    assert(split_commas(line@.take(0)) =~= done.push(line@.subrange(0, 0)));
    while i < len
        invariant
            token_start <= i <= len,
            len == line@.len(),
            split_commas(line@.take(i as int)) == done.push(
                line@.subrange(token_start as int, i as int),
            ),
            !failed ==> key@.len() == done.len(),
            !failed ==> forall|j: int|
                0 <= j < done.len() ==> #[trigger] token_value(done[j]) == Some(key@[j]),
            failed ==> exists|j: int| 0 <= j < done.len() && (#[trigger] token_value(done[j])) is None,
        decreases len - i,
    {
        let ghost current = line@.subrange(token_start as int, i as int);
        proof {
            assert(line@.take(i + 1).drop_last() =~= line@.take(i as int));
            assert(line@.take(i + 1).last() == line@[i as int]);
            assert(done.push(current).drop_last() =~= done);
        }
        if line[i] == ',' {
            let value: Option<i16> = parse_token(slice_subrange(line, token_start, i));
            let ghost before = done;
            proof {
                done = done.push(current);
            }
            match value {
                Some(element) => {
                    if !failed {
                        key.push(element);
                    }
                },
                None => {
                    failed = true;
                },
            }
            proof {
                if failed {
                    if token_value(current) is None {
                        assert(token_value(done[before.len() as int]) is None);
                    } else {
                        let j = choose|j: int|
                            0 <= j < before.len() && (#[trigger] token_value(before[j])) is None;
                        assert(token_value(done[j]) is None);
                    }
                }
            }
            token_start = i + 1;
            assert(line@.subrange(token_start as int, i + 1) =~= Seq::<char>::empty());
        } else {
            assert(line@.subrange(token_start as int, i + 1) =~= current.push(line@[i as int]));
        }
        i = i + 1;
    }
    assert(line@.take(len as int) =~= line@);
    let ghost last = line@.subrange(token_start as int, len as int);
    let ghost tokens = done.push(last);
    match parse_token(slice_subrange(line, token_start, len)) {
        Some(element) => {
            if failed {
                proof {
                    let j = choose|j: int|
                        0 <= j < done.len() && (#[trigger] token_value(done[j])) is None;
                    assert(token_value(tokens[j]) is None);
                }
                Err(StegoError::KeyParseError)
            } else {
                key.push(element);
                proof {
                    assert forall|j: int| 0 <= j < tokens.len() implies (#[trigger] token_value(
                        tokens[j],
                    )) == Some(key@[j]) by {
                        if j < done.len() {
                            assert(tokens[j] == done[j]);
                        }
                    }
                    assert(key@ =~= tokens_key(tokens)->0);
                }
                Ok(key)
            }
        },
        None => {
            proof {
                assert(token_value(tokens[done.len() as int]) is None);
            }
            Err(StegoError::KeyParseError)
        },
    }
}

/// Reads the text form of a key: the first line of `text`, without the
/// whitespace around it, split at its commas, every piece an integer with an
/// optional sign. Fails with `KeyParseError` where a piece is anything else.
pub fn key_from_text(text: &str) -> (result: Result<Vec<i16>, StegoError>)
    ensures
        text_key(text@) is Some <==> result is Ok,
        result is Ok ==> Some(result->Ok_0@) == text_key(text@),
        result is Err ==> result->Err_0 == StegoError::KeyParseError,
{
    let chars: Vec<char> = chars_of(text);
    parse_line(trimmed(line_of(chars.as_slice())))
}

/// The character for a digit's value.
pub open spec fn digit_char(value: int) -> char {
    if value == 0 {
        '0'
    } else if value == 1 {
        '1'
    } else if value == 2 {
        '2'
    } else if value == 3 {
        '3'
    } else if value == 4 {
        '4'
    } else if value == 5 {
        '5'
    } else if value == 6 {
        '6'
    } else if value == 7 {
        '7'
    } else if value == 8 {
        '8'
    } else {
        '9'
    }
}

/// The digits of a natural number in base 10, without leading zeros.
pub open spec fn decimal_digits(number: nat) -> Seq<char>
    decreases number,
{
    if number < 10 {
        seq![digit_char(number as int)]
    } else {
        decimal_digits(number / 10).push(digit_char((number % 10) as int))
    }
}

/// An integer in base 10, with `-` before a negative one.
pub open spec fn decimal(value: int) -> Seq<char> {
    if value < 0 {
        seq!['-'] + decimal_digits((-value) as nat)
    } else {
        decimal_digits(value as nat)
    }
}

/// The text form of a key: its elements in base 10, a comma between each
/// two, nothing before the first or after the last.
pub open spec fn key_text(key: Seq<i16>) -> Seq<char>
    decreases key.len(),
{
    if key.len() == 0 {
        Seq::<char>::empty()
    } else if key.len() == 1 {
        decimal(key[0] as int)
    } else {
        key_text(key.drop_last()) + seq![','] + decimal(key.last() as int)
    }
}

/// The one-character string for a digit's value.
fn digit_str(value: u32) -> (digit: &'static str)
    requires
        value < 10,
    ensures
        digit@ == seq![digit_char(value as int)],
{
    proof {
        reveal_strlit("0");
        reveal_strlit("1");
        reveal_strlit("2");
        reveal_strlit("3");
        reveal_strlit("4");
        reveal_strlit("5");
        reveal_strlit("6");
        reveal_strlit("7");
        reveal_strlit("8");
        reveal_strlit("9");
    }
    let digit: &'static str = if value == 0 {
        "0"
    } else if value == 1 {
        "1"
    } else if value == 2 {
        "2"
    } else if value == 3 {
        "3"
    } else if value == 4 {
        "4"
    } else if value == 5 {
        "5"
    } else if value == 6 {
        "6"
    } else if value == 7 {
        "7"
    } else if value == 8 {
        "8"
    } else {
        "9"
    };
    assert(digit@ =~= seq![digit_char(value as int)]);
    digit
}

/// Appends a natural number in base 10.
fn append_digits(text: &mut String, number: u32)
    ensures
        final(text)@ == old(text)@ + decimal_digits(number as nat),
    decreases number,
{
    if number >= 10 {
        append_digits(text, number / 10);
    }
    text.append(digit_str(number % 10));
    assert(text@ =~= old(text)@ + decimal_digits(number as nat));
}

/// Writes a key as text: its elements in base 10, joined by commas.
pub fn key_to_text(key: &[i16]) -> (text: String)
    ensures
        text@ == key_text(key@),
{
    let mut text: String = String::new();
    let mut i: usize = 0;
    assert(key@.take(0) =~= Seq::<i16>::empty());
    while i < key.len()
        invariant
            i <= key@.len(),
            text@ == key_text(key@.take(i as int)),
        decreases key@.len() - i,
    {
        let ghost before = text@;
        proof {
            reveal_strlit(",");
            reveal_strlit("-");
            assert(key@.take(i + 1).drop_last() =~= key@.take(i as int));
            assert(key@.take(i + 1).last() == key@[i as int]);
        }
        if i > 0 {
            text.append(",");
        }
        let element: i32 = key[i] as i32;
        if element < 0 {
            text.append("-");
            append_digits(&mut text, (-element) as u32);
        } else {
            append_digits(&mut text, element as u32);
        }
        assert(text@ =~= (if i > 0 {
            before + seq![',']
        } else {
            before
        }) + decimal(element as int));
        i = i + 1;
        assert(text@ =~= key_text(key@.take(i as int)));
    }
    assert(key@.take(i as int) =~= key@);
    text
}

/// Whether a character can stand in the text form of a key's element: a
/// digit or the minus sign.
pub open spec fn is_element_char(c: char) -> bool {
    is_digit(c) || c == '-'
}

/// Whether a text is made of the characters of key elements only.
pub open spec fn is_element_text(text: Seq<char>) -> bool {
    forall|i: int| 0 <= i < text.len() ==> is_element_char(#[trigger] text[i])
}

/// The character for a digit's value is a digit and has that value.
pub proof fn lemma_digit_char(value: int)
    requires
        0 <= value < 10,
    ensures
        is_digit(digit_char(value)),
        digit_char(value) as u32 - '0' as u32 == value,
{
}

/// The digits of a natural number are digits, at least one, and denote it.
pub proof fn lemma_decimal_digits(number: nat)
    ensures
        decimal_digits(number).len() > 0,
        all_digits(decimal_digits(number)),
        digits_value(decimal_digits(number)) == number,
    decreases number,
{
    lemma_digit_char((number % 10) as int);
    if number >= 10 {
        lemma_decimal_digits(number / 10);
        let shorter = decimal_digits(number / 10);
        let digits = decimal_digits(number);
        assert(digits.drop_last() =~= shorter);
        assert(digits.last() == digit_char((number % 10) as int));
        assert(digits_value(digits) == 10 * digits_value(shorter) + (number % 10));
    } else {
        let digits = decimal_digits(number);
        assert(digits.drop_last() =~= Seq::<char>::empty());
        assert(digits.last() == digit_char(number as int));
        assert(digits_value(digits) == 10 * digits_value(digits.drop_last()) + number);
    }
}

/// An integer within `i16` is read back from its decimal form, which is
/// not empty and made of digits and at most a minus sign.
pub proof fn lemma_decimal_is_read_back(value: i16)
    ensures
        token_value(decimal(value as int)) == Some(value),
        decimal(value as int).len() > 0,
        is_element_text(decimal(value as int)),
{
    let token = decimal(value as int);
    if value < 0 {
        lemma_decimal_digits((-value) as nat);
        assert(token_digits(token) =~= decimal_digits((-value) as nat));
    } else {
        lemma_decimal_digits(value as nat);
        assert(is_digit(token[0]));
        assert(token_digits(token) =~= decimal_digits(value as nat));
    }
}

/// A piece without commas, put after a text, lengthens the text's last piece.
pub proof fn lemma_split_extends_last(text: Seq<char>, piece: Seq<char>)
    requires
        forall|i: int| 0 <= i < piece.len() ==> piece[i] != ',',
    ensures
        split_commas(text).len() > 0,
        split_commas(text + piece) == split_commas(text).drop_last().push(
            split_commas(text).last() + piece,
        ),
    decreases piece.len(),
{
    lemma_split_is_not_empty(text);
    let pieces = split_commas(text);
    if piece.len() == 0 {
        assert(text + piece =~= text);
        assert(pieces.last() + piece =~= pieces.last());
        assert(pieces.drop_last().push(pieces.last()) =~= pieces);
    } else {
        let shorter = piece.drop_last();
        lemma_split_extends_last(text, shorter);
        assert((text + piece).drop_last() =~= text + shorter);
        assert((text + piece).last() == piece.last());
        let before = split_commas(text + shorter);
        assert(before.drop_last() =~= pieces.drop_last());
        assert(before.last().push(piece.last()) =~= pieces.last() + piece);
    }
}

/// A text has at least one piece.
pub proof fn lemma_split_is_not_empty(text: Seq<char>)
    ensures
        split_commas(text).len() > 0,
    decreases text.len(),
{
    if text.len() > 0 {
        lemma_split_is_not_empty(text.drop_last());
    }
}

/// The pieces of a key's text form are the decimal forms of its elements.
pub proof fn lemma_split_of_key_text(key: Seq<i16>)
    requires
        key.len() > 0,
    ensures
        split_commas(key_text(key)) == Seq::new(key.len(), |i: int| decimal(key[i] as int)),
    decreases key.len(),
{
    let pieces = Seq::new(key.len(), |i: int| decimal(key[i] as int));
    let last = decimal(key.last() as int);
    lemma_decimal_is_read_back(key.last());
    assert forall|i: int| 0 <= i < last.len() implies last[i] != ',' by {
        assert(is_element_char(last[i]));
    }
    if key.len() == 1 {
        lemma_split_extends_last(Seq::<char>::empty(), last);
        assert(Seq::<char>::empty() + last =~= last);
        assert(split_commas(Seq::<char>::empty()) =~= seq![Seq::<char>::empty()]);
        assert(split_commas(key_text(key)) =~= pieces);
    } else {
        let shorter = key.drop_last();
        lemma_split_of_key_text(shorter);
        let head = key_text(shorter) + seq![','];
        assert(head.drop_last() =~= key_text(shorter));
        assert(split_commas(head) == split_commas(key_text(shorter)).push(Seq::<char>::empty()));
        lemma_split_extends_last(head, last);
        assert(Seq::<char>::empty() + last =~= last);
        assert(split_commas(head).drop_last() =~= split_commas(key_text(shorter)));
        assert(split_commas(key_text(key)) =~= pieces);
    }
}

/// The text form of a key with an element is not empty, and is made of
/// digits, minus signs and commas, with neither a comma nor whitespace at
/// either end.
pub proof fn lemma_key_text_shape(key: Seq<i16>)
    requires
        key.len() > 0,
    ensures
        key_text(key).len() > 0,
        is_element_char(key_text(key)[0]),
        is_element_char(key_text(key).last()),
        forall|i: int|
            0 <= i < key_text(key).len() ==> is_element_char(#[trigger] key_text(key)[i])
                || key_text(key)[i] == ',',
    decreases key.len(),
{
    lemma_decimal_is_read_back(key.last());
    let last = decimal(key.last() as int);
    assert(is_element_char(last[0]));
    assert(is_element_char(last[last.len() - 1]));
    if key.len() > 1 {
        lemma_key_text_shape(key.drop_last());
        let head = key_text(key.drop_last());
        let text = key_text(key);
        assert(text[0] == head[0]);
        assert(text.last() == last.last());
        assert forall|i: int| 0 <= i < text.len() implies is_element_char(#[trigger] text[i])
            || text[i] == ',' by {
            if i < head.len() {
                assert(text[i] == head[i]);
            } else if i == head.len() {
            } else {
                assert(text[i] == last[i - head.len() - 1]);
                assert(is_element_char(last[i - head.len() - 1]));
            }
        }
    } else {
        let text = key_text(key);
        assert forall|i: int| 0 <= i < text.len() implies is_element_char(#[trigger] text[i])
            || text[i] == ',' by {
            assert(is_element_char(last[i]));
        }
    }
}

/// A text without a line feed is its own first line.
pub proof fn lemma_one_line(text: Seq<char>)
    requires
        forall|i: int| 0 <= i < text.len() ==> text[i] != '\n',
    ensures
        first_line(text) == text,
    decreases text.len(),
{
    if text.len() > 0 {
        let rest = text.drop_first();
        assert forall|i: int| 0 <= i < rest.len() implies rest[i] != '\n' by {
            assert(rest[i] == text[i + 1]);
        }
        lemma_one_line(rest);
        assert(first_line(rest) == rest);
        assert(first_line_len(rest) == rest.len()) by {
            assert(rest.take(first_line_len(rest) as int).len() == rest.len());
            lemma_first_line_len_bound(rest);
        }
    }
    assert(text.take(text.len() as int) =~= text);
}

/// The first line is no longer than the text.
pub proof fn lemma_first_line_len_bound(text: Seq<char>)
    ensures
        first_line_len(text) <= text.len(),
    decreases text.len(),
{
    if text.len() > 0 && text[0] != '\n' {
        lemma_first_line_len_bound(text.drop_first());
    }
}

/// Reading undoes writing: the text form of a key with at least one element
/// denotes that key.
pub proof fn lemma_key_is_read_back(key: Seq<i16>)
    requires
        key.len() > 0,
    ensures
        text_key(key_text(key)) == Some(key),
{
    let text = key_text(key);
    lemma_key_text_shape(key);
    assert forall|i: int| 0 <= i < text.len() implies text[i] != '\n' by {
        assert(is_element_char(text[i]) || text[i] == ',');
    }
    lemma_one_line(text);
    assert(!is_whitespace(text[0]));
    assert(!is_whitespace(text.last()));
    assert(trim(text) == text);
    lemma_split_of_key_text(key);
    let tokens = split_commas(text);
    assert forall|i: int| 0 <= i < tokens.len() implies (#[trigger] token_value(tokens[i]))
        == Some(key[i]) by {
        lemma_decimal_is_read_back(key[i]);
    }
    assert(tokens_key(tokens)->0 =~= key);
}

} // verus!
