//! Text as a sequence of characters.

use core::str::Utf8Error;
use vstd::prelude::*;
use vstd::utf8::valid_utf8;
use vstd::string::StringSliceAdditionalSpecFns;

verus! {

/// `core::str::Utf8Error`, the error of bytes that are not UTF-8.
#[verifier::external_type_specification]
#[verifier::external_body]
pub struct ExUtf8Error(Utf8Error);

/// `core::str::from_utf8` succeeds exactly on the byte slices that are
/// well-formed UTF-8, and the string it then returns is made of the very
/// bytes it was given.
pub assume_specification[ core::str::from_utf8 ](bytes: &[u8]) -> (text: Result<&str, Utf8Error>)
    ensures
        text is Ok <==> valid_utf8(bytes@),
        text is Ok ==> text->Ok_0.spec_bytes() == bytes@,
;

/// The characters of a string, in order.
pub fn chars_of(text: &str) -> (chars: Vec<char>)
    ensures
        chars@ == text@,
{
    let mut chars: Vec<char> = Vec::new();
    for c in it: text.chars()
        invariant
            it.seq() == text@,
            chars@ == it.seq().take(it.index() as int),
    {
        chars.push(c);
    }
    chars
}

} // verus!
