//! Text encodings of byte strings: hexadecimal and Base64 through the
//! `rustc_serialize` crate, UTF-8 through `std`.
//!
//! The functions marked `external_body` are trusted: each makes one call
//! into outside code, and Verus takes its contract as given.

use vstd::prelude::*;
use vstd::utf8::*;

verus! {

/// The lower-case hexadecimal digit that stands for `nibble`, a value below 16.
pub open spec fn hex_digit(nibble: int) -> char {
    if nibble < 10 {
        (48 + nibble) as char
    } else {
        (87 + nibble) as char
    }
}

/// The hexadecimal text of `bytes`: two lower-case digits per byte, the high
/// four bits first.
pub open spec fn hex_encoding(bytes: Seq<u8>) -> Seq<char> {
    Seq::new(
        2 * bytes.len(),
        |i: int|
            hex_digit(
                if i % 2 == 0 {
                    bytes[i / 2] as int / 16
                } else {
                    bytes[i / 2] as int % 16
                },
            ),
    )
}

/// The value of a hexadecimal digit of either case, and `None` for every
/// other character.
pub open spec fn hex_value(digit: char) -> Option<int> {
    if '0' <= digit <= '9' {
        Some(digit as int - 48)
    } else if 'a' <= digit <= 'f' {
        Some(digit as int - 87)
    } else if 'A' <= digit <= 'F' {
        Some(digit as int - 55)
    } else {
        None
    }
}

/// Whether hexadecimal text may hold `c` between its digits: a space, a
/// tab, a carriage return or a line feed.
pub open spec fn is_hex_blank(c: char) -> bool {
    c == ' ' || c == '\t' || c == '\r' || c == '\n'
}

/// The characters of `text` that are not blanks.
pub open spec fn hex_digits(text: Seq<char>) -> Seq<char> {
    text.filter(|c: char| !is_hex_blank(c))
}

/// The bytes that hexadecimal `text` stands for: blanks are passed over,
/// and every two digits give a byte, the high four bits first. `None` where
/// a character is neither a digit nor a blank, or the digits are odd in
/// number.
pub open spec fn hex_decoding(text: Seq<char>) -> Option<Seq<u8>> {
    let digits = hex_digits(text);
    if digits.len() % 2 == 0 && forall|i: int|
        0 <= i < digits.len() ==> hex_value(#[trigger] digits[i]) is Some {
        Some(
            Seq::new(
                digits.len() / 2,
                |i: int|
                    (16 * hex_value(digits[2 * i]).unwrap() + hex_value(
                        digits[2 * i + 1],
                    ).unwrap()) as u8,
            ),
        )
    } else {
        None
    }
}

/// What `rustc_serialize::base64::ToBase64::to_base64` makes of `bytes` under
/// the `STANDARD` configuration.
pub uninterp spec fn base64_encoding(bytes: Seq<u8>) -> Seq<char>;

/// What `rustc_serialize::base64::FromBase64::from_base64` makes of `text`:
/// the bytes it decodes to, or `None` where it reports an error.
pub uninterp spec fn base64_decoding(text: Seq<char>) -> Option<Seq<u8>>;

/// Declares `rustc_serialize::hex::FromHexError`, the error of the hex
/// decoder, as a type that is carried through and never looked into.
#[verifier::external_type_specification]
#[verifier::external_body]
pub struct ExFromHexError(rustc_serialize::hex::FromHexError);

/// Declares `rustc_serialize::base64::FromBase64Error`, the error of the
/// Base64 decoder, as a type that is carried through and never looked into.
#[verifier::external_type_specification]
#[verifier::external_body]
pub struct ExFromBase64Error(rustc_serialize::base64::FromBase64Error);

/// Declares `std::str::Utf8Error`, the error of `std::str::from_utf8`, as a
/// type that is carried through and never looked into.
#[verifier::external_type_specification]
#[verifier::external_body]
pub struct ExUtf8Error(std::str::Utf8Error);

/// Calls `rustc_serialize::hex::ToHex::to_hex` on a byte slice. The crate
/// writes, for each byte in order, the digit of its high four bits and then
/// the digit of its low four bits, both taken from `0123456789abcdef`.
#[verifier::external_body]
pub(crate) fn hex_text(bytes: &[u8]) -> (text: String)
    ensures
        text@ == hex_encoding(bytes@),
{
    rustc_serialize::hex::ToHex::to_hex(bytes)
}

/// Calls `rustc_serialize::hex::FromHex::from_hex` on a string. The crate
/// skips spaces, tabs, carriage returns and line feeds, reads every other
/// byte as a hexadecimal digit of either case, and makes a byte of every
/// two digits; it fails at the first byte that is neither, and at the end
/// where a digit is left over.
#[verifier::external_body]
pub(crate) fn hex_bytes(text: &str) -> (decoded: Result<Vec<u8>, rustc_serialize::hex::FromHexError>)
    ensures
        match decoded {
            Ok(bytes) => hex_decoding(text@) == Some(bytes@),
            Err(_) => hex_decoding(text@) is None,
        },
{
    rustc_serialize::hex::FromHex::from_hex(text)
}

/// Calls `rustc_serialize::base64::ToBase64::to_base64` on a byte slice with
/// the crate's `STANDARD` configuration. The result is a function of the
/// bytes alone; the contract gives it a name and says no more.
#[verifier::external_body]
pub(crate) fn base64_text(bytes: &[u8]) -> (text: String)
    ensures
        text@ == base64_encoding(bytes@),
{
    rustc_serialize::base64::ToBase64::to_base64(bytes, rustc_serialize::base64::STANDARD)
}

/// Calls `rustc_serialize::base64::FromBase64::from_base64` on a string. The
/// result is a function of the text alone; the contract gives it a name and
/// says no more.
#[verifier::external_body]
pub(crate) fn base64_bytes(text: &str) -> (decoded: Result<
    Vec<u8>,
    rustc_serialize::base64::FromBase64Error,
>)
    ensures
        match decoded {
            Ok(bytes) => base64_decoding(text@) == Some(bytes@),
            Err(_) => base64_decoding(text@) is None,
        },
{
    rustc_serialize::base64::FromBase64::from_base64(text)
}

/// Calls `std::str::from_utf8`, which fails exactly where the bytes are not
/// well-formed UTF-8 and otherwise returns the same bytes as a string slice.
#[verifier::external_body]
pub(crate) fn utf8_text(bytes: &[u8]) -> (decoded: Result<&str, std::str::Utf8Error>)
    ensures
        match decoded {
            Ok(text) => encode_utf8(text@) == bytes@,
            Err(_) => !valid_utf8(bytes@),
        },
{
    std::str::from_utf8(bytes)
}

/// Filtering a sequence whose every element passes the filter changes
/// nothing.
proof fn lemma_filter_keeps_all(chars: Seq<char>, pred: spec_fn(char) -> bool)
    requires
        forall|i: int| 0 <= i < chars.len() ==> pred(#[trigger] chars[i]),
    ensures
        chars.filter(pred) == chars,
    decreases chars.len(),
{
    reveal(Seq::filter);
    if chars.len() > 0 {
        lemma_filter_keeps_all(chars.drop_last(), pred);
        assert(chars.drop_last().push(chars.last()) =~= chars);
    }
}

/// The hexadecimal text of any bytes decodes to those bytes.
pub proof fn lemma_hex_round_trip(bytes: Seq<u8>)
    ensures
        hex_decoding(hex_encoding(bytes)) == Some(bytes),
{
    let text = hex_encoding(bytes);
    let pred = |c: char| !is_hex_blank(c);
    assert forall|i: int| 0 <= i < text.len() implies pred(#[trigger] text[i]) && hex_value(
        text[i],
    ) == Some(
        if i % 2 == 0 {
            bytes[i / 2] as int / 16
        } else {
            bytes[i / 2] as int % 16
        },
    ) by {}
    lemma_filter_keeps_all(text, pred);
    assert(hex_digits(text) == text);
    let decoded = hex_decoding(text);
    assert(decoded is Some);
    assert forall|i: int| 0 <= i < bytes.len() implies decoded.unwrap()[i] == bytes[i] by {
        assert(hex_value(text[2 * i]) == Some(bytes[i] as int / 16));
        assert(hex_value(text[2 * i + 1]) == Some(bytes[i] as int % 16));
    }
    assert(decoded.unwrap() =~= bytes);
}

} // verus!
