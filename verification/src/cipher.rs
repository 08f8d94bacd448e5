//! Ciphertext and plaintext buffers, and the repeating-key XOR that turns
//! one into the other.

use crate::codec::{
    base64_bytes, base64_decoding, base64_encoding, base64_text, hex_bytes, hex_decoding,
    hex_encoding, hex_text, utf8_text,
};
use vstd::prelude::*;
use vstd::slice::*;
use vstd::utf8::*;

verus! {

/// Why an operation of this library failed.
#[derive(Debug)]
pub enum Error {
    /// The text is not hexadecimal; the message says why.
    Hex(String),
    /// The text is not Base64; the message says why.
    Base64(String),
    /// The bytes are not UTF-8; the message says why.
    UTF8(String),
    /// A file could not be read or written; the message says why.
    File(String),
    /// A key length or column count is zero or larger than the data.
    InvalidInput,
    /// The ciphertext is too short to estimate any key length.
    InsufficientData,
    /// No candidate decryption scored above zero.
    NoPlausibleDecryption,
}

/// `input` with byte `i` XORed with byte `i mod key.len()` of `key`.
pub open spec fn xor_with_key(input: Seq<u8>, key: Seq<u8>) -> Seq<u8>
    recommends
        key.len() > 0,
{
    Seq::new(input.len(), |i: int| input[i] ^ key[i % key.len() as int])
}

/// `input` with every byte XORed with `key`.
pub open spec fn xor_with_byte(input: Seq<u8>, key: u8) -> Seq<u8> {
    Seq::new(input.len(), |i: int| input[i] ^ key)
}

/// `text` cut into lines of `width` bytes, the last one possibly shorter,
/// each line followed by a line feed.
pub open spec fn wrapped(text: Seq<u8>, width: nat) -> Seq<u8>
    recommends
        width > 0,
    decreases text.len(),
{
    if text.len() == 0 || width == 0 {
        Seq::empty()
    } else if text.len() <= width {
        text.push(10u8)
    } else {
        text.take(width as int).push(10u8) + wrapped(text.skip(width as int), width)
    }
}

/// Bytes that were encrypted with a repeating XOR key.
pub struct CipherText(Vec<u8>);

/// Bytes in the clear.
pub struct PlainText(Vec<u8>);

impl View for CipherText {
    type V = Seq<u8>;

    closed spec fn view(&self) -> Seq<u8> {
        self.0@
    }
}

impl View for PlainText {
    type V = Seq<u8>;

    closed spec fn view(&self) -> Seq<u8> {
        self.0@
    }
}

/// The width of a line of Base64 text in a ciphertext file.
pub const LINE_WIDTH: usize = 80;

impl CipherText {
    /// A ciphertext holding a copy of `bytes`.
    pub fn new(bytes: &[u8]) -> (cipher: CipherText)
        ensures
            cipher@ == bytes@,
    {
        CipherText(slice_to_vec(bytes))
    }

    /// Decodes hexadecimal text.
    pub fn from_hex(hex: &str) -> (decoded: Result<CipherText, Error>)
        ensures
            match decoded {
                Ok(cipher) => hex_decoding(hex@) == Some(cipher@),
                Err(error) => hex_decoding(hex@) is None && error is Hex,
            },
    {
        match hex_bytes(hex) {
            Ok(bytes) => Ok(CipherText(bytes)),
            Err(error) => Err(Error::Hex(error.to_string())),
        }
    }

    /// The bytes as lower-case hexadecimal text.
    pub fn to_hex(&self) -> (text: String)
        ensures
            text@ == hex_encoding(self@),
    {
        hex_text(self.0.as_slice())
    }

    /// A copy of the bytes.
    pub fn as_bytes(&self) -> (bytes: Vec<u8>)
        ensures
            bytes@ == self@,
    {
        slice_to_vec(self.0.as_slice())
    }

    /// The bytes, borrowed.
    pub fn as_slice(&self) -> (bytes: &[u8])
        ensures
            bytes@ == self@,
    {
        self.0.as_slice()
    }

    /// Decodes Base64 text.
    pub fn from_b64(b64: &str) -> (decoded: Result<CipherText, Error>)
        ensures
            match decoded {
                Ok(cipher) => base64_decoding(b64@) == Some(cipher@),
                Err(error) => base64_decoding(b64@) is None && error is Base64,
            },
    {
        match base64_bytes(b64) {
            Ok(bytes) => Ok(CipherText(bytes)),
            Err(error) => Err(Error::Base64(error.to_string())),
        }
    }

    /// The bytes as Base64 text in the standard alphabet, padded, on one line.
    pub fn to_b64(&self) -> (text: String)
        ensures
            text@ == base64_encoding(self@),
    {
        base64_text(self.0.as_slice())
    }

    /// The contents of a ciphertext file: the Base64 text in lines of
    /// `LINE_WIDTH` bytes, each followed by a line feed.
    pub fn to_b64_lines(&self) -> (lines: Vec<u8>)
        ensures
            lines@ == wrapped(encode_utf8(base64_encoding(self@)), LINE_WIDTH as nat),
    {
        let text = self.to_b64();
        wrap_lines(text.as_str().as_bytes(), LINE_WIDTH)
    }
}

impl PlainText {
    /// A plaintext holding a copy of `bytes`.
    pub fn new(bytes: &[u8]) -> (plain: PlainText)
        ensures
            plain@ == bytes@,
    {
        PlainText(slice_to_vec(bytes))
    }

    /// A plaintext holding the UTF-8 bytes of `string`.
    pub fn from_string(string: &str) -> (plain: PlainText)
        ensures
            plain@ == encode_utf8(string@),
    {
        PlainText(slice_to_vec(string.as_bytes()))
    }

    /// A plaintext holding a copy of `bytes`.
    pub fn from_bytes(bytes: &[u8]) -> (plain: PlainText)
        ensures
            plain@ == bytes@,
    {
        PlainText(slice_to_vec(bytes))
    }

    /// A copy of the bytes.
    pub fn as_bytes(&self) -> (bytes: Vec<u8>)
        ensures
            bytes@ == self@,
    {
        slice_to_vec(self.0.as_slice())
    }

    /// The bytes, borrowed.
    pub fn as_slice(&self) -> (bytes: &[u8])
        ensures
            bytes@ == self@,
    {
        self.0.as_slice()
    }

    /// The bytes as a string, where they are well-formed UTF-8.
    pub fn to_utf8(&self) -> (decoded: Result<String, Error>)
        ensures
            match decoded {
                Ok(text) => valid_utf8(self@) && text@ == decode_utf8(self@),
                Err(error) => !valid_utf8(self@) && error is UTF8,
            },
    {
        match utf8_text(self.0.as_slice()) {
            Ok(text) => {
                proof {
                    encode_utf8_valid_utf8(text@);
                    encode_utf8_decode_utf8(text@);
                }
                Ok(text.to_owned())
            },
            Err(error) => Err(Error::UTF8(error.to_string())),
        }
    }
}

/// XORs byte `i` of `input` with byte `i mod key.len()` of `key`.
pub fn repeating_xor(input: &[u8], key: &[u8]) -> (out: Vec<u8>)
    requires
        key@.len() > 0 || input@.len() == 0,
    ensures
        out@ == xor_with_key(input@, key@),
{
    let mut out: Vec<u8> = Vec::with_capacity(input.len());
    let mut i: usize = 0;
    while i < input.len()
        invariant
            i <= input@.len(),
            key@.len() > 0 || input@.len() == 0,
            out@ == xor_with_key(input@.take(i as int), key@),
        decreases input@.len() - i,
    {
        out.push(input[i] ^ key[i % key.len()]);
        i += 1;
        assert(out@ =~= xor_with_key(input@.take(i as int), key@));
    }
    assert(input@.take(i as int) =~= input@);
    out
}

/// Cuts `text` into lines of `width` bytes, the last one possibly shorter,
/// and ends each line with a line feed.
pub fn wrap_lines(text: &[u8], width: usize) -> (lines: Vec<u8>)
    requires
        width > 0,
    ensures
        lines@ == wrapped(text@, width as nat),
{
    let mut lines: Vec<u8> = Vec::new();
    let mut i: usize = 0;
    proof {
        assert(text@.skip(0) =~= text@);
        assert(lines@ + wrapped(text@, width as nat) =~= wrapped(text@, width as nat));
    }
    while i < text.len()
        invariant
            i <= text@.len(),
            width > 0,
            lines@ + wrapped(text@.skip(i as int), width as nat) == wrapped(text@, width as nat),
        decreases text@.len() - i,
    {
        let j: usize = if text.len() - i <= width {
            text.len()
        } else {
            i + width
        };
        let ghost before = lines@;
        let ghost rest = text@.skip(i as int);
        let mut k: usize = i;
        while k < j
            invariant
                i <= k <= j <= text@.len(),
                lines@ == before + text@.subrange(i as int, k as int),
            decreases j - k,
        {
            lines.push(text[k]);
            k += 1;
            assert(lines@ =~= before + text@.subrange(i as int, k as int));
        }
        lines.push(10u8);
        proof {
            if text.len() - i <= width {
                assert(text@.subrange(i as int, j as int) =~= rest);
                assert(text@.skip(j as int).len() == 0);
                assert(lines@ =~= before + wrapped(rest, width as nat));
                assert(wrapped(text@.skip(j as int), width as nat) =~= Seq::<u8>::empty());
            } else {
                assert(text@.subrange(i as int, j as int) =~= rest.take(width as int));
                assert(text@.skip(j as int) =~= rest.skip(width as int));
                assert(lines@ + wrapped(text@.skip(j as int), width as nat) =~= before + wrapped(
                    rest,
                    width as nat,
                ));
            }
        }
        i = j;
    }
    proof {
        assert(text@.skip(i as int).len() == 0);
        assert(lines@ + Seq::<u8>::empty() =~= lines@);
    }
    lines
}

/// Encrypts `text` with the UTF-8 bytes of `key`, repeated as often as needed.
pub fn encrypt(text: &PlainText, key: &str) -> (cipher: CipherText)
    requires
        encode_utf8(key@).len() > 0 || text@.len() == 0,
    ensures
        cipher@ == xor_with_key(text@, encode_utf8(key@)),
{
    let xored: Vec<u8> = repeating_xor(text.0.as_slice(), key.as_bytes());
    CipherText(xored)
}

/// Decrypts `cipher_text` with the UTF-8 bytes of `key`, repeated as often as
/// needed. It never fails.
pub fn decrypt(cipher_text: &CipherText, key: &str) -> (decoded: Result<PlainText, Error>)
    requires
        encode_utf8(key@).len() > 0 || cipher_text@.len() == 0,
    ensures
        decoded matches Ok(plain) && plain@ == xor_with_key(cipher_text@, encode_utf8(key@)),
{
    let xored: Vec<u8> = repeating_xor(cipher_text.0.as_slice(), key.as_bytes());
    Ok(PlainText(xored))
}

/// Decrypts `cipher_text` with the single byte `key`. It never fails.
pub fn decrypt_single_key(cipher_text: &CipherText, key: u8) -> (decoded: Result<PlainText, Error>)
    ensures
        decoded matches Ok(plain) && plain@ == xor_with_byte(cipher_text@, key),
{
    let mut one: Vec<u8> = Vec::new();
    one.push(key);
    let xored: Vec<u8> = repeating_xor(cipher_text.0.as_slice(), one.as_slice());
    assert(xored@ =~= xor_with_byte(cipher_text@, key));
    Ok(PlainText(xored))
}

/// XOR with a key undoes itself: applying the same non-empty key twice gives
/// the input back.
pub proof fn lemma_xor_with_key_involution(input: Seq<u8>, key: Seq<u8>)
    requires
        key.len() > 0,
    ensures
        xor_with_key(xor_with_key(input, key), key) == input,
{
    assert forall|i: int| 0 <= i < input.len() implies xor_with_key(xor_with_key(input, key), key)[i]
        == input[i] by {
        let a = input[i];
        let b = key[i % key.len() as int];
        assert((a ^ b) ^ b == a) by (bit_vector);
    }
    assert(xor_with_key(xor_with_key(input, key), key) =~= input);
}

/// A plaintext made from a string reads back as that string.
pub proof fn lemma_string_round_trip(chars: Seq<char>)
    ensures
        valid_utf8(encode_utf8(chars)),
        decode_utf8(encode_utf8(chars)) == chars,
{
    encode_utf8_valid_utf8(chars);
    encode_utf8_decode_utf8(chars);
}

} // verus!
