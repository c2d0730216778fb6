//! The byte and text codecs that the fragment format is built from:
//! Base64 (`base64`), percent-encoding of file names (`percent-encoding`),
//! SHA-256 (`sha2`) and lowercase hex (`hex`).
use vstd::prelude::*;
use vstd::utf8::*;

use base64::engine::general_purpose::STANDARD;
use base64::Engine;
use percent_encoding::{percent_decode_str, utf8_percent_encode, NON_ALPHANUMERIC};
use sha2::{Digest, Sha256};

verus! {

// ---------------------------------------------------------------------------
// Base64 (standard alphabet, with padding)
// ---------------------------------------------------------------------------

/// The character of the standard Base64 alphabet for a six-bit value:
/// `A`-`Z`, `a`-`z`, `0`-`9`, `+`, `/`.
pub open spec fn b64_digit(v: u8) -> char {
    if v < 26 {
        (v + 65) as char
    } else if v < 52 {
        (v + 71) as char
    } else if v < 62 {
        (v - 4) as char
    } else if v == 62 {
        '+'
    } else {
        '/'
    }
}

/// The standard, padded Base64 encoding of `data`: every three bytes give
/// four characters of six bits each, high bits first; a last group of one
/// or two bytes is filled with zero bits and padded with `=` to four.
pub open spec fn b64_encoded(data: Seq<u8>) -> Seq<char>
    decreases data.len(),
{
    if data.len() == 0 {
        seq![]
    } else if data.len() == 1 {
        seq![b64_digit(data[0] / 4), b64_digit(((data[0] % 4) * 16) as u8), '=', '=']
    } else if data.len() == 2 {
        seq![
            b64_digit(data[0] / 4),
            b64_digit(((data[0] % 4) * 16 + data[1] / 16) as u8),
            b64_digit(((data[1] % 16) * 4) as u8),
            '=',
        ]
    } else {
        seq![
            b64_digit(data[0] / 4),
            b64_digit(((data[0] % 4) * 16 + data[1] / 16) as u8),
            b64_digit(((data[1] % 16) * 4 + data[2] / 64) as u8),
            b64_digit(data[2] % 64),
        ] + b64_encoded(data.skip(3))
    }
}

/// Four characters for every three bytes or part of three.
pub proof fn lemma_b64_encoded_len(data: Seq<u8>)
    ensures
        b64_encoded(data).len() == (data.len() + 2) / 3 * 4,
    decreases data.len(),
{
    if data.len() >= 3 {
        lemma_b64_encoded_len(data.skip(3));
    }
}

/// The bytes that the standard, padded, canonical Base64 decoder gives back
/// for `text`, or `None` where it reports an error.
pub uninterp spec fn b64_decoded(text: Seq<char>) -> Option<Seq<u8>>;

/// Calls `base64::engine::general_purpose::STANDARD.encode`.
/// Claims that the result is the standard, padded encoding of `data` (see
/// `b64_encoded`), and that the same engine's `decode` gives `data` back
/// from it (the round trip the crate documents). The engine panics when
/// the encoded length overflows `usize`, which the `requires` leaves out.
#[verifier::external_body]
pub(crate) fn b64_encode(data: &[u8]) -> (res: String)
    requires
        (data@.len() + 2) / 3 * 4 <= usize::MAX,
    ensures
        res@ == b64_encoded(data@),
        b64_decoded(res@) == Some(data@),
{
    STANDARD.encode(data)
}

/// Calls `base64::engine::general_purpose::STANDARD.decode`.
/// Claims that it succeeds exactly when the named decoding is defined and
/// then returns it. An error is handed back as the crate's own text
/// (`DecodeError`'s `Display`), which is not stated.
#[verifier::external_body]
pub(crate) fn b64_decode(text: &str) -> (res: Result<Vec<u8>, String>)
    ensures
        res is Ok <==> b64_decoded(text@) is Some,
        res matches Ok(v) ==> v@ == b64_decoded(text@).unwrap(),
{
    STANDARD.decode(text).map_err(|e| e.to_string())
}

// ---------------------------------------------------------------------------
// Percent-encoding with the NON_ALPHANUMERIC set
// ---------------------------------------------------------------------------

/// ASCII letters and digits: the bytes that `NON_ALPHANUMERIC` leaves alone.
pub open spec fn is_ascii_alnum(b: u8) -> bool {
    (48 <= b && b <= 57) || (65 <= b && b <= 90) || (97 <= b && b <= 122)
}

/// The byte of an uppercase hex digit for `d < 16`.
pub open spec fn hex_upper_byte(d: u8) -> u8 {
    if d < 10 {
        (d + 48) as u8
    } else {
        (d + 55) as u8
    }
}

/// The percent-encoding of one byte: itself when alphanumeric, else `%XX`.
pub open spec fn percent_encode_byte(b: u8) -> Seq<u8> {
    if is_ascii_alnum(b) {
        seq![b]
    } else {
        seq![37u8, hex_upper_byte(b / 16), hex_upper_byte(b % 16)]
    }
}

/// The percent-encoding of a byte string, byte by byte.
pub open spec fn percent_encode_bytes(b: Seq<u8>) -> Seq<u8>
    decreases b.len(),
{
    if b.len() == 0 {
        seq![]
    } else {
        percent_encode_byte(b[0]) + percent_encode_bytes(b.drop_first())
    }
}

/// A hexadecimal digit as `char::to_digit(16)` accepts it.
pub open spec fn is_hex_byte(b: u8) -> bool {
    (48 <= b && b <= 57) || (65 <= b && b <= 70) || (97 <= b && b <= 102)
}

/// The value of a hexadecimal digit.
pub open spec fn hex_value(b: u8) -> u8 {
    if b <= 57 {
        (b - 48) as u8
    } else if b <= 70 {
        (b - 55) as u8
    } else {
        (b - 87) as u8
    }
}

/// Percent-decoding: every `%` followed by two hex digits becomes the byte
/// they spell; every other byte stays.
pub open spec fn percent_decode_bytes(b: Seq<u8>) -> Seq<u8>
    decreases b.len(),
{
    if b.len() == 0 {
        seq![]
    } else if b[0] == 37 && b.len() >= 3 && is_hex_byte(b[1]) && is_hex_byte(b[2]) {
        seq![(hex_value(b[1]) * 16 + hex_value(b[2])) as u8] + percent_decode_bytes(b.skip(3))
    } else {
        seq![b[0]] + percent_decode_bytes(b.drop_first())
    }
}

/// ASCII bytes read as characters.
pub open spec fn ascii_chars(b: Seq<u8>) -> Seq<char> {
    b.map_values(|x: u8| x as char)
}

/// The text that `utf8_percent_encode(s, NON_ALPHANUMERIC)` produces.
pub open spec fn percent_encoded(s: Seq<char>) -> Seq<char> {
    ascii_chars(percent_encode_bytes(encode_utf8(s)))
}

/// What `percent_decode_str(s).decode_utf8()` produces: the decoded bytes
/// read as UTF-8, or `None` where they are not valid UTF-8.
pub open spec fn percent_decoded(s: Seq<char>) -> Option<Seq<char>> {
    let bytes = percent_decode_bytes(encode_utf8(s));
    if valid_utf8(bytes) {
        Some(decode_utf8(bytes))
    } else {
        None
    }
}

/// Calls `percent_encoding::utf8_percent_encode(name, NON_ALPHANUMERIC)`.
/// Claims the byte-by-byte encoding that the crate's source performs: each
/// UTF-8 byte of `name` that is an ASCII letter or digit is kept, every
/// other byte becomes `%` and two uppercase hex digits.
#[verifier::external_body]
pub(crate) fn percent_encode_name(name: &str) -> (res: String)
    ensures
        res@ == percent_encoded(name@),
{
    utf8_percent_encode(name, NON_ALPHANUMERIC).to_string()
}

/// Calls `percent_encoding::percent_decode_str(text).decode_utf8()`.
/// Claims the decoding that the crate's source performs (`%` plus two hex
/// digits becomes one byte, anything else is kept) followed by UTF-8
/// validation, `None` when the bytes are not valid UTF-8.
#[verifier::external_body]
pub(crate) fn percent_decode_name(text: &str) -> (res: Option<String>)
    ensures
        res matches Some(r) ==> percent_decoded(text@) == Some(r@),
        res is None ==> percent_decoded(text@) is None,
{
    percent_decode_str(text).decode_utf8().ok().map(|c| c.to_string())
}

/// Decoding undoes encoding, byte for byte.
pub proof fn lemma_percent_decode_encode_bytes(b: Seq<u8>)
    ensures
        percent_decode_bytes(percent_encode_bytes(b)) == b,
    decreases b.len(),
{
    if b.len() > 0 {
        let x = b[0];
        let e = percent_encode_byte(x);
        let rest = percent_encode_bytes(b.drop_first());
        lemma_percent_decode_encode_bytes(b.drop_first());
        let all = e + rest;
        assert(percent_encode_bytes(b) == all);
        if is_ascii_alnum(x) {
            assert(all[0] == x);
            assert(all.drop_first() =~= rest);
            assert(x != 37);
        } else {
            assert(x / 16 < 16 && x % 16 < 16);
            assert(all[0] == 37);
            assert(all.skip(3) =~= rest);
            assert(is_hex_byte(hex_upper_byte(x / 16)));
            assert(is_hex_byte(hex_upper_byte(x % 16)));
            assert(hex_value(hex_upper_byte(x / 16)) == x / 16);
            assert(hex_value(hex_upper_byte(x % 16)) == x % 16);
            assert((x / 16) * 16 + x % 16 == x);
        }
        assert(percent_decode_bytes(all) =~= b);
    }
}

/// Every byte of a percent-encoding is an ASCII letter, digit or `%`.
pub proof fn lemma_percent_encode_bytes_ascii(b: Seq<u8>)
    ensures
        forall|i: int|
            0 <= i < percent_encode_bytes(b).len() ==> {
                let c = #[trigger] percent_encode_bytes(b)[i];
                c == 37 || is_ascii_alnum(c)
            },
    decreases b.len(),
{
    if b.len() > 0 {
        lemma_percent_encode_bytes_ascii(b.drop_first());
        let e = percent_encode_byte(b[0]);
        let rest = percent_encode_bytes(b.drop_first());
        assert(percent_encode_bytes(b) == e + rest);
        assert forall|i: int| 0 <= i < percent_encode_bytes(b).len() implies {
            let c = #[trigger] percent_encode_bytes(b)[i];
            c == 37 || is_ascii_alnum(c)
        } by {
            if i >= e.len() {
                assert(percent_encode_bytes(b)[i] == rest[i - e.len()]);
            } else {
                assert(b[0] / 16 < 16 && b[0] % 16 < 16);
            }
        }
    }
}

/// The UTF-8 encoding of ASCII bytes read as characters is those bytes.
pub proof fn lemma_ascii_chars_utf8(b: Seq<u8>)
    requires
        forall|i: int| 0 <= i < b.len() ==> #[trigger] b[i] < 128,
    ensures
        encode_utf8(ascii_chars(b)) == b,
        vstd::utf8::is_ascii_chars(ascii_chars(b)),
{
    let s = ascii_chars(b);
    assert(vstd::utf8::is_ascii_chars(s)) by {
        assert forall|i: int| 0 <= i < s.len() implies '\0' <= #[trigger] s[i] <= '\u{7f}' by {
            assert(b[i] < 128);
        }
    }
    vstd::utf8::is_ascii_chars_encode_utf8(s);
    assert(encode_utf8(s) =~= b);
}

/// Decoding a percent-encoded name gives the name back, and the encoded
/// name holds no `:`.
pub proof fn lemma_percent_roundtrip(s: Seq<char>)
    ensures
        percent_decoded(percent_encoded(s)) == Some(s),
        forall|i: int|
            0 <= i < percent_encoded(s).len() ==> #[trigger] percent_encoded(s)[i] != ':',
{
    broadcast use vstd::utf8::encode_utf8_valid_utf8, vstd::utf8::encode_utf8_decode_utf8;

    let b = percent_encode_bytes(encode_utf8(s));
    lemma_percent_encode_bytes_ascii(encode_utf8(s));
    lemma_ascii_chars_utf8(b);
    lemma_percent_decode_encode_bytes(encode_utf8(s));
    assert forall|i: int| 0 <= i < percent_encoded(s).len() implies #[trigger] percent_encoded(
        s,
    )[i] != ':' by {
        assert(b[i] == 37 || is_ascii_alnum(b[i]));
    }
}

// ---------------------------------------------------------------------------
// SHA-256 and hex
// ---------------------------------------------------------------------------

/// The SHA-256 digest of `data`.
pub uninterp spec fn sha256_digest(data: Seq<u8>) -> Seq<u8>;

/// Calls `sha2::Sha256::digest`. Claims that the result is the named digest
/// of `data` and, as the algorithm fixes, 32 bytes long.
#[verifier::external_body]
pub(crate) fn sha256(data: &[u8]) -> (res: Vec<u8>)
    ensures
        res@ == sha256_digest(data@),
        res@.len() == 32,
{
    Sha256::digest(data).to_vec()
}

/// A lowercase hex digit for `d < 16`.
pub open spec fn hex_lower_digit(d: u8) -> char {
    if d < 10 {
        (d + 48) as char
    } else {
        (d + 87) as char
    }
}

/// Lowercase hex: two digits per byte, high nibble first.
pub open spec fn hex_lower(b: Seq<u8>) -> Seq<char>
    decreases b.len(),
{
    if b.len() == 0 {
        seq![]
    } else {
        seq![hex_lower_digit(b[0] / 16), hex_lower_digit(b[0] % 16)] + hex_lower(b.drop_first())
    }
}

/// Calls `hex::encode`. Claims what the crate's source does: each byte
/// becomes two lowercase hex digits, high nibble first.
#[verifier::external_body]
pub(crate) fn hex_encode(data: &[u8]) -> (res: String)
    ensures
        res@ == hex_lower(data@),
{
    hex::encode(data)
}

} // verus!
