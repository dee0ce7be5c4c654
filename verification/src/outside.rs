//! Calls into `fast32`, `bs58`, `urlencoding` and into the parts of std that
//! vstd gives no specification. Every item here is trusted: Verus believes its
//! contract without reading its body.
use vstd::prelude::*;
use vstd::utf8::{decode_utf8, valid_utf8};

verus! {

/// The base32 alphabets of `fast32` that the base32 decoder tries, in order.
#[derive(Clone, Copy, Debug, PartialEq, Eq, Structural)]
pub enum Base32Alphabet {
    Rfc4648,
    Rfc4648Hex,
    Crockford,
    CrockfordLower,
}

/// The base64 alphabets of `fast32` that the base64 decoder tries, in order.
#[derive(Clone, Copy, Debug, PartialEq, Eq, Structural)]
pub enum Base64Alphabet {
    Rfc4648,
    Rfc4648Url,
}

/// What `fast32::base32::Alphabet32Nopad::decode` gives back for the given
/// alphabet and input bytes (`None` for its `DecodeError`).
pub uninterp spec fn fast32_base32_decoded(alphabet: Base32Alphabet, input: Seq<u8>) -> Option<Seq<u8>>;

/// What `fast32::base64::Alphabet64Nopad::decode` gives back for the given
/// alphabet and input bytes (`None` for its `DecodeError`).
pub uninterp spec fn fast32_base64_decoded(alphabet: Base64Alphabet, input: Seq<u8>) -> Option<Seq<u8>>;

/// What `bs58::decode(input).into_vec()` gives back (`None` for its error).
pub uninterp spec fn bs58_decoded(input: Seq<char>) -> Option<Seq<u8>>;

/// What `urlencoding::decode` gives back (`None` for its `FromUtf8Error`).
pub uninterp spec fn url_decoded(input: Seq<char>) -> Option<Seq<char>>;

/// What `String::from_utf8_lossy` gives back for the given bytes.
pub uninterp spec fn utf8_lossy_decoded(bytes: Seq<u8>) -> Seq<char>;

/// What `str::to_lowercase` gives back for the given characters.
pub uninterp spec fn lowercased(s: Seq<char>) -> Seq<char>;

/// Whether `char::is_alphabetic` holds (Unicode `Alphabetic`).
pub uninterp spec fn unicode_alphabetic(c: char) -> bool;

/// Whether `char::is_numeric` holds (Unicode general categories `Nd`, `Nl`, `No`).
pub uninterp spec fn unicode_numeric(c: char) -> bool;

/// The abstract value of an optional byte vector.
pub open spec fn opt_bytes(r: Option<Vec<u8>>) -> Option<Seq<u8>> {
    match r {
        Some(v) => Some(v@),
        None => None,
    }
}

/// Calls `decode` of the given `fast32` base32 alphabet (without padding).
/// The contract claims only that the result is the named function of the
/// alphabet and of the input bytes.
#[verifier::external_body]
pub(crate) fn base32_decode(alphabet: Base32Alphabet, input: &[u8]) -> (r: Option<Vec<u8>>)
    ensures
        opt_bytes(r) == fast32_base32_decoded(alphabet, input@),
{
    match alphabet {
        Base32Alphabet::Rfc4648 => fast32::base32::RFC4648_NOPAD.decode(input).ok(),
        Base32Alphabet::Rfc4648Hex => fast32::base32::RFC4648_HEX_NOPAD.decode(input).ok(),
        Base32Alphabet::Crockford => fast32::base32::CROCKFORD.decode(input).ok(),
        Base32Alphabet::CrockfordLower => fast32::base32::CROCKFORD_LOWER.decode(input).ok(),
    }
}

/// The character of a 6-bit value in the standard (RFC 4648) Base64 alphabet.
pub open spec fn base64_digit(v: int) -> char {
    if v < 26 {
        ('A' as int + v) as char
    } else if v < 52 {
        ('a' as int + v - 26) as char
    } else if v < 62 {
        ('0' as int + v - 52) as char
    } else if v == 62 {
        '+'
    } else {
        '/'
    }
}

/// The standard Base64 encoding of `b`, without padding: four digits per
/// three bytes, and two or three digits for a last group of one or two bytes.
pub open spec fn base64_nopad(b: Seq<u8>) -> Seq<char>
    decreases b.len(),
{
    if b.len() == 0 {
        seq![]
    } else if b.len() == 1 {
        seq![base64_digit((b[0] as int) / 4), base64_digit(((b[0] as int) % 4) * 16)]
    } else if b.len() == 2 {
        seq![
            base64_digit((b[0] as int) / 4),
            base64_digit(((b[0] as int) % 4) * 16 + (b[1] as int) / 16),
            base64_digit(((b[1] as int) % 16) * 4),
        ]
    } else {
        seq![
            base64_digit((b[0] as int) / 4),
            base64_digit(((b[0] as int) % 4) * 16 + (b[1] as int) / 16),
            base64_digit(((b[1] as int) % 16) * 4 + (b[2] as int) / 64),
            base64_digit((b[2] as int) % 64),
        ] + base64_nopad(b.skip(3))
    }
}

/// The bytes of a text of ASCII characters.
pub open spec fn ascii_bytes(cs: Seq<char>) -> Seq<u8> {
    cs.map_values(|c: char| c as u8)
}

/// Calls `decode` of the given `fast32` base64 alphabet (without padding).
/// The contract claims that the result is the named function of the
/// alphabet and of the input bytes, and, as the crate's decoder shows, that
/// the standard alphabet decodes the standard encoding of any bytes back to
/// those bytes.
#[verifier::external_body]
pub(crate) fn base64_decode(alphabet: Base64Alphabet, input: &[u8]) -> (r: Option<Vec<u8>>)
    ensures
        opt_bytes(r) == fast32_base64_decoded(alphabet, input@),
        alphabet == Base64Alphabet::Rfc4648 ==> forall|b: Seq<u8>|
            input@ == ascii_bytes(#[trigger] base64_nopad(b)) ==> opt_bytes(r) == Some(b),
{
    match alphabet {
        Base64Alphabet::Rfc4648 => fast32::base64::RFC4648_NOPAD.decode(input).ok(),
        Base64Alphabet::Rfc4648Url => fast32::base64::RFC4648_URL_NOPAD.decode(input).ok(),
    }
}

/// Calls `bs58::decode(input).into_vec()` (Bitcoin alphabet). The contract
/// claims only that the result is the named function of the input.
#[verifier::external_body]
pub(crate) fn bs58_decode(input: &str) -> (r: Option<Vec<u8>>)
    ensures
        opt_bytes(r) == bs58_decoded(input@),
{
    bs58::decode(input).into_vec().ok()
}

/// Calls `urlencoding::decode`. The contract claims that the result is the
/// named function of the input and, as the crate's source shows, that an input
/// without any '%' comes back unchanged.
#[verifier::external_body]
pub(crate) fn url_decode(input: &str) -> (r: Option<String>)
    ensures
        match r {
            Some(s) => url_decoded(input@) == Some(s@) && (!input@.contains('%') ==> s@ == input@),
            None => url_decoded(input@) is None && input@.contains('%'),
        },
{
    match urlencoding::decode(input) {
        Ok(s) => Some(s.into_owned()),
        Err(_) => None,
    }
}

/// Calls `String::from_utf8_lossy`. The contract claims that the result is
/// the named function of the bytes and, as std documents, that valid UTF-8
/// comes back as the characters it encodes, while invalid sequences are
/// replaced by U+FFFD.
#[verifier::external_body]
pub(crate) fn utf8_lossy(bytes: &[u8]) -> (s: String)
    ensures
        s@ == utf8_lossy_decoded(bytes@),
        valid_utf8(bytes@) ==> s@ == decode_utf8(bytes@),
        !valid_utf8(bytes@) ==> s@.contains('\u{FFFD}'),
{
    String::from_utf8_lossy(bytes).into_owned()
}

/// Calls `str::to_lowercase`. The contract claims that the result is the
/// named function of the characters and that ASCII text maps each letter
/// 'A'..='Z' to its lowercase form and leaves every other character alone.
#[verifier::external_body]
pub(crate) fn to_lowercase(s: &str) -> (r: String)
    ensures
        r@ == lowercased(s@),
        vstd::utf8::is_ascii_chars(s@) ==> r@ == s@.map_values(|c: char| ascii_lower(c)),
{
    s.to_lowercase()
}

/// ASCII lowercasing of one character.
pub open spec fn ascii_lower(c: char) -> char {
    if 'A' <= c && c <= 'Z' {
        ((c as u32) + 32) as char
    } else {
        c
    }
}

/// Calls `char::is_alphabetic`; the contract names the result.
#[verifier::external_body]
pub(crate) fn is_alphabetic(c: char) -> (b: bool)
    ensures
        b == unicode_alphabetic(c),
{
    c.is_alphabetic()
}

/// Calls `char::is_numeric`; the contract names the result.
#[verifier::external_body]
pub(crate) fn is_numeric(c: char) -> (b: bool)
    ensures
        b == unicode_numeric(c),
{
    c.is_numeric()
}

/// Whether `v` is a Unicode scalar value, the inputs on which
/// `char::from_u32` succeeds.
pub open spec fn is_scalar(v: u32) -> bool {
    v < 0xD800 || (0xE000 <= v && v <= 0x10FFFF)
}

/// Calls `char::from_u32`. The contract states what std documents: the
/// character with that code when the code is a Unicode scalar value, else
/// `None`.
#[verifier::external_body]
pub(crate) fn char_from_u32(v: u32) -> (r: Option<char>)
    ensures
        match r {
            Some(c) => is_scalar(v) && c as u32 == v && c == v as char,
            None => !is_scalar(v),
        },
{
    char::from_u32(v)
}

/// Calls `String::from_iter` on the characters. The contract claims that the
/// string holds exactly these characters.
#[verifier::external_body]
pub(crate) fn string_from_chars(v: &Vec<char>) -> (s: String)
    ensures
        s@ == v@,
{
    v.iter().collect()
}

} // verus!
