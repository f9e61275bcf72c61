//! JSON string literals, written and read by `serde_json`.
//!
//! Keys and values are stored on disk as JSON string literals. Writing one
//! and reading one back are both left to `serde_json`; this module is the
//! whole of what the rest of the crate believes about those two calls.

use vstd::prelude::*;
use vstd::utf8::encode_utf8;

verus! {

/// `"`
pub const QUOTE: u8 = 0x22;

/// `\`
pub const BACKSLASH: u8 = 0x5C;

/// The ASCII code of the lower-case hexadecimal digit for `n`.
pub open spec fn hex_digit(n: int) -> u8 {
    if n < 10 {
        (0x30 + n) as u8
    } else {
        (0x57 + n) as u8
    }
}

/// How one byte of a string appears inside a JSON string literal: the quote,
/// the backslash and the control characters are escaped, every other byte
/// stands for itself.
pub open spec fn escape_byte(b: u8) -> Seq<u8> {
    if b == 0x22 {
        seq![0x5Cu8, 0x22u8]  // \"
    } else if b == 0x5C {
        seq![0x5Cu8, 0x5Cu8]  // \\
    } else if b == 0x08 {
        seq![0x5Cu8, 0x62u8]  // \b
    } else if b == 0x09 {
        seq![0x5Cu8, 0x74u8]  // \t
    } else if b == 0x0A {
        seq![0x5Cu8, 0x6Eu8]  // \n
    } else if b == 0x0C {
        seq![0x5Cu8, 0x66u8]  // \f
    } else if b == 0x0D {
        seq![0x5Cu8, 0x72u8]  // \r
    } else if b < 0x20 {
        // \u00XX
        seq![0x5Cu8, 0x75u8, 0x30u8, 0x30u8, hex_digit(b as int / 16), hex_digit(b as int % 16)]
    } else {
        seq![b]
    }
}

/// The escaped form of a run of bytes, byte by byte.
pub open spec fn escape_bytes(bytes: Seq<u8>) -> Seq<u8>
    decreases bytes.len(),
{
    if bytes.len() == 0 {
        Seq::<u8>::empty()
    } else {
        escape_bytes(bytes.drop_last()) + escape_byte(bytes.last())
    }
}

/// The JSON string literal for `s`: its UTF-8 bytes, escaped, between two
/// quotes.
pub open spec fn json_string_text(s: Seq<char>) -> Seq<u8> {
    seq![QUOTE] + escape_bytes(encode_utf8(s)) + seq![QUOTE]
}

/// What `serde_json::from_slice::<String>` makes of `text`: the string it
/// returns, or `None` where it reports an error.
pub uninterp spec fn json_string_value(text: Seq<u8>) -> Option<Seq<char>>;

/// The error type of `serde_json`, carried through unread.
#[verifier::external_type_specification]
#[verifier::external_body]
pub struct ExJsonError(serde_json::Error);

/// Calls `serde_json::to_vec` on a string slice.
///
/// Believed, not proved: the call succeeds; it returns the literal that
/// [`json_string_text`] describes (an opening quote, each byte of the string
/// escaped by `serde_json`'s table, a closing quote); and
/// `serde_json::from_slice::<String>` reads that literal back as the string
/// it was made from.
#[verifier::external_body]
pub(crate) fn write_json_string(s: &str) -> (r: Result<Vec<u8>, serde_json::Error>)
    ensures
        r is Ok,
        r->Ok_0@ == json_string_text(s@),
        json_string_value(r->Ok_0@) == Some(s@),
{
    serde_json::to_vec(s)
}

/// Calls `serde_json::from_slice::<String>`.
///
/// Believed, not proved: the outcome depends on the bytes alone, so it can be
/// given the name [`json_string_value`].
#[verifier::external_body]
pub(crate) fn read_json_string(text: &[u8]) -> (r: Result<String, serde_json::Error>)
    ensures
        r is Ok <==> json_string_value(text@) is Some,
        r matches Ok(s) ==> json_string_value(text@) == Some(s@),
{
    serde_json::from_slice::<String>(text)
}

} // verus!
