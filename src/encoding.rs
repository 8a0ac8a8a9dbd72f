//! Percent-encoding of file names for use in links.

use vstd::prelude::*;
use vstd::utf8::encode_utf8;

verus! {

/// The upper-case hexadecimal digit of `n` (below 16).
pub open spec fn hex_digit(n: int) -> char {
    seq!['0', '1', '2', '3', '4', '5', '6', '7', '8', '9', 'A', 'B', 'C', 'D', 'E', 'F'][n]
}

/// `%XY`, where `XY` is the byte in upper-case hexadecimal.
pub open spec fn percent_byte(b: u8) -> Seq<char> {
    seq!['%', hex_digit(b as int / 16), hex_digit(b as int % 16)]
}

/// The bytes that a link carries as they are: ASCII letters and digits and
/// `*`, `-`, `.`, `_`. Every other byte, reserved characters such as space,
/// `[`, `]`, `#`, `?` and `%` among them, is percent-encoded.
pub open spec fn is_kept_byte(b: u8) -> bool {
    (0x30 <= b <= 0x39) || (0x41 <= b <= 0x5A) || (0x61 <= b <= 0x7A) || b == 0x2A || b == 0x2D
        || b == 0x2E || b == 0x5F
}

/// The byte `b` as it stands in a link.
pub open spec fn url_byte(b: u8) -> Seq<char> {
    if is_kept_byte(b) {
        seq![b as char]
    } else {
        percent_byte(b)
    }
}

pub open spec fn url_bytes(bytes: Seq<u8>) -> Seq<char>
    decreases bytes.len(),
{
    if bytes.len() == 0 {
        Seq::empty()
    } else {
        url_bytes(bytes.drop_last()) + url_byte(bytes.last())
    }
}

/// The percent-encoded form of `s`, safe in an `href` or `src` attribute:
/// its UTF-8 bytes, each kept or written `%XY`.
pub open spec fn url_encoded(s: Seq<char>) -> Seq<char> {
    url_bytes(encode_utf8(s))
}

/// Relies on `percent_encoding::percent_encode_byte`: `%` followed by the
/// byte in two upper-case hexadecimal digits.
#[verifier::external_body]
fn percent_encode_byte(b: u8) -> (r: &'static str)
    ensures
        r@ == percent_byte(b),
{
    percent_encoding::percent_encode_byte(b)
}

/// The percent-encoded form of `s`.
pub(crate) fn url_encode(s: &str) -> (r: String)
    ensures
        r@ == url_encoded(s@),
{
    let bytes = s.as_bytes();
    let mut r = String::new();
    let mut i: usize = 0;
    assert(bytes@.take(0) =~= Seq::<u8>::empty());
    while i < bytes.len()
        invariant
            bytes@ == encode_utf8(s@),
            i <= bytes@.len(),
            r@ == url_bytes(bytes@.take(i as int)),
        decreases bytes.len() - i,
    {
        let b = bytes[i];
        assert(bytes@.take(i + 1).drop_last() =~= bytes@.take(i as int));
        if (0x30 <= b && b <= 0x39) || (0x41 <= b && b <= 0x5A) || (0x61 <= b && b <= 0x7A) || b
            == 0x2A || b == 0x2D || b == 0x2E || b == 0x5F {
            crate::text::push_char(&mut r, b as char);
        } else {
            r.append(percent_encode_byte(b));
        }
        i = i + 1;
    }
    assert(bytes@.take(bytes@.len() as int) =~= bytes@);
    r
}

} // verus!
