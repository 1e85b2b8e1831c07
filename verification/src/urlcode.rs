//! Percent-encoding (RFC 3986) of URL components.
use vstd::prelude::*;
use vstd::utf8::*;
use vstd::string::StringSliceAdditionalSpecFns;
use crate::hexcode::hex_value;

verus! {

/// Bytes that percent-encoding leaves as they are: ASCII letters, digits, `-`, `.`, `_`, `~`.
pub open spec fn unreserved(b: u8) -> bool {
    (48 <= b <= 57) || (65 <= b <= 90) || (97 <= b <= 122) || b == 45 || b == 46 || b == 95 || b
        == 126
}

/// The uppercase hexadecimal digit of `n` (below 16).
pub open spec fn hex_digit_upper(n: int) -> char {
    if n < 10 {
        (48 + n) as char
    } else {
        (55 + n) as char
    }
}

/// Percent-encoding of one byte.
pub open spec fn encode_byte(b: u8) -> Seq<char> {
    if unreserved(b) {
        seq![b as char]
    } else {
        seq!['%', hex_digit_upper((b / 16) as int), hex_digit_upper((b % 16) as int)]
    }
}

/// Percent-encoding of bytes: unreserved bytes as they are, every other byte as `%XX`.
pub open spec fn percent_encode(b: Seq<u8>) -> Seq<char>
    decreases b.len(),
{
    if b.len() == 0 {
        Seq::empty()
    } else {
        encode_byte(b[0]) + percent_encode(b.drop_first())
    }
}

/// Percent-decoding of bytes: `%` and two hex digits stand for one byte; anything else, a
/// lone `%` included, stands for itself.
pub open spec fn percent_decode(b: Seq<u8>) -> Seq<u8>
    decreases b.len(),
{
    if b.len() == 0 {
        Seq::empty()
    } else if b[0] == 37u8 && b.len() >= 3 && hex_value(b[1]) is Some && hex_value(b[2]) is Some {
        seq![(hex_value(b[1])->Some_0 * 16 + hex_value(b[2])->Some_0) as u8] + percent_decode(
            b.skip(3),
        )
    } else {
        seq![b[0]] + percent_decode(b.skip(1))
    }
}

/// `urlencoding::encode`: the percent-encoding of the string's UTF-8 bytes.
#[verifier::external_body]
pub(crate) fn url_encode(s: &str) -> (r: String)
    ensures
        r@ == percent_encode(s.spec_bytes()),
{
    urlencoding::encode(s).into_owned()
}

/// `urlencoding::decode`: percent-decodes the string's bytes, then succeeds exactly when the
/// result is valid UTF-8.
#[verifier::external_body]
pub(crate) fn url_decode_checked(s: &str) -> (r: Option<String>)
    ensures
        r is Some <==> valid_utf8(percent_decode(s.spec_bytes())),
        r matches Some(t) ==> t@ == decode_utf8(percent_decode(s.spec_bytes())),
{
    urlencoding::decode(s).ok().map(|c| c.into_owned())
}

/// Percent-encodes raw bytes, with uppercase hex digits.
pub fn url_encode_bytes(bytes: &[u8]) -> (r: String)
    ensures
        r@ == percent_encode(bytes@),
{
    let mut out: Vec<u8> = Vec::new();
    let mut i: usize = 0;
    assert(bytes@.skip(0) =~= bytes@);
    assert(crate::text::ascii_chars_of(out@) =~= Seq::<char>::empty());
    while i < bytes.len()
        invariant
            0 <= i <= bytes@.len(),
            crate::text::ascii_bytes(out@),
            crate::text::ascii_chars_of(out@) + percent_encode(bytes@.skip(i as int)) == percent_encode(
                bytes@,
            ),
        decreases bytes@.len() - i,
    {
        let b = bytes[i];
        let ghost before = out@;
        let is_unreserved = (48 <= b && b <= 57) || (65 <= b && b <= 90) || (97 <= b && b <= 122)
            || b == 45 || b == 46 || b == 95 || b == 126;
        if is_unreserved {
            out.push(b);
        } else {
            let hi = b / 16;
            let lo = b % 16;
            out.push(37u8);
            out.push(if hi < 10 { 48 + hi } else { 55 + hi });
            out.push(if lo < 10 { 48 + lo } else { 55 + lo });
        }
        proof {
            assert(bytes@.skip(i as int).drop_first() =~= bytes@.skip(i + 1));
            assert(crate::text::ascii_chars_of(out@) =~= crate::text::ascii_chars_of(before)
                + encode_byte(b));
        }
        i = i + 1;
    }
    assert(bytes@.skip(i as int) =~= Seq::<u8>::empty());
    assert(crate::text::ascii_chars_of(out@) =~= percent_encode(bytes@));
    crate::text::ascii_string(out)
}

} // verus!
