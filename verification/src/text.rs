//! Conversions between bytes, characters and strings, with what std documents of them.
use vstd::prelude::*;
use vstd::utf8::*;

verus! {

/// `std::str::from_utf8`: succeeds exactly on valid UTF-8, and then the string holds the
/// characters that the bytes encode.
#[verifier::external_body]
pub(crate) fn str_from_utf8(b: &[u8]) -> (r: Option<&str>)
    ensures
        r is Some <==> valid_utf8(b@),
        r matches Some(s) ==> s@ == decode_utf8(b@),
{
    std::str::from_utf8(b).ok()
}

/// `String::from_utf8`: succeeds exactly on valid UTF-8, holding the characters encoded.
#[verifier::external_body]
pub(crate) fn string_from_utf8(v: Vec<u8>) -> (r: Option<String>)
    ensures
        r is Some <==> valid_utf8(v@),
        r matches Some(s) ==> s@ == decode_utf8(v@),
{
    String::from_utf8(v).ok()
}

/// `str::chars` collected: the characters of the string.
#[verifier::external_body]
pub(crate) fn chars_of(s: &str) -> (v: Vec<char>)
    ensures
        v@ == s@,
{
    s.chars().collect()
}

/// A `String` collected from characters.
#[verifier::external_body]
pub(crate) fn string_of_chars(v: &[char]) -> (s: String)
    ensures
        s@ == v@,
{
    v.iter().collect()
}

/// `char::to_string`: the one-character string.
#[verifier::external_body]
pub(crate) fn char_string(c: char) -> (s: String)
    ensures
        s@ == seq![c],
{
    c.to_string()
}

/// Every byte is ASCII.
pub open spec fn ascii_bytes(s: Seq<u8>) -> bool {
    forall|i: int| 0 <= i < s.len() ==> #[trigger] s[i] < 128
}

/// The characters of ASCII bytes.
pub open spec fn ascii_chars_of(s: Seq<u8>) -> Seq<char> {
    Seq::new(s.len(), |i: int| s[i] as char)
}

/// ASCII bytes are valid UTF-8 and decode to one character each.
pub proof fn lemma_ascii_utf8(s: Seq<u8>)
    requires
        ascii_bytes(s),
    ensures
        valid_utf8(s),
        decode_utf8(s) == ascii_chars_of(s),
    decreases s.len(),
{
    if s.len() > 0 {
        let b = s[0];
        assert(b < 128);
        assert((b & 0x7f) == b) by (bit_vector)
            requires
                b < 128,
        ;
        let rest = s.subrange(1, s.len() as int);
        lemma_ascii_utf8(rest);
        assert(pop_first_scalar(s) =~= rest);
        assert(decode_utf8(s) =~= ascii_chars_of(s));
    } else {
        assert(decode_utf8(s) =~= ascii_chars_of(s));
    }
}

/// The string of ASCII bytes.
pub fn ascii_string(v: Vec<u8>) -> (s: String)
    requires
        ascii_bytes(v@),
    ensures
        s@ == ascii_chars_of(v@),
{
    proof {
        lemma_ascii_utf8(v@);
    }
    match string_from_utf8(v) {
        Some(s) => s,
        None => String::new(),
    }
}

/// The characters of each string.
pub open spec fn strings_view(v: Seq<String>) -> Seq<Seq<char>> {
    v.map_values(|t: String| t@)
}

/// The characters of an optional string.
pub open spec fn opt_string_view(v: Option<String>) -> Option<Seq<char>> {
    match v {
        Some(s) => Some(s@),
        None => None,
    }
}

} // verus!
