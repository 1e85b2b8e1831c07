//! Magnet links (BEP 9): `magnet:?xt=urn:btih:<hex|base32>&dn=<name>&tr=<tracker>&...`
use vstd::prelude::*;
use vstd::arithmetic::power2::{lemma2_to64, pow2};
use vstd::utf8::*;
use vstd::string::StringSliceAdditionalSpecFns;
use crate::decimal::{nat_string, nat_text, parse_uint, parse_uint_text};
use crate::endian::copy_into;
use crate::error::CoreError;
use crate::hexcode::{hex_decode, hex_decodes, hex_digit_lower, hex_encode, hex_lower, hex_value};
use crate::text::{ascii_chars_of, char_string, chars_of, string_of_chars, strings_view};
use crate::urlcode::{encode_byte, hex_digit_upper, percent_decode, percent_encode, unreserved, url_decode_checked, url_encode};

verus! {

broadcast use vstd::seq_lib::group_seq_properties;

// ─── Text ────────────────────────────────────────────────────────────────────
/// Unicode White_Space, the characters that `char::is_whitespace` accepts.
pub open spec fn is_ws(c: char) -> bool {
    let u = c as u32;
    (9 <= u <= 13) || u == 32 || u == 0x85 || u == 0xA0 || u == 0x1680 || (0x2000 <= u <= 0x200A)
        || u == 0x2028 || u == 0x2029 || u == 0x202F || u == 0x205F || u == 0x3000
}

fn is_ws_char(c: char) -> (r: bool)
    ensures
        r == is_ws(c),
{
    let u = c as u32;
    (9 <= u && u <= 13) || u == 32 || u == 0x85 || u == 0xA0 || u == 0x1680 || (0x2000 <= u && u
        <= 0x200A) || u == 0x2028 || u == 0x2029 || u == 0x202F || u == 0x205F || u == 0x3000
}

pub open spec fn trim_start(s: Seq<char>) -> Seq<char>
    decreases s.len(),
{
    if s.len() > 0 && is_ws(s[0]) {
        trim_start(s.drop_first())
    } else {
        s
    }
}

pub open spec fn trim_end(s: Seq<char>) -> Seq<char>
    decreases s.len(),
{
    if s.len() > 0 && is_ws(s.last()) {
        trim_end(s.drop_last())
    } else {
        s
    }
}

/// `str::trim`: whitespace removed from both ends.
pub open spec fn trim(s: Seq<char>) -> Seq<char> {
    trim_end(trim_start(s))
}

proof fn lemma_trim_start_is(s: Seq<char>, k: int)
    requires
        0 <= k <= s.len(),
        forall|i: int| 0 <= i < k ==> is_ws(s[i]),
        k == s.len() || !is_ws(s[k]),
    ensures
        trim_start(s) == s.skip(k),
    decreases k,
{
    if k > 0 {
        lemma_trim_start_is(s.drop_first(), k - 1);
        assert(s.drop_first().skip(k - 1) =~= s.skip(k));
    } else {
        assert(s.skip(0) =~= s);
    }
}

proof fn lemma_trim_end_is(s: Seq<char>, k: int)
    requires
        0 <= k <= s.len(),
        forall|i: int| k <= i < s.len() ==> is_ws(s[i]),
        k == 0 || !is_ws(s[k - 1]),
    ensures
        trim_end(s) == s.take(k),
    decreases s.len() - k,
{
    if k < s.len() {
        lemma_trim_end_is(s.drop_last(), k);
        assert(s.drop_last().take(k) =~= s.take(k));
    } else {
        assert(s.take(k) =~= s);
    }
}

/// Bounds of the trimmed part of `s[from..to]`.
fn trim_bounds(s: &[char], from: usize, to: usize) -> (r: (usize, usize))
    requires
        from <= to <= s@.len(),
    ensures
        from <= r.0 <= r.1 <= to,
        s@.subrange(r.0 as int, r.1 as int) == trim(s@.subrange(from as int, to as int)),
{
    let ghost t = s@.subrange(from as int, to as int);
    let mut lo = from;
    while lo < to && is_ws_char(s[lo])
        invariant
            from <= lo <= to <= s@.len(),
            forall|i: int| from <= i < lo ==> is_ws(s@[i]),
        decreases to - lo,
    {
        lo = lo + 1;
    }
    proof {
        lemma_trim_start_is(t, lo - from);
    }
    let mut hi = to;
    while hi > lo && is_ws_char(s[hi - 1])
        invariant
            from <= lo <= hi <= to <= s@.len(),
            forall|i: int| hi <= i < to ==> is_ws(s@[i]),
        decreases hi - lo,
    {
        hi = hi - 1;
    }
    proof {
        let u = t.skip(lo - from);
        assert(u =~= s@.subrange(lo as int, to as int));
        lemma_trim_end_is(u, hi - lo);
        assert(u.take(hi - lo) =~= s@.subrange(lo as int, hi as int));
    }
    (lo, hi)
}

/// First index at or after `i` holding `c`, or the length.
pub open spec fn find_from(s: Seq<char>, i: int, c: char) -> int
    decreases s.len() - i,
{
    if i < 0 || i >= s.len() {
        s.len() as int
    } else if s[i] == c {
        i
    } else {
        find_from(s, i + 1, c)
    }
}

proof fn lemma_find_from_is(s: Seq<char>, i: int, c: char, j: int)
    requires
        0 <= i <= j <= s.len(),
        forall|k: int| i <= k < j ==> s[k] != c,
        j == s.len() || s[j] == c,
    ensures
        find_from(s, i, c) == j,
    decreases j - i,
{
    if i < j {
        lemma_find_from_is(s, i + 1, c, j);
    }
}

proof fn lemma_find_from_shift(s: Seq<char>, d: int, i: int, c: char)
    requires
        0 <= d <= s.len(),
        0 <= i <= s.len() - d,
    ensures
        find_from(s.skip(d), i, c) == find_from(s, i + d, c) - d,
    decreases s.len() - d - i,
{
    if i < s.len() - d && s.skip(d)[i] != c {
        lemma_find_from_shift(s, d, i + 1, c);
    }
}

proof fn lemma_find_from_range(s: Seq<char>, i: int, c: char)
    requires
        0 <= i <= s.len(),
    ensures
        i <= find_from(s, i, c) <= s.len(),
        find_from(s, i, c) < s.len() ==> s[find_from(s, i, c)] == c,
        forall|k: int| i <= k < find_from(s, i, c) ==> s[k] != c,
    decreases s.len() - i,
{
    if i < s.len() && s[i] != c {
        lemma_find_from_range(s, i + 1, c);
    }
}

/// `str::split(c)`: the pieces between occurrences of `c`.
pub open spec fn split_on(s: Seq<char>, c: char) -> Seq<Seq<char>>
    decreases s.len(),
{
    let i = find_from(s, 0, c);
    if 0 <= i < s.len() {
        seq![s.take(i)] + split_on(s.skip(i + 1), c)
    } else {
        seq![s]
    }
}

/// A `key=value` piece: the key before the first `=`, the value after it (empty without one).
pub open spec fn param_of(part: Seq<char>) -> (Seq<char>, Seq<char>) {
    let i = find_from(part, 0, '=');
    if i >= part.len() {
        (part, Seq::empty())
    } else {
        (part.take(i), part.skip(i + 1))
    }
}

/// Each piece read as a parameter.
pub open spec fn params_of(pieces: Seq<Seq<char>>) -> Seq<(Seq<char>, Seq<char>)> {
    pieces.map_values(|p: Seq<char>| param_of(p))
}

/// The parameters of a query string, in order.
pub open spec fn query_params(q: Seq<char>) -> Seq<(Seq<char>, Seq<char>)> {
    params_of(split_on(q, '&'))
}

/// Index of the first parameter at or after `i` with key `key`, or the count.
pub open spec fn key_index(ps: Seq<(Seq<char>, Seq<char>)>, key: Seq<char>, i: int) -> int
    decreases ps.len() - i,
{
    if i < 0 || i >= ps.len() {
        ps.len() as int
    } else if ps[i].0 == key {
        i
    } else {
        key_index(ps, key, i + 1)
    }
}

/// The value of the first parameter with key `key`.
pub open spec fn first_value(ps: Seq<(Seq<char>, Seq<char>)>, key: Seq<char>) -> Option<Seq<char>> {
    let k = key_index(ps, key, 0);
    if k < ps.len() {
        Some(ps[k].1)
    } else {
        None
    }
}

/// The values of all parameters with key `key`, in order.
pub open spec fn values_of(ps: Seq<(Seq<char>, Seq<char>)>, key: Seq<char>) -> Seq<Seq<char>>
    decreases ps.len(),
{
    if ps.len() == 0 {
        Seq::empty()
    } else if ps.last().0 == key {
        values_of(ps.drop_last(), key).push(ps.last().1)
    } else {
        values_of(ps.drop_last(), key)
    }
}

/// A URL-decoded value; the value as it is when its decoding is no valid UTF-8.
pub open spec fn url_decoded(v: Seq<char>) -> Seq<char> {
    let b = percent_decode(encode_utf8(v));
    if valid_utf8(b) {
        decode_utf8(b)
    } else {
        v
    }
}

/// Each value URL-decoded.
pub open spec fn all_url_decoded(vs: Seq<Seq<char>>) -> Seq<Seq<char>> {
    vs.map_values(|v: Seq<char>| url_decoded(v))
}

// ─── Base32 ──────────────────────────────────────────────────────────────────
/// The uppercase form of a string, as `str::to_uppercase` gives it (Unicode case mapping).
pub uninterp spec fn uppercase(s: Seq<char>) -> Seq<char>;

/// ASCII uppercase: `a`–`z` become `A`–`Z`, every other character stays.
pub open spec fn ascii_upper(s: Seq<char>) -> Seq<char> {
    Seq::new(
        s.len(),
        |i: int| if 'a' <= s[i] <= 'z' { ((s[i] as u32) - 32) as char } else { s[i] },
    )
}

/// `str::to_uppercase`: the Unicode uppercase form; on ASCII text, ASCII uppercase.
#[verifier::external_body]
fn to_uppercase(s: &str) -> (r: String)
    ensures
        r@ == uppercase(s@),
        is_ascii_chars(s@) ==> r@ == ascii_upper(s@),
{
    s.to_uppercase()
}

/// The uppercase form of a text: ASCII uppercase for ASCII text, else the Unicode mapping.
pub open spec fn upper_text(t: Seq<char>) -> Seq<char> {
    if is_ascii_chars(t) {
        ascii_upper(t)
    } else {
        uppercase(t)
    }
}

/// Value of a base32 (RFC 4648) letter: `A`–`Z` are 0–25, `2`–`7` are 26–31.
pub open spec fn b32_value(c: u8) -> Option<nat> {
    if 65 <= c <= 90 {
        Some((c - 65) as nat)
    } else if 50 <= c <= 55 {
        Some((c - 24) as nat)
    } else {
        None
    }
}

/// Base32 decoding of `u`, `bits` pending in a count of `count`, `out` written so far: five
/// bits per letter, each full byte written as soon as it is there.
pub open spec fn b32_run(u: Seq<u8>, bits: nat, count: nat, out: Seq<u8>) -> Result<Seq<u8>, Seq<char>>
    decreases u.len(),
{
    if u.len() == 0 {
        Ok(out)
    } else {
        match b32_value(u[0]) {
            None => Err("invalid base32 char: "@ + seq![u[0] as char]),
            Some(v) => {
                let b2 = bits * 32 + v;
                let c2 = count + 5;
                if c2 >= 8 {
                    let c3 = (c2 - 8) as nat;
                    b32_run(
                        u.drop_first(),
                        b2 % pow2(c3),
                        c3,
                        out.push((b2 / pow2(c3)) as u8),
                    )
                } else {
                    b32_run(u.drop_first(), b2, c2, out)
                }
            },
        }
    }
}

/// Base32 decoding of the bytes of an uppercased hash, which must give 20 bytes.
pub open spec fn base32_hash(u: Seq<u8>) -> Result<Seq<u8>, Seq<char>> {
    match b32_run(u, 0, 0, Seq::empty()) {
        Ok(out) => if out.len() != 20 {
            Err(
                "base32 decoded to "@ + ascii_chars_of(nat_text(out.len())) + " bytes, expected 20"@,
            )
        } else {
            Ok(out)
        },
        Err(e) => Err(e),
    }
}

/// The info hash that hash text `h` stands for: after trimming, 40 bytes of hex or 32 of base32
/// (read uppercased).
pub open spec fn info_hash_of(h: Seq<char>) -> Result<Seq<u8>, Seq<char>> {
    let t = trim(h);
    let b = encode_utf8(t);
    if b.len() == 40 {
        match hex_decodes(b) {
            Some(v) => Ok(v),
            None => Err("invalid hex hash: "@ + t),
        }
    } else if b.len() == 32 {
        base32_hash(encode_utf8(upper_text(t)))
    } else {
        Err(
            "hash length "@ + ascii_chars_of(nat_text(b.len())) + " invalid (expected 40 or 32)"@,
        )
    }
}

// ─── Magnet links ────────────────────────────────────────────────────────────
#[derive(Debug, Clone)]
pub struct MagnetLink {
    /// Raw 20-byte info hash.
    pub info_hash: [u8; 20],
    /// Display name (dn parameter).
    pub display_name: Option<String>,
    /// Tracker URLs (tr parameters).
    pub trackers: Vec<String>,
    /// Exact length hint (xl parameter).
    pub exact_length: Option<u64>,
}

/// The model of a magnet link.
pub struct MagnetView {
    pub info_hash: Seq<u8>,
    pub display_name: Option<Seq<char>>,
    pub trackers: Seq<Seq<char>>,
    pub exact_length: Option<u64>,
}

impl View for MagnetLink {
    type V = MagnetView;

    open spec fn view(&self) -> MagnetView {
        MagnetView {
            info_hash: self.info_hash@,
            display_name: match self.display_name {
                Some(s) => Some(s@),
                None => None,
            },
            trackers: strings_view(self.trackers@),
            exact_length: self.exact_length,
        }
    }
}

pub open spec fn magnet_prefix() -> Seq<char> {
    seq!['m', 'a', 'g', 'n', 'e', 't', ':', '?']
}

pub open spec fn btih_prefix() -> Seq<char> {
    seq!['u', 'r', 'n', ':', 'b', 't', 'i', 'h', ':']
}

/// What parsing a magnet URI gives: the link, or the reason it is refused.
pub open spec fn spec_parse_magnet(uri: Seq<char>) -> Result<MagnetView, Seq<char>> {
    let u = trim(uri);
    if !(u.len() >= 8 && u.take(8) == magnet_prefix()) {
        Err("must start with 'magnet:?'"@)
    } else {
        let ps = query_params(u.skip(8));
        match first_value(ps, seq!['x', 't']) {
            None => Err("missing xt parameter"@),
            Some(xt) => if !(xt.len() >= 9 && xt.take(9) == btih_prefix()) {
                Err("unsupported xt: "@ + xt)
            } else {
                match info_hash_of(xt.skip(9)) {
                    Err(e) => Err(e),
                    Ok(h) => Ok(
                        MagnetView {
                            info_hash: h,
                            display_name: match first_value(ps, seq!['d', 'n']) {
                                Some(v) => Some(url_decoded(v)),
                                None => None,
                            },
                            trackers: all_url_decoded(values_of(ps, seq!['t', 'r'])),
                            exact_length: match first_value(ps, seq!['x', 'l']) {
                                Some(v) => match parse_uint_text(encode_utf8(v), u64::MAX as int) {
                                    Some(n) => Some(n as u64),
                                    None => None,
                                },
                                None => None,
                            },
                        },
                    ),
                }
            },
        }
    }
}


// ─── Query strings ───────────────────────────────────────────────────────────
/// Index of the first `c` at or after `from`, or the length.
fn find_char(s: &[char], from: usize, c: char) -> (r: usize)
    requires
        from <= s@.len(),
    ensures
        r == find_from(s@, from as int, c),
        from <= r <= s@.len(),
{
    let mut i = from;
    while i < s.len() && s[i] != c
        invariant
            from <= i <= s@.len(),
            forall|k: int| from <= k < i ==> s@[k] != c,
        decreases s@.len() - i,
    {
        i = i + 1;
    }
    proof {
        lemma_find_from_is(s@, from as int, c, i as int);
    }
    i
}

/// The characters of `s[a..b]`.
fn chars_in(s: &[char], a: usize, b: usize) -> (r: Vec<char>)
    requires
        a <= b <= s@.len(),
    ensures
        r@ == s@.subrange(a as int, b as int),
{
    let mut v: Vec<char> = Vec::new();
    let mut i = a;
    while i < b
        invariant
            a <= i <= b <= s@.len(),
            v@ == s@.subrange(a as int, i as int),
        decreases b - i,
    {
        v.push(s[i]);
        i = i + 1;
    }
    v
}

/// Splitting the rest of `s` from `i` on: the piece up to the next `c`, then the rest after it.
proof fn lemma_split_step(s: Seq<char>, i: int, c: char)
    requires
        0 <= i <= s.len(),
    ensures
        ({
            let j = find_from(s, i, c);
            split_on(s.skip(i), c) == if j < s.len() {
                seq![s.subrange(i, j)] + split_on(s.skip(j + 1), c)
            } else {
                seq![s.subrange(i, s.len() as int)]
            }
        }),
{
    lemma_find_from_shift(s, i, 0, c);
    lemma_find_from_range(s, i, c);
    let j = find_from(s, i, c);
    let t = s.skip(i);
    if j < s.len() {
        assert(t.take(j - i) =~= s.subrange(i, j));
        assert(t.skip(j - i + 1) =~= s.skip(j + 1));
    } else {
        assert(t =~= s.subrange(i, s.len() as int));
    }
}

proof fn lemma_params_of_cons(a: Seq<char>, rest: Seq<Seq<char>>)
    ensures
        params_of(seq![a] + rest) == seq![param_of(a)] + params_of(rest),
{
    assert(params_of(seq![a] + rest) =~= seq![param_of(a)] + params_of(rest));
}

/// The characters of each key and value.
pub open spec fn params_view(ps: Seq<(Vec<char>, Vec<char>)>) -> Seq<(Seq<char>, Seq<char>)> {
    ps.map_values(|p: (Vec<char>, Vec<char>)| (p.0@, p.1@))
}

/// Reads `s[a..b]` as a `key=value` parameter.
fn param_in(s: &[char], a: usize, b: usize) -> (r: (Vec<char>, Vec<char>))
    requires
        a <= b <= s@.len(),
    ensures
        (r.0@, r.1@) == param_of(s@.subrange(a as int, b as int)),
{
    let piece = chars_in(s, a, b);
    let e = find_char(&piece, 0, '=');
    if e < piece.len() {
        let k = chars_in(&piece, 0, e);
        let v = chars_in(&piece, e + 1, piece.len());
        proof {
            assert(k@ =~= piece@.take(e as int));
            assert(v@ =~= piece@.skip(e + 1));
        }
        (k, v)
    } else {
        (piece, Vec::new())
    }
}

/// Reads a query string `key=value&key=value…` into its parameters, in order.
fn parse_query_string(q: &[char]) -> (r: Vec<(Vec<char>, Vec<char>)>)
    ensures
        params_view(r@) == query_params(q@),
{
    let mut out: Vec<(Vec<char>, Vec<char>)> = Vec::new();
    let mut i: usize = 0;
    assert(q@.skip(0) =~= q@);
    assert(params_view(out@) =~= Seq::<(Seq<char>, Seq<char>)>::empty());
    loop
        invariant_except_break
            0 <= i <= q@.len(),
            params_view(out@) + params_of(split_on(q@.skip(i as int), '&')) == query_params(q@),
        ensures
            params_view(out@) == query_params(q@),
        decreases q@.len() - i,
    {
        let j = find_char(q, i, '&');
        let p = param_in(q, i, j);
        let ghost before = out@;
        proof {
            lemma_split_step(q@, i as int, '&');
            if j < q@.len() {
                lemma_params_of_cons(q@.subrange(i as int, j as int), split_on(q@.skip(j + 1), '&'));
            } else {
                lemma_params_of_cons(q@.subrange(i as int, j as int), Seq::empty());
                assert(params_of(Seq::<Seq<char>>::empty()) =~= Seq::empty());
            }
        }
        out.push(p);
        proof {
            assert(params_view(out@) =~= params_view(before).push(param_of(q@.subrange(i as int, j as int))));
        }
        if j >= q.len() {
            assert(params_view(out@) =~= query_params(q@));
            break;
        }
        i = j + 1;
    }
    out
}

/// The key is the two characters `a`, `b`.
fn key_is(k: &Vec<char>, a: char, b: char) -> (r: bool)
    ensures
        r == (k@ == seq![a, b]),
{
    let r = k.len() == 2 && k[0] == a && k[1] == b;
    proof {
        if r {
            assert(k@ =~= seq![a, b]);
        }
    }
    r
}

proof fn lemma_key_index_is(ps: Seq<(Seq<char>, Seq<char>)>, key: Seq<char>, i: int, j: int)
    requires
        0 <= i <= j <= ps.len(),
        forall|k: int| i <= k < j ==> ps[k].0 != key,
        j == ps.len() || ps[j].0 == key,
    ensures
        key_index(ps, key, i) == j,
    decreases j - i,
{
    if i < j {
        lemma_key_index_is(ps, key, i + 1, j);
    }
}

/// Position of the first parameter whose key is `a` `b`, or the count.
fn key_position(ps: &Vec<(Vec<char>, Vec<char>)>, a: char, b: char) -> (r: usize)
    ensures
        r == key_index(params_view(ps@), seq![a, b], 0),
        r <= ps@.len(),
{
    let mut i: usize = 0;
    while i < ps.len() && !key_is(&ps[i].0, a, b)
        invariant
            0 <= i <= ps@.len(),
            forall|k: int| 0 <= k < i ==> params_view(ps@)[k].0 != seq![a, b],
        decreases ps@.len() - i,
    {
        i = i + 1;
    }
    proof {
        lemma_key_index_is(params_view(ps@), seq![a, b], 0, i as int);
    }
    i
}

/// URL-decodes a value; keeps it as it is where the decoding is no valid UTF-8.
fn url_decode(v: &[char]) -> (r: String)
    ensures
        r@ == url_decoded(v@),
{
    let s = string_of_chars(v);
    match url_decode_checked(s.as_str()) {
        Some(d) => d,
        None => s,
    }
}

// ─── Info hashes ─────────────────────────────────────────────────────────────
/// 2 to the power `n`, for `n` below 8.
fn pow2_below8(n: u64) -> (r: u64)
    requires
        n < 8,
    ensures
        r == pow2(n as nat),
{
    proof {
        lemma2_to64();
    }
    if n == 0 {
        1
    } else if n == 1 {
        2
    } else if n == 2 {
        4
    } else if n == 3 {
        8
    } else if n == 4 {
        16
    } else if n == 5 {
        32
    } else if n == 6 {
        64
    } else {
        128
    }
}

/// RFC 4648 base32 decoding of the bytes of an uppercased hash into 20 bytes.
fn decode_base32(u: &[u8]) -> (r: Result<Vec<u8>, String>)
    ensures
        match base32_hash(u@) {
            Ok(v) => r matches Ok(x) && x@ == v,
            Err(e) => r matches Err(m) && m@ == e,
        },
{
    let mut bits: u64 = 0;
    let mut count: u64 = 0;
    let mut out: Vec<u8> = Vec::new();
    let mut i: usize = 0;
    proof {
        lemma2_to64();
        assert(u@.skip(0) =~= u@);
    }
    while i < u.len()
        invariant
            0 <= i <= u@.len(),
            count < 8,
            bits < pow2(count as nat),
            b32_run(u@.skip(i as int), bits as nat, count as nat, out@) == b32_run(
                u@,
                0,
                0,
                Seq::empty(),
            ),
        decreases u@.len() - i,
    {
        proof {
            lemma2_to64();
            assert(u@.skip(i as int)[0] == u@[i as int]);
            assert(u@.skip(i as int).drop_first() =~= u@.skip(i + 1));
        }
        let c = u[i];
        let val: u64 = if 65 <= c && c <= 90 {
            (c - 65) as u64
        } else if 50 <= c && c <= 55 {
            (c - 24) as u64
        } else {
            let mut m = String::from_str("invalid base32 char: ");
            let ch = char_string(c as char);
            m.append(ch.as_str());
            return Err(m);
        };
        let b2 = bits * 32 + val;
        let c2 = count + 5;
        if c2 >= 8 {
            let c3 = c2 - 8;
            let p = pow2_below8(c3);
            proof {
                assert(pow2(count as nat) * 32 == p * 256);
                assert(b2 < p * 256) by (nonlinear_arith)
                    requires
                        b2 == bits * 32 + val,
                        val < 32,
                        bits < pow2(count as nat),
                        pow2(count as nat) * 32 == p * 256,
                ;
                assert(b2 / p < 256) by (nonlinear_arith)
                    requires
                        b2 < p * 256,
                        p > 0,
                ;
                assert(b2 % p < p) by (nonlinear_arith)
                    requires
                        p > 0,
                ;
            }
            out.push((b2 / p) as u8);
            bits = b2 % p;
            count = c3;
        } else {
            proof {
                assert(pow2(count as nat) * 32 == pow2(c2 as nat));
            }
            bits = b2;
            count = c2;
        }
        i = i + 1;
    }
    assert(u@.skip(i as int) =~= Seq::<u8>::empty());
    if out.len() != 20 {
        let mut m = String::from_str("base32 decoded to ");
        let n = nat_string(out.len() as u64);
        m.append(n.as_str());
        m.append(" bytes, expected 20");
        return Err(m);
    }
    Ok(out)
}

/// Decodes a hex (40 bytes) or base32 (32 bytes) info hash, after trimming.
fn decode_info_hash(h: &[char]) -> (r: Result<[u8; 20], String>)
    ensures
        match info_hash_of(h@) {
            Ok(v) => r matches Ok(a) && a@ == v,
            Err(e) => r matches Err(m) && m@ == e,
        },
{
    let (lo, hi) = trim_bounds(h, 0, h.len());
    assert(h@.subrange(0, h@.len() as int) =~= h@);
    let t = string_of_chars(&h[lo..hi]);
    let n = t.as_str().as_bytes().len();
    if n == 40 {
        match hex_decode(t.as_str()) {
            Ok(bytes) => {
                assert(encode_utf8(t@).len() == 40);
                assert(hex_decodes(encode_utf8(t@)) is Some);
                assert(bytes@.len() == 20);
                let mut a = [0u8; 20];
                copy_into(&mut a, bytes.as_slice(), 0);
                assert(bytes@.subrange(0, 20) =~= bytes@);
                Ok(a)
            },
            Err(_) => {
                let mut m = String::from_str("invalid hex hash: ");
                m.append(t.as_str());
                Err(m)
            },
        }
    } else if n == 32 {
        let up = to_uppercase(t.as_str());
        match decode_base32(up.as_str().as_bytes()) {
            Ok(bytes) => {
                let mut a = [0u8; 20];
                copy_into(&mut a, bytes.as_slice(), 0);
                assert(bytes@.subrange(0, 20) =~= bytes@);
                Ok(a)
            },
            Err(m) => Err(m),
        }
    } else {
        let mut m = String::from_str("hash length ");
        let d = nat_string(n as u64);
        m.append(d.as_str());
        m.append(" invalid (expected 40 or 32)");
        Err(m)
    }
}

// ─── Parsing and writing ─────────────────────────────────────────────────────
/// `s[at..end]` starts with `p`.
fn starts_with_at(s: &[char], at: usize, end: usize, p: &[char]) -> (r: bool)
    requires
        at <= end <= s@.len(),
    ensures
        r == (end - at >= p@.len() && s@.subrange(at as int, at + p@.len()) == p@),
{
    if end - at < p.len() {
        return false;
    }
    let mut k: usize = 0;
    while k < p.len()
        invariant
            0 <= k <= p@.len(),
            at + p@.len() <= end <= s@.len(),
            forall|j: int| 0 <= j < k ==> s@[at + j] == p@[j],
        decreases p@.len() - k,
    {
        if s[at + k] != p[k] {
            assert(s@.subrange(at as int, at + p@.len())[k as int] != p@[k as int]);
            return false;
        }
        k = k + 1;
    }
    assert(s@.subrange(at as int, at + p@.len()) =~= p@);
    true
}

/// The URL-decoded values of every parameter whose key is `a` `b`, in order.
fn values_decoded(ps: &Vec<(Vec<char>, Vec<char>)>, a: char, b: char) -> (r: Vec<String>)
    ensures
        strings_view(r@) == all_url_decoded(values_of(params_view(ps@), seq![a, b])),
{
    let ghost pv = params_view(ps@);
    let mut out: Vec<String> = Vec::new();
    let mut i: usize = 0;
    assert(pv.take(0) =~= Seq::<(Seq<char>, Seq<char>)>::empty());
    assert(strings_view(out@) =~= Seq::<Seq<char>>::empty());
    assert(all_url_decoded(Seq::<Seq<char>>::empty()) =~= Seq::<Seq<char>>::empty());
    while i < ps.len()
        invariant
            0 <= i <= ps@.len(),
            pv == params_view(ps@),
            strings_view(out@) == all_url_decoded(values_of(pv.take(i as int), seq![a, b])),
        decreases ps@.len() - i,
    {
        let ghost before = out@;
        proof {
            assert(pv.take(i + 1).drop_last() =~= pv.take(i as int));
            assert(pv.take(i + 1).last() == pv[i as int]);
        }
        if key_is(&ps[i].0, a, b) {
            let d = url_decode(ps[i].1.as_slice());
            out.push(d);
            proof {
                let vs = values_of(pv.take(i as int), seq![a, b]);
                assert(strings_view(out@) =~= strings_view(before).push(d@));
                assert(all_url_decoded(vs.push(pv[i as int].1)) =~= all_url_decoded(vs).push(
                    url_decoded(pv[i as int].1),
                ));
            }
        }
        i = i + 1;
    }
    assert(pv.take(i as int) =~= pv);
    out
}

/// `magnet:?xt=urn:btih:`: how every URI this library writes begins.
pub open spec fn uri_head() -> Seq<char> {
    magnet_prefix() + seq!['x', 't', '='] + btih_prefix()
}

/// The `&tr=` parameters of a URI, in order.
pub open spec fn trackers_part(ts: Seq<Seq<char>>) -> Seq<char>
    decreases ts.len(),
{
    if ts.len() == 0 {
        Seq::empty()
    } else {
        trackers_part(ts.drop_last()) + seq!['&', 't', 'r', '='] + percent_encode(
            encode_utf8(ts.last()),
        )
    }
}

/// The URI of a magnet link: the info hash in lowercase hex, then the name and the trackers,
/// percent-encoded.
pub open spec fn magnet_uri(m: MagnetView) -> Seq<char> {
    uri_head() + hex_lower(m.info_hash) + uri_rest(m)
}

/// The name to show: the display name, or `Unknown` without one.
pub open spec fn shown_name(m: MagnetView) -> Seq<char> {
    match m.display_name {
        Some(d) => d,
        None => "Unknown"@,
    }
}

impl MagnetLink {
    pub fn parse(uri: &str) -> (r: Result<Self, CoreError>)
        ensures
            match spec_parse_magnet(uri@) {
                Ok(m) => r matches Ok(l) && l@ == m,
                Err(e) => r matches Err(CoreError::MagnetInvalid(msg)) && msg@ == e,
            },
    {
        let cs = chars_of(uri);
        let (lo, hi) = trim_bounds(cs.as_slice(), 0, cs.len());
        assert(cs@.subrange(0, cs@.len() as int) =~= cs@);
        let ghost u = cs@.subrange(lo as int, hi as int);
        let head = ['m', 'a', 'g', 'n', 'e', 't', ':', '?'];
        assert(head@ =~= magnet_prefix());
        if !starts_with_at(cs.as_slice(), lo, hi, head.as_slice()) {
            proof {
                if u.len() >= 8 {
                    assert(u.take(8) =~= cs@.subrange(lo as int, lo + 8));
                }
            }
            return Err(CoreError::MagnetInvalid(String::from_str("must start with 'magnet:?'")));
        }
        assert(u.take(8) =~= cs@.subrange(lo as int, lo + 8));
        let query = &cs.as_slice()[lo + 8..hi];
        assert(query@ =~= u.skip(8));
        let ps = parse_query_string(query);
        let ghost pv = params_view(ps@);
        let k = key_position(&ps, 'x', 't');
        if k >= ps.len() {
            return Err(CoreError::MagnetInvalid(String::from_str("missing xt parameter")));
        }
        let xt = ps[k].1.as_slice();
        assert(xt@ == pv[k as int].1);
        let urn = ['u', 'r', 'n', ':', 'b', 't', 'i', 'h', ':'];
        assert(urn@ =~= btih_prefix());
        if !starts_with_at(xt, 0, xt.len(), urn.as_slice()) {
            proof {
                if xt@.len() >= 9 {
                    assert(xt@.take(9) =~= xt@.subrange(0, 9));
                }
            }
            let mut m = String::from_str("unsupported xt: ");
            let x = string_of_chars(xt);
            m.append(x.as_str());
            return Err(CoreError::MagnetInvalid(m));
        }
        assert(xt@.take(9) =~= xt@.subrange(0, 9));
        let hash_chars = &xt[9..xt.len()];
        assert(hash_chars@ =~= xt@.skip(9));
        let info_hash = match decode_info_hash(hash_chars) {
            Ok(a) => a,
            Err(m) => return Err(CoreError::MagnetInvalid(m)),
        };
        let kd = key_position(&ps, 'd', 'n');
        let display_name = if kd < ps.len() {
            Some(url_decode(ps[kd].1.as_slice()))
        } else {
            None
        };
        let trackers = values_decoded(&ps, 't', 'r');
        let kl = key_position(&ps, 'x', 'l');
        let exact_length = if kl < ps.len() {
            let v = string_of_chars(ps[kl].1.as_slice());
            parse_uint(v.as_str().as_bytes(), u64::MAX)
        } else {
            None
        };
        Ok(MagnetLink { info_hash, display_name, trackers, exact_length })
    }

    /// The info hash in lowercase hex.
    pub fn info_hash_hex(&self) -> (r: String)
        ensures
            r@ == hex_lower(self.info_hash@),
    {
        hex_encode(&self.info_hash)
    }

    /// The display name, or `Unknown` without one.
    pub fn name(&self) -> (r: &str)
        ensures
            r@ == shown_name(self@),
    {
        match &self.display_name {
            Some(d) => d.as_str(),
            None => "Unknown",
        }
    }

    /// Builds a magnet URI from this link.
    pub fn to_uri(&self) -> (r: String)
        ensures
            r@ == magnet_uri(self@),
    {
        let mut uri = String::from_str("magnet:?xt=urn:btih:");
        proof {
            reveal_strlit("magnet:?xt=urn:btih:");
            assert(uri@ =~= uri_head());
        }
        let h = self.info_hash_hex();
        uri.append(h.as_str());
        match &self.display_name {
            Some(dn) => {
                uri.append("&dn=");
                let e = url_encode(dn.as_str());
                uri.append(e.as_str());
                proof {
                    reveal_strlit("&dn=");
                }
            },
            None => {},
        }
        let ghost start = uri@;
        let mut i: usize = 0;
        assert(strings_view(self.trackers@).take(0) =~= Seq::<Seq<char>>::empty());
        assert(start =~= start + trackers_part(Seq::empty()));
        while i < self.trackers.len()
            invariant
                0 <= i <= self.trackers@.len(),
                uri@ == start + trackers_part(strings_view(self.trackers@).take(i as int)),
            decreases self.trackers@.len() - i,
        {
            let ghost ts = strings_view(self.trackers@);
            uri.append("&tr=");
            let e = url_encode(self.trackers[i].as_str());
            uri.append(e.as_str());
            proof {
                reveal_strlit("&tr=");
                assert(ts.take(i + 1).drop_last() =~= ts.take(i as int));
                assert(ts.take(i + 1).last() == self.trackers@[i as int]@);
                assert(uri@ =~= start + trackers_part(ts.take(i + 1)));
            }
            i = i + 1;
        }
        assert(strings_view(self.trackers@).take(i as int) =~= strings_view(self.trackers@));
        uri
    }
}

// ─── Reading back a written URI ──────────────────────────────────────────────
/// No character of `s` is whitespace.
pub open spec fn no_ws(s: Seq<char>) -> bool {
    forall|i: int| 0 <= i < s.len() ==> !is_ws(#[trigger] s[i])
}

proof fn lemma_no_ws_concat(a: Seq<char>, b: Seq<char>)
    requires
        no_ws(a),
        no_ws(b),
    ensures
        no_ws(a + b),
{
    assert forall|i: int| 0 <= i < (a + b).len() implies !is_ws(#[trigger] (a + b)[i]) by {
        if i < a.len() {
            assert((a + b)[i] == a[i]);
        } else {
            assert((a + b)[i] == b[i - a.len()]);
        }
    }
}

proof fn lemma_trim_no_ws(s: Seq<char>)
    requires
        no_ws(s),
    ensures
        trim(s) == s,
{
    lemma_trim_start_is(s, 0);
    assert(s.skip(0) =~= s);
    lemma_trim_end_is(s, s.len() as int);
    assert(s.take(s.len() as int) =~= s);
}

/// Percent-encoded text holds no whitespace and no `&`.
proof fn lemma_percent_encode_plain(b: Seq<u8>)
    ensures
        no_ws(percent_encode(b)),
        forall|i: int| 0 <= i < percent_encode(b).len() ==> #[trigger] percent_encode(b)[i] != '&',
    decreases b.len(),
{
    if b.len() > 0 {
        lemma_percent_encode_plain(b.drop_first());
        let e = encode_byte(b[0]);
        let hi = hex_digit_upper((b[0] / 16) as int);
        let lo = hex_digit_upper((b[0] % 16) as int);
        assert(!is_ws(hi) && hi != '&');
        assert(!is_ws(lo) && lo != '&');
        assert(no_ws(e));
        lemma_no_ws_concat(e, percent_encode(b.drop_first()));
        let r = percent_encode(b.drop_first());
        assert forall|i: int| 0 <= i < percent_encode(b).len() implies #[trigger] percent_encode(
            b,
        )[i] != '&' by {
            if i < e.len() {
                assert(percent_encode(b)[i] == e[i]);
            } else {
                assert(percent_encode(b)[i] == r[i - e.len()]);
            }
        }
    }
}

proof fn lemma_hex_lower_plain(h: Seq<u8>)
    ensures
        no_ws(hex_lower(h)),
        forall|i: int| 0 <= i < hex_lower(h).len() ==> #[trigger] hex_lower(h)[i] != '&',
        is_ascii_chars(hex_lower(h)),
{
    assert forall|i: int| 0 <= i < hex_lower(h).len() implies !is_ws(#[trigger] hex_lower(h)[i])
        && hex_lower(h)[i] != '&' && '\0' <= hex_lower(h)[i] <= '\u{7f}' by {
        let n = if i % 2 == 0 {
            (h[i / 2] / 16) as int
        } else {
            (h[i / 2] % 16) as int
        };
        assert(hex_lower(h)[i] == hex_digit_lower(n));
    }
}

/// The parameters after the info hash: each starts with `&` and none holds whitespace.
proof fn lemma_trackers_part_plain(ts: Seq<Seq<char>>)
    ensures
        no_ws(trackers_part(ts)),
        ts.len() > 0 ==> trackers_part(ts)[0] == '&',
    decreases ts.len(),
{
    if ts.len() > 0 {
        lemma_trackers_part_plain(ts.drop_last());
        lemma_percent_encode_plain(encode_utf8(ts.last()));
        let a = trackers_part(ts.drop_last());
        let t = seq!['&', 't', 'r', '='];
        assert(no_ws(t));
        lemma_no_ws_concat(a, t);
        lemma_no_ws_concat(a + t, percent_encode(encode_utf8(ts.last())));
        assert(trackers_part(ts)[0] == '&') by {
            if a.len() > 0 {
                assert(trackers_part(ts)[0] == a[0]);
            } else {
                assert(trackers_part(ts)[0] == t[0]);
            }
        }
    }
}

/// Lowercase hex text reads back as the bytes it was written from.
proof fn lemma_hex_roundtrip(h: Seq<u8>)
    ensures
        hex_decodes(encode_utf8(hex_lower(h))) == Some(h),
{
    lemma_hex_lower_plain(h);
    let x = hex_lower(h);
    let b = encode_utf8(x);
    is_ascii_chars_encode_utf8(x);
    assert forall|i: int| 0 <= i < b.len() implies (#[trigger] hex_value(b[i])) is Some by {
        let n = if i % 2 == 0 {
            (h[i / 2] / 16) as int
        } else {
            (h[i / 2] % 16) as int
        };
        assert(x[i] == hex_digit_lower(n));
        assert(b[i] == x[i] as u8);
    }
    assert(b.len() % 2 == 0);
    let d = hex_decodes(b)->Some_0;
    assert forall|k: int| 0 <= k < h.len() implies #[trigger] d[k] == h[k] by {
        assert(x[2 * k] == hex_digit_lower((h[k] / 16) as int));
        assert(x[2 * k + 1] == hex_digit_lower((h[k] % 16) as int));
        assert(b[2 * k] == x[2 * k] as u8);
        assert(b[2 * k + 1] == x[2 * k + 1] as u8);
        assert(hex_value(b[2 * k])->Some_0 == h[k] / 16);
        assert(hex_value(b[2 * k + 1])->Some_0 == h[k] % 16);
    }
    assert(d =~= h);
}

/// What follows the info hash in a written URI: the name, then the trackers.
pub open spec fn uri_rest(v: MagnetView) -> Seq<char> {
    (match v.display_name {
        Some(d) => seq!['&', 'd', 'n', '='] + percent_encode(encode_utf8(d)),
        None => Seq::<char>::empty(),
    }) + trackers_part(v.trackers)
}

/// `xt=urn:btih:` and the hex of the info hash: the first parameter of a written URI.
pub open spec fn uri_first(v: MagnetView) -> Seq<char> {
    seq!['x', 't', '='] + btih_prefix() + hex_lower(v.info_hash)
}

proof fn lemma_uri_shape(v: MagnetView)
    ensures
        magnet_uri(v) == uri_head() + hex_lower(v.info_hash) + uri_rest(v),
        no_ws(magnet_uri(v)),
        uri_rest(v).len() > 0 ==> uri_rest(v)[0] == '&',
        magnet_uri(v).take(8) == magnet_prefix(),
        magnet_uri(v).skip(8) == uri_first(v) + uri_rest(v),
        forall|k: int| 0 <= k < uri_first(v).len() ==> #[trigger] uri_first(v)[k] != '&',
{
    let hex = hex_lower(v.info_hash);
    let dn = match v.display_name {
        Some(d) => seq!['&', 'd', 'n', '='] + percent_encode(encode_utf8(d)),
        None => Seq::<char>::empty(),
    };
    let tr = trackers_part(v.trackers);
    let rest = uri_rest(v);
    assert(rest == dn + tr);
    let uri = magnet_uri(v);
    assert(uri =~= uri_head() + hex + rest);
    lemma_hex_lower_plain(v.info_hash);
    lemma_trackers_part_plain(v.trackers);
    match v.display_name {
        Some(d) => {
            lemma_percent_encode_plain(encode_utf8(d));
            lemma_no_ws_concat(seq!['&', 'd', 'n', '='], percent_encode(encode_utf8(d)));
        },
        None => {},
    }
    lemma_no_ws_concat(dn, tr);
    assert(no_ws(uri_head()));
    lemma_no_ws_concat(uri_head(), hex);
    lemma_no_ws_concat(uri_head() + hex, rest);
    assert(uri.take(8) =~= magnet_prefix());
    let first = uri_first(v);
    assert(uri.skip(8) =~= first + rest);
    assert(rest.len() > 0 ==> rest[0] == '&') by {
        if dn.len() == 0 {
            assert(rest =~= tr);
            if tr.len() > 0 {
                assert(v.trackers.len() > 0);
            }
        }
    }
    assert forall|k: int| 0 <= k < first.len() implies #[trigger] first[k] != '&' by {
        if k >= 12 {
            assert(first[k] == hex[k - 12]);
        }
    }
}

/// The first parameter of `first` followed by `&…` (or nothing) is read from `first` alone.
proof fn lemma_first_param(first: Seq<char>, rest: Seq<char>)
    requires
        forall|k: int| 0 <= k < first.len() ==> #[trigger] first[k] != '&',
        rest.len() > 0 ==> rest[0] == '&',
    ensures
        query_params(first + rest).len() > 0,
        query_params(first + rest)[0] == param_of(first),
{
    let q = first + rest;
    assert forall|k: int| 0 <= k < first.len() implies q[k] != '&' by {
        assert(q[k] == first[k]);
    }
    lemma_find_from_is(q, 0, '&', first.len() as int);
    if first.len() < q.len() {
        assert(q.take(first.len() as int) =~= first);
    } else {
        assert(q =~= first);
    }
    assert(split_on(q, '&')[0] == first);
}

/// Parsing the URI written for a magnet link gives back its info hash.
pub proof fn law_magnet_uri_info_hash(m: MagnetLink)
    ensures
        spec_parse_magnet(magnet_uri(m@)) matches Ok(p) && p.info_hash == m@.info_hash,
{
    let v = m@;
    let uri = magnet_uri(v);
    lemma_uri_shape(v);
    lemma_trim_no_ws(uri);
    let first = uri_first(v);
    lemma_first_param(first, uri_rest(v));
    let ps = query_params(uri.skip(8));
    lemma_find_from_is(first, 0, '=', 2);
    assert(first.take(2) =~= seq!['x', 't']);
    let xt = first.skip(3);
    assert(param_of(first) == (seq!['x', 't'], xt));
    assert(key_index(ps, seq!['x', 't'], 0) == 0);
    assert(first_value(ps, seq!['x', 't']) == Some(xt));
    assert(xt.take(9) =~= btih_prefix());
    let hex = hex_lower(v.info_hash);
    assert(xt.skip(9) =~= hex);
    lemma_hex_lower_plain(v.info_hash);
    lemma_trim_no_ws(hex);
    is_ascii_chars_encode_utf8(hex);
    lemma_hex_roundtrip(v.info_hash);
    assert(info_hash_of(hex) == Ok::<Seq<u8>, Seq<char>>(v.info_hash));
}

// ─── Percent-encoding read back ──────────────────────────────────────────────
/// The byte of each character (for ASCII text, its UTF-8 encoding).
pub open spec fn char_bytes(c: Seq<char>) -> Seq<u8> {
    Seq::new(c.len(), |i: int| c[i] as u8)
}

proof fn lemma_encode_byte_ascii(b: u8)
    ensures
        is_ascii_chars(encode_byte(b)),
        encode_byte(b).len() >= 1,
        unreserved(b) ==> char_bytes(encode_byte(b)) == seq![b],
        !unreserved(b) ==> char_bytes(encode_byte(b)).len() == 3 && char_bytes(encode_byte(b))[0] == 37u8
            && hex_value(char_bytes(encode_byte(b))[1]) == Some((b / 16) as u8)
            && hex_value(char_bytes(encode_byte(b))[2]) == Some((b % 16) as u8),
{
    let e = encode_byte(b);
    if unreserved(b) {
        assert(char_bytes(e) =~= seq![b]);
    } else {
        let hi = (b / 16) as int;
        let lo = (b % 16) as int;
        assert(char_bytes(e)[1] == hex_digit_upper(hi) as u8);
        assert(char_bytes(e)[2] == hex_digit_upper(lo) as u8);
    }
}

proof fn lemma_percent_encode_ascii(b: Seq<u8>)
    ensures
        is_ascii_chars(percent_encode(b)),
    decreases b.len(),
{
    if b.len() > 0 {
        lemma_percent_encode_ascii(b.drop_first());
        lemma_encode_byte_ascii(b[0]);
        let e = encode_byte(b[0]);
        let r = percent_encode(b.drop_first());
        assert forall|i: int| 0 <= i < (e + r).len() implies '\0' <= #[trigger] (e + r)[i] <= '\u{7f}' by {
            if i < e.len() {
                assert((e + r)[i] == e[i]);
            } else {
                assert((e + r)[i] == r[i - e.len()]);
            }
        }
    }
}

/// Percent-decoding undoes percent-encoding.
proof fn lemma_percent_roundtrip(b: Seq<u8>)
    ensures
        percent_decode(char_bytes(percent_encode(b))) == b,
    decreases b.len(),
{
    if b.len() == 0 {
        assert(char_bytes(percent_encode(b)) =~= Seq::<u8>::empty());
    } else {
        let e = encode_byte(b[0]);
        let r = percent_encode(b.drop_first());
        lemma_percent_roundtrip(b.drop_first());
        lemma_encode_byte_ascii(b[0]);
        let x = char_bytes(e + r);
        assert(x =~= char_bytes(e) + char_bytes(r));
        if unreserved(b[0]) {
            assert(x[0] == b[0]);
            assert(b[0] != 37u8);
            assert(x.skip(1) =~= char_bytes(r));
            assert(percent_decode(x) == seq![b[0]] + percent_decode(x.skip(1)));
        } else {
            assert(x.skip(3) =~= char_bytes(r));
            assert((b[0] / 16) * 16 + b[0] % 16 == b[0]);
            assert(percent_decode(x) == seq![b[0]] + percent_decode(x.skip(3)));
        }
        assert(seq![b[0]] + b.drop_first() =~= b);
    }
}

/// URL-decoding the percent-encoding of a text gives the text back.
pub proof fn lemma_url_roundtrip(s: Seq<char>)
    ensures
        url_decoded(percent_encode(encode_utf8(s))) == s,
{
    let b = encode_utf8(s);
    let pe = percent_encode(b);
    lemma_percent_encode_ascii(b);
    is_ascii_chars_encode_utf8(pe);
    assert(encode_utf8(pe) =~= char_bytes(pe));
    lemma_percent_roundtrip(b);
    encode_utf8_valid_utf8(s);
    encode_utf8_decode_utf8(s);
}

// ─── A written URI read back whole ───────────────────────────────────────────
/// Text without `c` is one piece.
proof fn lemma_split_single(s: Seq<char>, c: char)
    requires
        forall|k: int| 0 <= k < s.len() ==> s[k] != c,
    ensures
        split_on(s, c) == seq![s],
{
    lemma_find_from_is(s, 0, c, s.len() as int);
}

/// Appending `c` and a piece without `c` appends that piece.
proof fn lemma_split_push(s: Seq<char>, b: Seq<char>, c: char)
    requires
        forall|k: int| 0 <= k < b.len() ==> b[k] != c,
    ensures
        split_on(s + seq![c] + b, c) == split_on(s, c).push(b),
    decreases s.len(),
{
    let t = s + seq![c] + b;
    lemma_find_from_range(s, 0, c);
    let i = find_from(s, 0, c);
    if i < s.len() {
        assert forall|k: int| 0 <= k < i implies t[k] != c by {
            assert(t[k] == s[k]);
        }
        assert(t[i] == s[i]);
        lemma_find_from_is(t, 0, c, i);
        assert(t.take(i) =~= s.take(i));
        assert(t.skip(i + 1) =~= s.skip(i + 1) + seq![c] + b);
        lemma_split_push(s.skip(i + 1), b, c);
        assert(split_on(t, c) =~= split_on(s, c).push(b));
    } else {
        assert forall|k: int| 0 <= k < s.len() implies t[k] != c by {
            assert(t[k] == s[k]);
        }
        assert(t[s.len() as int] == c);
        lemma_find_from_is(t, 0, c, s.len() as int);
        assert(t.take(s.len() as int) =~= s);
        assert(t.skip(s.len() as int + 1) =~= b);
        lemma_split_single(b, c);
        lemma_split_single(s, c);
        assert(split_on(t, c) =~= split_on(s, c).push(b));
    }
}

/// `key=` followed by text whose own `=` come later reads as that key and text.
proof fn lemma_param_of_key(k0: char, k1: char, v: Seq<char>)
    requires
        k0 != '=',
        k1 != '=',
    ensures
        param_of(seq![k0, k1, '='] + v) == (seq![k0, k1], v),
{
    let p = seq![k0, k1, '='] + v;
    lemma_find_from_is(p, 0, '=', 2);
    assert(p.take(2) =~= seq![k0, k1]);
    assert(p.skip(3) =~= v);
}

/// The `tr=…` piece that a URI writes for one tracker.
pub open spec fn tracker_piece(t: Seq<char>) -> Seq<char> {
    seq!['t', 'r', '='] + percent_encode(encode_utf8(t))
}

/// The `tr=…` pieces of a URI's trackers.
pub open spec fn tracker_pieces(ts: Seq<Seq<char>>) -> Seq<Seq<char>>
    decreases ts.len(),
{
    if ts.len() == 0 {
        Seq::empty()
    } else {
        tracker_pieces(ts.drop_last()).push(tracker_piece(ts.last()))
    }
}

proof fn lemma_tr_piece_plain(t: Seq<char>)
    ensures
        forall|k: int| 0 <= k < tracker_piece(t).len() ==> #[trigger] tracker_piece(t)[k] != '&',
{
    lemma_percent_encode_plain(encode_utf8(t));
    let e = percent_encode(encode_utf8(t));
    assert forall|k: int| 0 <= k < tracker_piece(t).len() implies #[trigger] tracker_piece(t)[k] != '&' by {
        if k >= 3 {
            assert(tracker_piece(t)[k] == e[k - 3]);
        }
    }
}

/// The trackers of a URI split into their `tr=…` pieces after whatever comes before them.
proof fn lemma_split_trackers(base: Seq<char>, ts: Seq<Seq<char>>)
    ensures
        split_on(base + trackers_part(ts), '&') == split_on(base, '&') + tracker_pieces(ts),
    decreases ts.len(),
{
    if ts.len() == 0 {
        assert(base + trackers_part(ts) =~= base);
        assert(split_on(base, '&') + tracker_pieces(ts) =~= split_on(base, '&'));
    } else {
        let d = ts.drop_last();
        let piece = tracker_piece(ts.last());
        lemma_split_trackers(base, d);
        lemma_tr_piece_plain(ts.last());
        assert(base + trackers_part(ts) =~= (base + trackers_part(d)) + seq!['&'] + piece);
        lemma_split_push(base + trackers_part(d), piece, '&');
        assert(split_on(base, '&') + tracker_pieces(ts) =~= (split_on(base, '&') + tracker_pieces(d)).push(piece));
    }
}

/// Parameters read from the `tr=…` pieces: one `tr` value per tracker.
proof fn lemma_tracker_params(pre: Seq<(Seq<char>, Seq<char>)>, ts: Seq<Seq<char>>)
    requires
        values_of(pre, seq!['t', 'r']) == Seq::<Seq<char>>::empty(),
    ensures
        values_of(pre + params_of(tracker_pieces(ts)), seq!['t', 'r']) == ts.map_values(
            |t: Seq<char>| percent_encode(encode_utf8(t)),
        ),
        forall|i: int| 0 <= i < params_of(tracker_pieces(ts)).len() ==> (#[trigger] params_of(tracker_pieces(ts))[i]).0 == seq!['t', 'r'],
        params_of(tracker_pieces(ts)).len() == ts.len(),
    decreases ts.len(),
{
    if ts.len() == 0 {
        assert(pre + params_of(tracker_pieces(ts)) =~= pre);
        assert(ts.map_values(|t: Seq<char>| percent_encode(encode_utf8(t))) =~= Seq::<Seq<char>>::empty());
    } else {
        let d = ts.drop_last();
        lemma_tracker_params(pre, d);
        let e = percent_encode(encode_utf8(ts.last()));
        lemma_param_of_key('t', 'r', e);
        let ps = pre + params_of(tracker_pieces(ts));
        assert(params_of(tracker_pieces(ts)) =~= params_of(tracker_pieces(d)).push((seq!['t', 'r'], e)));
        assert(ps.drop_last() =~= pre + params_of(tracker_pieces(d)));
        assert(ps.last() == (seq!['t', 'r'], e));
        assert(ts.map_values(|t: Seq<char>| percent_encode(encode_utf8(t))) =~= d.map_values(
            |t: Seq<char>| percent_encode(encode_utf8(t)),
        ).push(e));
    }
}

proof fn lemma_no_key(ps: Seq<(Seq<char>, Seq<char>)>, key: Seq<char>)
    requires
        forall|i: int| 0 <= i < ps.len() ==> (#[trigger] ps[i]).0 != key,
    ensures
        first_value(ps, key) is None,
{
    lemma_key_index_is(ps, key, 0, ps.len() as int);
}

/// The parameter that a written URI carries for the display name, if there is one.
pub open spec fn name_params(v: MagnetView) -> Seq<(Seq<char>, Seq<char>)> {
    match v.display_name {
        Some(d) => seq![(seq!['d', 'n'], percent_encode(encode_utf8(d)))],
        None => Seq::empty(),
    }
}

/// The parameters of a written URI: `xt`, the name if any, then one `tr` per tracker.
proof fn lemma_uri_params(v: MagnetView)
    ensures
        query_params(magnet_uri(v).skip(8)) == seq![param_of(uri_first(v))] + name_params(v)
            + params_of(tracker_pieces(v.trackers)),
        param_of(uri_first(v)).0 == seq!['x', 't'],
{
    let uri = magnet_uri(v);
    lemma_uri_shape(v);
    let first = uri_first(v);
    let dn = match v.display_name {
        Some(d) => seq!['&', 'd', 'n', '='] + percent_encode(encode_utf8(d)),
        None => Seq::<char>::empty(),
    };
    let base = first + dn;
    assert(uri.skip(8) =~= base + trackers_part(v.trackers));
    lemma_split_trackers(base, v.trackers);
    lemma_split_single(first, '&');
    let tps = tracker_pieces(v.trackers);
    match v.display_name {
        Some(d) => {
            let e = percent_encode(encode_utf8(d));
            lemma_percent_encode_plain(encode_utf8(d));
            let piece = seq!['d', 'n', '='] + e;
            assert forall|k: int| 0 <= k < piece.len() implies piece[k] != '&' by {
                if k >= 3 {
                    assert(piece[k] == e[k - 3]);
                }
            }
            assert(base =~= first + seq!['&'] + piece);
            lemma_split_push(first, piece, '&');
            assert(split_on(base, '&') =~= seq![first, piece]);
            lemma_param_of_key('d', 'n', e);
            assert(params_of(seq![first, piece] + tps) =~= seq![param_of(first)] + name_params(v)
                + params_of(tps));
        },
        None => {
            assert(base =~= first);
            assert(params_of(seq![first] + tps) =~= seq![param_of(first)] + name_params(v)
                + params_of(tps));
        },
    }
    lemma_find_from_is(first, 0, '=', 2);
    assert(first.take(2) =~= seq!['x', 't']);
}

/// No `tr` value comes before the trackers.
proof fn lemma_no_tr_before(x: (Seq<char>, Seq<char>), v: MagnetView)
    requires
        x.0 == seq!['x', 't'],
    ensures
        values_of(seq![x] + name_params(v), seq!['t', 'r']) == Seq::<Seq<char>>::empty(),
{
    let pre = seq![x] + name_params(v);
    assert(seq!['x', 't'][0] != seq!['t', 'r'][0]);
    assert(seq![x].drop_last() =~= Seq::<(Seq<char>, Seq<char>)>::empty());
    assert(seq![x].last() == x);
    assert(x.0 != seq!['t', 'r']);
    assert(values_of(Seq::<(Seq<char>, Seq<char>)>::empty(), seq!['t', 'r']) =~= Seq::<Seq<char>>::empty());
    assert(values_of(seq![x], seq!['t', 'r']) =~= Seq::<Seq<char>>::empty());
    match v.display_name {
        Some(d) => {
            assert(seq!['d', 'n'][0] != seq!['t', 'r'][0]);
            assert(pre.drop_last() =~= seq![x]);
            assert(pre.last().0 == seq!['d', 'n']);
        },
        None => {
            assert(pre =~= seq![x]);
        },
    }
}

/// Where the name and the exact length are found among a written URI's parameters.
proof fn lemma_uri_keys(x: (Seq<char>, Seq<char>), v: MagnetView)
    requires
        x.0 == seq!['x', 't'],
    ensures
        ({
            let ps = seq![x] + name_params(v) + params_of(tracker_pieces(v.trackers));
            &&& first_value(ps, seq!['d', 'n']) == match v.display_name {
                Some(d) => Some(percent_encode(encode_utf8(d))),
                None => None::<Seq<char>>,
            }
            &&& first_value(ps, seq!['x', 'l']) is None
        }),
{
    let pre = seq![x] + name_params(v);
    let tp = params_of(tracker_pieces(v.trackers));
    let ps = pre + tp;
    lemma_tracker_params(Seq::empty(), v.trackers);
    assert(Seq::<(Seq<char>, Seq<char>)>::empty() + tp =~= tp);
    assert(seq!['x', 't'][0] != seq!['d', 'n'][0]);
    assert(seq!['x', 't'][1] != seq!['x', 'l'][1]);
    assert(seq!['t', 'r'][0] != seq!['d', 'n'][0]);
    assert(seq!['t', 'r'][0] != seq!['x', 'l'][0]);
    assert(seq!['d', 'n'][0] != seq!['x', 'l'][0]);
    assert(ps[0] == x);
    match v.display_name {
        Some(d) => {
            assert(ps[1] == (seq!['d', 'n'], percent_encode(encode_utf8(d))));
            lemma_key_index_is(ps, seq!['d', 'n'], 0, 1);
        },
        None => {
            assert forall|i: int| 0 <= i < ps.len() implies (#[trigger] ps[i]).0 != seq!['d', 'n'] by {
                if i > 0 {
                    assert(ps[i] == tp[i - 1]);
                }
            }
            lemma_no_key(ps, seq!['d', 'n']);
        },
    }
    assert forall|i: int| 0 <= i < ps.len() implies (#[trigger] ps[i]).0 != seq!['x', 'l'] by {
        if i < pre.len() {
            assert(ps[i] == pre[i]);
        } else {
            assert(ps[i] == tp[i - pre.len()]);
        }
    }
    lemma_no_key(ps, seq!['x', 'l']);
}

/// Parsing the URI written for a magnet link gives the link back, without its exact length
/// (which the URI does not carry).
pub proof fn law_magnet_uri_roundtrip(m: MagnetLink)
    ensures
        spec_parse_magnet(magnet_uri(m@)) == Ok::<MagnetView, Seq<char>>(
            MagnetView {
                info_hash: m@.info_hash,
                display_name: m@.display_name,
                trackers: m@.trackers,
                exact_length: None,
            },
        ),
{
    let v = m@;
    let uri = magnet_uri(v);
    law_magnet_uri_info_hash(m);
    lemma_uri_shape(v);
    lemma_trim_no_ws(uri);
    lemma_uri_params(v);
    let x = param_of(uri_first(v));
    let pre = seq![x] + name_params(v);
    let ps = query_params(uri.skip(8));
    lemma_no_tr_before(x, v);
    lemma_tracker_params(pre, v.trackers);
    lemma_uri_keys(x, v);
    match v.display_name {
        Some(d) => {
            lemma_url_roundtrip(d);
        },
        None => {},
    }
    let encs = v.trackers.map_values(|t: Seq<char>| percent_encode(encode_utf8(t)));
    assert forall|i: int| 0 <= i < v.trackers.len() implies #[trigger] all_url_decoded(encs)[i]
        == v.trackers[i] by {
        lemma_url_roundtrip(v.trackers[i]);
    }
    assert(all_url_decoded(encs) =~= v.trackers);
}

} // verus!
