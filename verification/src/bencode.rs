//! Bencode values, their mathematical model, decoder and encoder.
//!
//! Format:
//!   Integer:    i<decimal>e
//!   Bytes/Str:  <len>:<data>
//!   List:       l<items>e
//!   Dictionary: d<key><val>...e
//!
//! Decoding refuses nesting deeper than a hundred levels and byte strings over 100 MiB.
use vstd::prelude::*;
use vstd::utf8::*;
use vstd::string::StringSliceAdditionalSpecFns;
use crate::decimal::{canonical_digits, canonical_int_text, digits_value, lemma_canonical_digits_text, lemma_canonical_int_text, lemma_int_text_parses, lemma_nat_text, unsigned_digits, all_digits, int_text, is_digit, nat_text, parse_int_text, parse_uint_text, push_int_text, push_nat_text, parse_i64, parse_uint};
use crate::error::CoreError;
use crate::text::{ascii_bytes, char_string, lemma_ascii_utf8, str_from_utf8};

verus! {

broadcast use vstd::seq_lib::group_seq_properties;

const MAX_DECODE_DEPTH: usize = 100;

const MAX_BYTES_ALLOCATION: usize = 104857600;

pub open spec fn max_decode_depth() -> int {
    100
}

pub open spec fn max_bytes_allocation() -> int {
    104857600
}

// ─── The model ───────────────────────────────────────────────────────────────
/// The mathematical model of a bencoded value.
pub enum BVal {
    Int(int),
    Bytes(Seq<u8>),
    List(Seq<BVal>),
    Dict(Seq<(Seq<u8>, BVal)>),
}

/// A decoded bencode value.
#[derive(Debug, PartialEq)]
pub enum BValue {
    Int(i64),
    Bytes(Vec<u8>),
    List(Vec<BValue>),
    Dict(BDict),
}

/// A bencode dictionary: a map from byte-string keys to values, walked in key order.
#[derive(Debug, PartialEq)]
pub struct BDict {
    entries: Vec<(Vec<u8>, BValue)>,
}

pub closed spec fn view_list(s: Seq<BValue>) -> Seq<BVal>
    decreases s,
{
    if s.len() == 0 {
        Seq::empty()
    } else {
        view_list(s.subrange(0, s.len() - 1)).push(view_value(s[s.len() - 1]))
    }
}

pub closed spec fn view_entries(s: Seq<(Vec<u8>, BValue)>) -> Seq<(Seq<u8>, BVal)>
    decreases s,
{
    if s.len() == 0 {
        Seq::empty()
    } else {
        view_entries(s.subrange(0, s.len() - 1)).push(
            (s[s.len() - 1].0@, view_value(s[s.len() - 1].1)),
        )
    }
}

pub closed spec fn view_value(v: BValue) -> BVal
    decreases v,
{
    match v {
        BValue::Int(n) => BVal::Int(n as int),
        BValue::Bytes(b) => BVal::Bytes(b@),
        BValue::List(l) => BVal::List(view_list(l@)),
        BValue::Dict(d) => BVal::Dict(view_entries(d.entries@)),
    }
}

impl View for BValue {
    type V = BVal;

    closed spec fn view(&self) -> BVal {
        view_value(*self)
    }
}

impl View for BDict {
    type V = Seq<(Seq<u8>, BVal)>;

    closed spec fn view(&self) -> Seq<(Seq<u8>, BVal)> {
        view_entries(self.entries@)
    }
}

proof fn lemma_view_list(s: Seq<BValue>)
    ensures
        view_list(s).len() == s.len(),
        forall|i: int| 0 <= i < s.len() ==> #[trigger] view_list(s)[i] == view_value(s[i]),
    decreases s.len(),
{
    if s.len() > 0 {
        lemma_view_list(s.subrange(0, s.len() - 1));
    }
}

proof fn lemma_view_entries(s: Seq<(Vec<u8>, BValue)>)
    ensures
        view_entries(s).len() == s.len(),
        forall|i: int|
            0 <= i < s.len() ==> #[trigger] view_entries(s)[i] == (s[i].0@, view_value(s[i].1)),
    decreases s.len(),
{
    if s.len() > 0 {
        lemma_view_entries(s.subrange(0, s.len() - 1));
    }
}

// ─── Key order and dictionary operations ─────────────────────────────────────
/// Lexicographic order on byte strings, the order of `Vec<u8>`.
pub open spec fn lex_lt(a: Seq<u8>, b: Seq<u8>) -> bool
    decreases a.len(),
{
    if a.len() == 0 {
        b.len() > 0
    } else if b.len() == 0 {
        false
    } else if a[0] < b[0] {
        true
    } else if a[0] > b[0] {
        false
    } else {
        lex_lt(a.drop_first(), b.drop_first())
    }
}

pub proof fn lemma_lex_irreflexive(a: Seq<u8>)
    ensures
        !lex_lt(a, a),
    decreases a.len(),
{
    if a.len() > 0 {
        lemma_lex_irreflexive(a.drop_first());
    }
}

pub proof fn lemma_lex_asymmetric(a: Seq<u8>, b: Seq<u8>)
    ensures
        lex_lt(a, b) ==> !lex_lt(b, a),
    decreases a.len(),
{
    if a.len() > 0 && b.len() > 0 {
        lemma_lex_asymmetric(a.drop_first(), b.drop_first());
    }
}

pub proof fn lemma_lex_total(a: Seq<u8>, b: Seq<u8>)
    ensures
        a != b ==> lex_lt(a, b) || lex_lt(b, a),
    decreases a.len(),
{
    if a.len() > 0 && b.len() > 0 {
        lemma_lex_total(a.drop_first(), b.drop_first());
        if a[0] == b[0] && a.drop_first() == b.drop_first() {
            assert(a =~= seq![a[0]] + a.drop_first());
            assert(b =~= seq![b[0]] + b.drop_first());
        }
    } else if a.len() == 0 && b.len() == 0 {
        assert(a =~= b);
    }
}

pub proof fn lemma_lex_transitive(a: Seq<u8>, b: Seq<u8>, c: Seq<u8>)
    requires
        lex_lt(a, b),
        lex_lt(b, c),
    ensures
        lex_lt(a, c),
    decreases a.len(),
{
    if a.len() > 0 && b.len() > 0 && c.len() > 0 && a[0] == b[0] && b[0] == c[0] {
        lemma_lex_transitive(a.drop_first(), b.drop_first(), c.drop_first());
    }
}

/// Keys strictly increasing, so each key occurs once.
pub open spec fn keys_sorted<V>(s: Seq<(Seq<u8>, V)>) -> bool {
    forall|i: int, j: int| 0 <= i < j < s.len() ==> lex_lt(#[trigger] s[i].0, #[trigger] s[j].0)
}

/// Inserting into a key-ordered dictionary: a key already present gets the new value, a new
/// key goes where the order puts it.
pub open spec fn dict_insert<V>(s: Seq<(Seq<u8>, V)>, k: Seq<u8>, v: V) -> Seq<(Seq<u8>, V)>
    decreases s.len(),
{
    if s.len() == 0 {
        seq![(k, v)]
    } else if s[0].0 == k {
        s.update(0, (k, v))
    } else if lex_lt(k, s[0].0) {
        seq![(k, v)] + s
    } else {
        seq![s[0]] + dict_insert(s.drop_first(), k, v)
    }
}

/// The value stored under `k`, if any.
pub open spec fn dict_lookup<V>(s: Seq<(Seq<u8>, V)>, k: Seq<u8>) -> Option<V>
    decreases s.len(),
{
    if s.len() == 0 {
        None
    } else if s[0].0 == k {
        Some(s[0].1)
    } else {
        dict_lookup(s.drop_first(), k)
    }
}

proof fn lemma_dict_insert_at<V>(s: Seq<(Seq<u8>, V)>, k: Seq<u8>, v: V, i: int)
    requires
        0 <= i <= s.len(),
        forall|j: int| 0 <= j < i ==> lex_lt(#[trigger] s[j].0, k),
        i == s.len() || !lex_lt(s[i].0, k),
    ensures
        dict_insert(s, k, v) == (if i < s.len() && s[i].0 == k {
            s.update(i, (k, v))
        } else {
            s.insert(i, (k, v))
        }),
    decreases i,
{
    if i == 0 {
        if s.len() == 0 {
            assert(s.insert(0, (k, v)) =~= seq![(k, v)]);
        } else if s[0].0 != k {
            lemma_lex_total(k, s[0].0);
            assert(s.insert(0, (k, v)) =~= seq![(k, v)] + s);
        }
    } else {
        let t = s.drop_first();
        assert(lex_lt(s[0].0, k));
        lemma_lex_irreflexive(k);
        lemma_lex_asymmetric(s[0].0, k);
        assert forall|j: int| 0 <= j < i - 1 implies lex_lt(#[trigger] t[j].0, k) by {
            assert(t[j] == s[j + 1]);
        }
        lemma_dict_insert_at(t, k, v, i - 1);
        if i < s.len() && s[i].0 == k {
            assert(seq![s[0]] + t.update(i - 1, (k, v)) =~= s.update(i, (k, v)));
        } else {
            assert(seq![s[0]] + t.insert(i - 1, (k, v)) =~= s.insert(i, (k, v)));
        }
    }
}

pub proof fn lemma_dict_insert_sorted<V>(s: Seq<(Seq<u8>, V)>, k: Seq<u8>, v: V)
    requires
        keys_sorted(s),
    ensures
        keys_sorted(dict_insert(s, k, v)),
        forall|j: int|
            0 <= j < dict_insert(s, k, v).len() ==> (#[trigger] dict_insert(s, k, v)[j]).0 == k
                || exists|m: int| 0 <= m < s.len() && s[m].0 == dict_insert(s, k, v)[j].0,
    decreases s.len(),
{
    if s.len() == 0 {
    } else if s[0].0 == k {
        let r = s.update(0, (k, v));
        assert forall|j: int| 0 <= j < r.len() implies (#[trigger] r[j]).0 == k
            || exists|m: int| 0 <= m < s.len() && s[m].0 == r[j].0 by {
            if j > 0 {
                assert(s[j].0 == r[j].0);
            }
        }
    } else if lex_lt(k, s[0].0) {
        let r = seq![(k, v)] + s;
        assert forall|i: int, j: int| 0 <= i < j < r.len() implies lex_lt(
            #[trigger] r[i].0,
            #[trigger] r[j].0,
        ) by {
            if i == 0 && j > 1 {
                lemma_lex_transitive(k, s[0].0, s[j - 1].0);
            }
        }
        assert forall|j: int| 0 <= j < r.len() implies (#[trigger] r[j]).0 == k
            || exists|m: int| 0 <= m < s.len() && s[m].0 == r[j].0 by {
            if j > 0 {
                assert(s[j - 1].0 == r[j].0);
            }
        }
    } else {
        let t = s.drop_first();
        assert(keys_sorted(t)) by {
            assert forall|i: int, j: int| 0 <= i < j < t.len() implies lex_lt(
                #[trigger] t[i].0,
                #[trigger] t[j].0,
            ) by {
                assert(t[i] == s[i + 1] && t[j] == s[j + 1]);
            }
        }
        lemma_dict_insert_sorted(t, k, v);
        let it = dict_insert(t, k, v);
        let r = seq![s[0]] + it;
        lemma_lex_total(k, s[0].0);
        assert forall|j: int| 0 <= j < r.len() implies (#[trigger] r[j]).0 == k
            || exists|m: int| 0 <= m < s.len() && s[m].0 == r[j].0 by {
            if j == 0 {
                assert(s[0].0 == r[0].0);
            } else {
                assert(r[j] == it[j - 1]);
                if it[j - 1].0 != k {
                    let m = choose|m: int| 0 <= m < t.len() && t[m].0 == it[j - 1].0;
                    assert(s[m + 1].0 == r[j].0);
                }
            }
        }
        assert forall|i: int, j: int| 0 <= i < j < r.len() implies lex_lt(
            #[trigger] r[i].0,
            #[trigger] r[j].0,
        ) by {
            if i == 0 {
                assert(r[j] == it[j - 1]);
                if it[j - 1].0 == k {
                } else {
                    let m = choose|m: int| 0 <= m < t.len() && t[m].0 == it[j - 1].0;
                    assert(s[m + 1].0 == r[j].0);
                }
            } else {
                assert(r[i] == it[i - 1] && r[j] == it[j - 1]);
            }
        }
    }
}

// ─── Decoding, as a function of the input ───────────────────────────────────
/// Why decoding stopped.
pub enum DecodeFault {
    /// The input ended where a value should start.
    EndBeforeValue,
    /// The input ended inside a value.
    PrematureEnd,
    DepthLimit,
    TooLarge,
    PositionOverflow,
    Expected { expected: u8, got: u8 },
    UnexpectedByte(u8),
    IntNotUtf8,
    BadInt(Seq<u8>),
    BadDecimal(Seq<u8>),
}

/// First index at or after `pos` that holds `b`, or the length when there is none.
pub open spec fn scan_to(buf: Seq<u8>, pos: int, b: u8) -> int
    decreases buf.len() - pos,
{
    if pos < 0 || pos >= buf.len() {
        buf.len() as int
    } else if buf[pos] == b {
        pos
    } else {
        scan_to(buf, pos + 1, b)
    }
}

/// End of the run of decimal digits that starts at `pos`.
pub open spec fn digit_run_end(buf: Seq<u8>, pos: int) -> int
    decreases buf.len() - pos,
{
    if 0 <= pos < buf.len() && is_digit(buf[pos]) {
        digit_run_end(buf, pos + 1)
    } else {
        pos
    }
}

/// An integer whose `i` is at `pos - 1`: the result and the position after it.
pub open spec fn sd_int(buf: Seq<u8>, pos: int) -> (Result<BVal, DecodeFault>, int) {
    let e = scan_to(buf, pos, 101u8);
    if e >= buf.len() {
        (Err(DecodeFault::PrematureEnd), e)
    } else {
        let raw = buf.subrange(pos, e);
        if !valid_utf8(raw) {
            (Err(DecodeFault::IntNotUtf8), e)
        } else {
            match parse_int_text(raw, i64::MIN as int, i64::MAX as int) {
                None => (Err(DecodeFault::BadInt(raw)), e),
                Some(n) => (Ok(BVal::Int(n)), e + 1),
            }
        }
    }
}

/// A byte string `<len>:<data>` at `pos`.
pub open spec fn sd_bytes(buf: Seq<u8>, pos: int) -> (Result<Seq<u8>, DecodeFault>, int) {
    let e = digit_run_end(buf, pos);
    let ds = buf.subrange(pos, e);
    match parse_uint_text(ds, usize::MAX as int) {
        None => (Err(DecodeFault::BadDecimal(ds)), e),
        Some(n) => if n > max_bytes_allocation() {
            (Err(DecodeFault::TooLarge), e)
        } else if e >= buf.len() {
            (Err(DecodeFault::PrematureEnd), e)
        } else if buf[e] != 58u8 {
            (Err(DecodeFault::Expected { expected: 58u8, got: buf[e] }), e + 1)
        } else if e + 1 + n > usize::MAX {
            (Err(DecodeFault::PositionOverflow), e + 1)
        } else if e + 1 + n > buf.len() {
            (Err(DecodeFault::PrematureEnd), e + 1)
        } else {
            (Ok(buf.subrange(e + 1, e + 1 + n)), e + 1 + n)
        },
    }
}

/// The value at `pos`, decoded at nesting level `depth`: the result and the position where
/// decoding stopped.
pub open spec fn sd_value(buf: Seq<u8>, pos: int, depth: int) -> (Result<BVal, DecodeFault>, int)
    decreases buf.len() - pos, 0int,
{
    if depth > max_decode_depth() {
        (Err(DecodeFault::DepthLimit), pos)
    } else if pos < 0 || pos >= buf.len() {
        (Err(DecodeFault::EndBeforeValue), pos)
    } else {
        let b = buf[pos];
        if b == 105u8 {
            sd_int(buf, pos + 1)
        } else if b == 108u8 {
            sd_items(buf, pos + 1, depth + 1, Seq::empty())
        } else if b == 100u8 {
            sd_entries(buf, pos + 1, depth + 1, Seq::empty())
        } else if is_digit(b) {
            match sd_bytes(buf, pos) {
                (Ok(d), p) => (Ok(BVal::Bytes(d)), p),
                (Err(f), p) => (Err(f), p),
            }
        } else {
            (Err(DecodeFault::UnexpectedByte(b)), pos)
        }
    }
}

/// The rest of a list, items `acc` already read, next item at `pos`.
pub open spec fn sd_items(buf: Seq<u8>, pos: int, depth: int, acc: Seq<BVal>) -> (
    Result<BVal, DecodeFault>,
    int,
)
    decreases buf.len() - pos, 1int,
{
    if 0 <= pos < buf.len() && buf[pos] == 101u8 {
        (Ok(BVal::List(acc)), pos + 1)
    } else {
        match sd_value(buf, pos, depth) {
            (Err(f), q) => (Err(f), q),
            (Ok(v), q) => if q <= pos || q > buf.len() {
                (Err(DecodeFault::PrematureEnd), q)
            } else {
                sd_items(buf, q, depth, acc.push(v))
            },
        }
    }
}

/// The rest of a dictionary, entries `acc` already read, next key at `pos`.
pub open spec fn sd_entries(
    buf: Seq<u8>,
    pos: int,
    depth: int,
    acc: Seq<(Seq<u8>, BVal)>,
) -> (Result<BVal, DecodeFault>, int)
    decreases buf.len() - pos, 1int,
{
    if 0 <= pos < buf.len() && buf[pos] == 101u8 {
        (Ok(BVal::Dict(acc)), pos + 1)
    } else {
        match sd_bytes(buf, pos) {
            (Err(f), p) => (Err(f), p),
            (Ok(k), p) => if p <= pos || p > buf.len() {
                (Err(DecodeFault::PrematureEnd), p)
            } else {
                match sd_value(buf, p, depth) {
                    (Err(f), q) => (Err(f), q),
                    (Ok(v), q) => if q <= p || q > buf.len() {
                        (Err(DecodeFault::PrematureEnd), q)
                    } else {
                        sd_entries(buf, q, depth, dict_insert(acc, k, v))
                    },
                }
            },
        }
    }
}

/// What a whole-buffer decode gives.
pub open spec fn spec_decode(buf: Seq<u8>) -> Result<BVal, DecodeFault> {
    sd_value(buf, 0, 0).0
}

/// The text of the error that a fault is reported with; `None` for a premature end.
pub open spec fn fault_message(f: DecodeFault) -> Option<Seq<char>> {
    match f {
        DecodeFault::EndBeforeValue => None,
        DecodeFault::PrematureEnd => None,
        DecodeFault::DepthLimit => Some("Depth limit exceeded"@),
        DecodeFault::TooLarge => Some("allocation too large"@),
        DecodeFault::PositionOverflow => Some("position overflow"@),
        DecodeFault::Expected { expected, got } => Some(
            "expected '"@ + seq![expected as char] + "' got '"@ + seq![got as char] + "'"@,
        ),
        DecodeFault::UnexpectedByte(b) => Some("unexpected byte: "@ + seq![b as char]),
        DecodeFault::IntNotUtf8 => Some("int not utf8"@),
        DecodeFault::BadInt(raw) => Some("bad int: "@ + decode_utf8(raw)),
        DecodeFault::BadDecimal(ds) => if valid_utf8(ds) {
            Some("bad decimal: "@ + decode_utf8(ds))
        } else {
            Some("decimal not utf8"@)
        },
    }
}

/// `e` is the error that reports fault `f`.
pub open spec fn reports_fault(e: CoreError, f: DecodeFault) -> bool {
    match fault_message(f) {
        None => e is BencodePrematureEnd,
        Some(m) => e matches CoreError::BencodeInvalid(s) && s@ == m,
    }
}

/// An executable result agrees with a decoding result of the model.
pub open spec fn decoded_as(r: Result<BValue, CoreError>, s: Result<BVal, DecodeFault>) -> bool {
    match (r, s) {
        (Ok(v), Ok(m)) => v@ == m,
        (Err(e), Err(f)) => reports_fault(e, f),
        _ => false,
    }
}

proof fn lemma_digit_run(buf: Seq<u8>, pos: int)
    requires
        0 <= pos <= buf.len(),
    ensures
        pos <= digit_run_end(buf, pos) <= buf.len(),
        all_digits(buf.subrange(pos, digit_run_end(buf, pos))),
        digit_run_end(buf, pos) < buf.len() ==> !is_digit(buf[digit_run_end(buf, pos)]),
    decreases buf.len() - pos,
{
    if pos < buf.len() && is_digit(buf[pos]) {
        lemma_digit_run(buf, pos + 1);
        let e = digit_run_end(buf, pos);
        assert forall|i: int| 0 <= i < e - pos implies is_digit(
            #[trigger] buf.subrange(pos, e)[i],
        ) by {
            if i > 0 {
                assert(buf.subrange(pos, e)[i] == buf.subrange(pos + 1, e)[i - 1]);
            }
        }
    }
}

proof fn lemma_scan_to(buf: Seq<u8>, pos: int, b: u8)
    requires
        0 <= pos <= buf.len(),
    ensures
        pos <= scan_to(buf, pos, b) <= buf.len(),
        scan_to(buf, pos, b) < buf.len() ==> buf[scan_to(buf, pos, b)] == b,
        forall|i: int| pos <= i < scan_to(buf, pos, b) ==> buf[i] != b,
    decreases buf.len() - pos,
{
    if pos < buf.len() && buf[pos] != b {
        lemma_scan_to(buf, pos + 1, b);
    }
}

proof fn lemma_sd_bytes_bounds(buf: Seq<u8>, pos: int)
    requires
        0 <= pos <= buf.len(),
    ensures
        pos <= sd_bytes(buf, pos).1 <= buf.len(),
        sd_bytes(buf, pos).0 is Ok ==> pos < sd_bytes(buf, pos).1,
{
    lemma_digit_run(buf, pos);
}

/// Decoding from a position in the buffer stops within the buffer, after the start when it succeeds.
pub proof fn lemma_sd_value_bounds(buf: Seq<u8>, pos: int, depth: int)
    requires
        0 <= pos <= buf.len(),
    ensures
        pos <= sd_value(buf, pos, depth).1 <= buf.len(),
        sd_value(buf, pos, depth).0 is Ok ==> pos < sd_value(buf, pos, depth).1,
    decreases buf.len() - pos, 0int,
{
    if depth <= max_decode_depth() && pos < buf.len() {
        let b = buf[pos];
        if b == 105u8 {
            lemma_scan_to(buf, pos + 1, 101u8);
        } else if b == 108u8 {
            lemma_sd_items_bounds(buf, pos + 1, depth + 1, Seq::empty());
        } else if b == 100u8 {
            lemma_sd_entries_bounds(buf, pos + 1, depth + 1, Seq::empty());
        } else if is_digit(b) {
            lemma_sd_bytes_bounds(buf, pos);
        }
    }
}

proof fn lemma_sd_items_bounds(buf: Seq<u8>, pos: int, depth: int, acc: Seq<BVal>)
    requires
        0 <= pos <= buf.len(),
    ensures
        pos <= sd_items(buf, pos, depth, acc).1 <= buf.len(),
    decreases buf.len() - pos, 1int,
{
    if !(pos < buf.len() && buf[pos] == 101u8) {
        lemma_sd_value_bounds(buf, pos, depth);
        let (r, q) = sd_value(buf, pos, depth);
        if r is Ok && pos < q <= buf.len() {
            lemma_sd_items_bounds(buf, q, depth, acc.push(r->Ok_0));
        }
    }
}

proof fn lemma_sd_entries_bounds(
    buf: Seq<u8>,
    pos: int,
    depth: int,
    acc: Seq<(Seq<u8>, BVal)>,
)
    requires
        0 <= pos <= buf.len(),
    ensures
        pos <= sd_entries(buf, pos, depth, acc).1 <= buf.len(),
    decreases buf.len() - pos, 1int,
{
    if !(pos < buf.len() && buf[pos] == 101u8) {
        lemma_sd_bytes_bounds(buf, pos);
        let (rk, p) = sd_bytes(buf, pos);
        if rk is Ok && pos < p <= buf.len() {
            lemma_sd_value_bounds(buf, p, depth);
            let (rv, q) = sd_value(buf, p, depth);
            if rv is Ok && p < q <= buf.len() {
                lemma_sd_entries_bounds(buf, q, depth, dict_insert(acc, rk->Ok_0, rv->Ok_0));
            }
        }
    }
}

proof fn lemma_scan_to_is(buf: Seq<u8>, pos: int, b: u8, e: int)
    requires
        0 <= pos <= e <= buf.len(),
        forall|i: int| pos <= i < e ==> buf[i] != b,
        e == buf.len() || buf[e] == b,
    ensures
        scan_to(buf, pos, b) == e,
    decreases e - pos,
{
    if pos < e {
        lemma_scan_to_is(buf, pos + 1, b, e);
    }
}

proof fn lemma_digit_run_is(buf: Seq<u8>, pos: int, e: int)
    requires
        0 <= pos <= e <= buf.len(),
        forall|i: int| pos <= i < e ==> is_digit(buf[i]),
        e == buf.len() || !is_digit(buf[e]),
    ensures
        digit_run_end(buf, pos) == e,
    decreases e - pos,
{
    if pos < e {
        lemma_digit_run_is(buf, pos + 1, e);
    }
}

// ─── Errors ──────────────────────────────────────────────────────────────────
fn invalid(msg: &str) -> (e: CoreError)
    ensures
        e matches CoreError::BencodeInvalid(s) && s@ == msg@,
{
    CoreError::BencodeInvalid(String::from_str(msg))
}

fn expected_error(expected: u8, got: u8) -> (e: CoreError)
    ensures
        reports_fault(e, DecodeFault::Expected { expected, got }),
{
    let mut s = String::from_str("expected '");
    let c1 = char_string(expected as char);
    s.append(c1.as_str());
    s.append("' got '");
    let c2 = char_string(got as char);
    s.append(c2.as_str());
    s.append("'");
    CoreError::BencodeInvalid(s)
}

fn unexpected_error(b: u8) -> (e: CoreError)
    ensures
        reports_fault(e, DecodeFault::UnexpectedByte(b)),
{
    let mut s = String::from_str("unexpected byte: ");
    let c = char_string(b as char);
    s.append(c.as_str());
    CoreError::BencodeInvalid(s)
}

fn bad_decimal_error(ds: &[u8]) -> (e: CoreError)
    ensures
        reports_fault(e, DecodeFault::BadDecimal(ds@)),
{
    match str_from_utf8(ds) {
        Some(t) => {
            let mut s = String::from_str("bad decimal: ");
            s.append(t);
            CoreError::BencodeInvalid(s)
        },
        None => invalid("decimal not utf8"),
    }
}

// ─── Decoder ─────────────────────────────────────────────────────────────────
/// A cursor over a bencoded buffer.
pub struct Decoder<'a> {
    buf: &'a [u8],
    pos: usize,
    depth: usize,
}

impl<'a> Decoder<'a> {
    /// The buffer being decoded.
    pub closed spec fn input(&self) -> Seq<u8> {
        self.buf@
    }

    /// The current read position.
    pub closed spec fn cursor(&self) -> int {
        self.pos as int
    }

    /// The current nesting level.
    pub closed spec fn level(&self) -> int {
        self.depth as int
    }

    /// The read position lies within the buffer.
    pub closed spec fn wf(&self) -> bool {
        self.pos <= self.buf@.len()
    }

    pub fn new(buf: &'a [u8]) -> (d: Self)
        ensures
            d.input() == buf@,
            d.cursor() == 0,
            d.level() == 0,
            d.wf(),
    {
        Self { buf, pos: 0, depth: 0 }
    }

    fn peek(&self) -> (r: Option<u8>)
        requires
            self.wf(),
        ensures
            r == (if self.pos < self.buf@.len() {
                Some(self.buf@[self.pos as int])
            } else {
                None::<u8>
            }),
    {
        if self.pos < self.buf.len() {
            Some(self.buf[self.pos])
        } else {
            None
        }
    }

    fn consume(&mut self) -> (r: Result<u8, CoreError>)
        requires
            old(self).wf(),
        ensures
            final(self).wf(),
            final(self).buf == old(self).buf,
            final(self).depth == old(self).depth,
            if old(self).pos < old(self).buf@.len() {
                r == Ok::<u8, CoreError>(old(self).buf@[old(self).pos as int]) && final(self).pos
                    == old(self).pos + 1
            } else {
                r matches Err(e) && e is BencodePrematureEnd && final(self).pos == old(self).pos
            },
    {
        if self.pos < self.buf.len() {
            let b = self.buf[self.pos];
            self.pos = self.pos + 1;
            Ok(b)
        } else {
            Err(CoreError::BencodePrematureEnd)
        }
    }

    fn expect(&mut self, expected: u8) -> (r: Result<(), CoreError>)
        requires
            old(self).wf(),
        ensures
            final(self).wf(),
            final(self).buf == old(self).buf,
            final(self).depth == old(self).depth,
            if old(self).pos >= old(self).buf@.len() {
                r matches Err(e) && e is BencodePrematureEnd && final(self).pos == old(self).pos
            } else if old(self).buf@[old(self).pos as int] == expected {
                r is Ok && final(self).pos == old(self).pos + 1
            } else {
                r matches Err(e) && reports_fault(
                    e,
                    DecodeFault::Expected { expected, got: old(self).buf@[old(self).pos as int] },
                ) && final(self).pos == old(self).pos + 1
            },
    {
        let b = self.consume()?;
        if b != expected {
            return Err(expected_error(expected, b));
        }
        Ok(())
    }

    /// Decodes the value at the read position.
    ///
    /// The result and where the cursor stops are those of `sd_value`. When the input ends
    /// where a value should start, the nesting level stays one higher than before.
    pub fn decode(&mut self) -> (r: Result<BValue, CoreError>)
        requires
            old(self).wf(),
        ensures
            final(self).wf(),
            final(self).input() == old(self).input(),
            decoded_as(r, sd_value(old(self).input(), old(self).cursor(), old(self).level()).0),
            final(self).cursor() == sd_value(
                old(self).input(),
                old(self).cursor(),
                old(self).level(),
            ).1,
            final(self).level() == old(self).level() + (if sd_value(
                old(self).input(),
                old(self).cursor(),
                old(self).level(),
            ).0 matches Err(DecodeFault::EndBeforeValue) {
                1int
            } else {
                0int
            }),
            r is Ok ==> final(self).cursor() > old(self).cursor(),
            r is Ok ==> sd_value(
                old(self).input().subrange(old(self).cursor(), final(self).cursor()),
                0,
                old(self).level(),
            ).0 == sd_value(old(self).input(), old(self).cursor(), old(self).level()).0,
        decreases old(self).input().len() - old(self).cursor(), 1int,
    {
        proof {
            lemma_sd_value_bounds(self.buf@, self.pos as int, self.depth as int);
            if sd_value(self.buf@, self.pos as int, self.depth as int).0 is Ok {
                law_value_read_alone(self.buf@, self.pos as int, self.depth as int);
            }
        }
        if self.depth > MAX_DECODE_DEPTH {
            return Err(invalid("Depth limit exceeded"));
        }
        self.depth = self.depth + 1;
        let b = match self.peek() {
            Some(b) => b,
            None => return Err(CoreError::BencodePrematureEnd),
        };
        let result = if b == 105u8 {
            self.decode_int()
        } else if b == 108u8 {
            self.decode_list()
        } else if b == 100u8 {
            self.decode_dict()
        } else if 48u8 <= b && b <= 57u8 {
            match self.decode_bytes() {
                Ok(d) => Ok(BValue::Bytes(d)),
                Err(e) => Err(e),
            }
        } else {
            Err(unexpected_error(b))
        };
        self.depth = self.depth - 1;
        result
    }

    fn decode_int(&mut self) -> (r: Result<BValue, CoreError>)
        requires
            old(self).wf(),
            old(self).pos < old(self).buf@.len(),
            old(self).buf@[old(self).pos as int] == 105u8,
        ensures
            final(self).wf(),
            final(self).buf == old(self).buf,
            final(self).depth == old(self).depth,
            decoded_as(r, sd_int(old(self).buf@, old(self).pos + 1).0),
            final(self).pos == sd_int(old(self).buf@, old(self).pos + 1).1,
    {
        self.expect(105u8)?;
        let start = self.pos;
        while self.pos < self.buf.len() && self.buf[self.pos] != 101u8
            invariant
                self.wf(),
                self.buf == old(self).buf,
                self.depth == old(self).depth,
                start <= self.pos <= self.buf@.len(),
                forall|i: int| start <= i < self.pos ==> self.buf@[i] != 101u8,
            decreases self.buf@.len() - self.pos,
        {
            self.pos = self.pos + 1;
        }
        proof {
            lemma_scan_to_is(self.buf@, start as int, 101u8, self.pos as int);
        }
        if self.pos >= self.buf.len() {
            return Err(CoreError::BencodePrematureEnd);
        }
        let raw = &self.buf[start..self.pos];
        match str_from_utf8(raw) {
            None => Err(invalid("int not utf8")),
            Some(text) => match parse_i64(raw) {
                Some(n) => {
                    self.pos = self.pos + 1;
                    Ok(BValue::Int(n))
                },
                None => {
                    let mut s = String::from_str("bad int: ");
                    s.append(text);
                    Err(CoreError::BencodeInvalid(s))
                },
            },
        }
    }

    fn decode_decimal(&mut self) -> (r: Result<usize, CoreError>)
        requires
            old(self).wf(),
        ensures
            final(self).wf(),
            final(self).buf == old(self).buf,
            final(self).depth == old(self).depth,
            final(self).pos == digit_run_end(old(self).buf@, old(self).pos as int),
            ({
                let ds = old(self).buf@.subrange(old(self).pos as int, final(self).pos as int);
                match parse_uint_text(ds, usize::MAX as int) {
                    Some(n) => r == Ok::<usize, CoreError>(n as usize),
                    None => r matches Err(e) && reports_fault(e, DecodeFault::BadDecimal(ds)),
                }
            }),
    {
        let start = self.pos;
        while self.pos < self.buf.len() && 48u8 <= self.buf[self.pos] && self.buf[self.pos] <= 57u8
            invariant
                self.wf(),
                self.buf == old(self).buf,
                self.depth == old(self).depth,
                start == old(self).pos,
                start <= self.pos <= self.buf@.len(),
                forall|i: int| start <= i < self.pos ==> is_digit(self.buf@[i]),
            decreases self.buf@.len() - self.pos,
        {
            self.pos = self.pos + 1;
        }
        proof {
            lemma_digit_run_is(self.buf@, start as int, self.pos as int);
        }
        let ds = &self.buf[start..self.pos];
        match parse_uint(ds, usize::MAX as u64) {
            Some(n) => Ok(n as usize),
            None => Err(bad_decimal_error(ds)),
        }
    }

    fn decode_bytes(&mut self) -> (r: Result<Vec<u8>, CoreError>)
        requires
            old(self).wf(),
        ensures
            final(self).wf(),
            final(self).buf == old(self).buf,
            final(self).depth == old(self).depth,
            final(self).pos == sd_bytes(old(self).buf@, old(self).pos as int).1,
            match (r, sd_bytes(old(self).buf@, old(self).pos as int).0) {
                (Ok(d), Ok(m)) => d@ == m,
                (Err(e), Err(f)) => reports_fault(e, f),
                _ => false,
            },
    {
        proof {
            lemma_digit_run(self.buf@, self.pos as int);
        }
        let len = self.decode_decimal()?;
        if len > MAX_BYTES_ALLOCATION {
            return Err(invalid("allocation too large"));
        }
        self.expect(58u8)?;
        let end = match self.pos.checked_add(len) {
            Some(e) => e,
            None => return Err(invalid("position overflow")),
        };
        if end > self.buf.len() {
            return Err(CoreError::BencodePrematureEnd);
        }
        let data = vstd::slice::slice_to_vec(&self.buf[self.pos..end]);
        self.pos = end;
        Ok(data)
    }

    fn decode_list(&mut self) -> (r: Result<BValue, CoreError>)
        requires
            old(self).wf(),
            old(self).pos < old(self).buf@.len(),
            old(self).buf@[old(self).pos as int] == 108u8,
        ensures
            final(self).wf(),
            final(self).buf == old(self).buf,
            final(self).depth == old(self).depth + (if sd_items(
                old(self).buf@,
                old(self).pos + 1,
                old(self).depth as int,
                Seq::empty(),
            ).0 matches Err(DecodeFault::EndBeforeValue) {
                1int
            } else {
                0int
            }),
            decoded_as(
                r,
                sd_items(old(self).buf@, old(self).pos + 1, old(self).depth as int, Seq::empty()).0,
            ),
            final(self).pos == sd_items(
                old(self).buf@,
                old(self).pos + 1,
                old(self).depth as int,
                Seq::empty(),
            ).1,
        decreases old(self).buf@.len() - old(self).pos, 0int,
    {
        let ghost buf = self.buf@;
        let ghost depth = self.depth as int;
        let ghost goal = sd_items(buf, self.pos + 1, depth, Seq::empty());
        self.expect(108u8)?;
        let mut list: Vec<BValue> = Vec::new();
        proof {
            assert(view_list(list@) =~= Seq::<BVal>::empty());
        }
        loop
            invariant
                self.wf(),
                self.buf == old(self).buf,
                self.buf@ == buf,
                self.depth == depth,
                self.pos > old(self).pos,
                sd_items(buf, self.pos as int, depth, view_list(list@)) == goal,
                goal == sd_items(old(self).buf@, old(self).pos + 1, old(self).depth as int, Seq::empty()),
                buf == old(self).buf@,
                depth == old(self).depth,
            ensures
                self.pos < self.buf@.len(),
                self.buf@[self.pos as int] == 101u8,
                self.wf(),
                self.buf == old(self).buf,
                self.depth == depth,
                sd_items(buf, self.pos as int, depth, view_list(list@)) == goal,
            decreases self.buf@.len() - self.pos,
        {
            match self.peek() {
                Some(b) => {
                    if b == 101u8 {
                        break ;
                    }
                },
                None => {},
            }
            proof {
                lemma_sd_value_bounds(buf, self.pos as int, depth);
            }
            let ghost pos_before = self.pos as int;
            let v = match self.decode() {
                Ok(v) => v,
                Err(e) => {
                    return Err(e);
                },
            };
            proof {
                let l2 = list@.push(v);
                assert(l2.subrange(0, l2.len() - 1) =~= list@);
                assert(view_list(l2) == view_list(list@).push(v@));
            }
            list.push(v);
        }
        self.expect(101u8)?;
        Ok(BValue::List(list))
    }

    fn decode_dict(&mut self) -> (r: Result<BValue, CoreError>)
        requires
            old(self).wf(),
            old(self).pos < old(self).buf@.len(),
            old(self).buf@[old(self).pos as int] == 100u8,
        ensures
            final(self).wf(),
            final(self).buf == old(self).buf,
            final(self).depth == old(self).depth + (if sd_entries(
                old(self).buf@,
                old(self).pos + 1,
                old(self).depth as int,
                Seq::empty(),
            ).0 matches Err(DecodeFault::EndBeforeValue) {
                1int
            } else {
                0int
            }),
            decoded_as(
                r,
                sd_entries(
                    old(self).buf@,
                    old(self).pos + 1,
                    old(self).depth as int,
                    Seq::empty(),
                ).0,
            ),
            final(self).pos == sd_entries(
                old(self).buf@,
                old(self).pos + 1,
                old(self).depth as int,
                Seq::empty(),
            ).1,
        decreases old(self).buf@.len() - old(self).pos, 0int,
    {
        let ghost buf = self.buf@;
        let ghost depth = self.depth as int;
        let ghost goal = sd_entries(buf, self.pos + 1, depth, Seq::empty());
        self.expect(100u8)?;
        let mut map = BDict::new();
        loop
            invariant
                self.wf(),
                self.buf == old(self).buf,
                self.buf@ == buf,
                self.depth == depth,
                self.pos > old(self).pos,
                sd_entries(buf, self.pos as int, depth, map@) == goal,
                goal == sd_entries(old(self).buf@, old(self).pos + 1, old(self).depth as int, Seq::empty()),
                buf == old(self).buf@,
                depth == old(self).depth,
            ensures
                self.pos < self.buf@.len(),
                self.buf@[self.pos as int] == 101u8,
                self.wf(),
                self.buf == old(self).buf,
                self.depth == depth,
                sd_entries(buf, self.pos as int, depth, map@) == goal,
            decreases self.buf@.len() - self.pos,
        {
            match self.peek() {
                Some(b) => {
                    if b == 101u8 {
                        break ;
                    }
                },
                None => {},
            }
            proof {
                lemma_sd_bytes_bounds(buf, self.pos as int);
            }
            let key = match self.decode_bytes() {
                Ok(k) => k,
                Err(e) => return Err(e),
            };
            assert(self.pos > old(self).pos);
            proof {
                lemma_sd_value_bounds(buf, self.pos as int, depth);
            }
            let val = match self.decode() {
                Ok(v) => v,
                Err(e) => return Err(e),
            };
            map.insert(key, val);
        }
        self.expect(101u8)?;
        Ok(BValue::Dict(map))
    }

    /// The bytes from `start` up to the read position.
    pub fn raw_value_at(&self, start: usize) -> (r: &[u8])
        requires
            self.wf(),
            start <= self.cursor(),
        ensures
            r@ == self.input().subrange(start as int, self.cursor()),
    {
        &self.buf[start..self.pos]
    }

    pub fn position(&self) -> (r: usize)
        ensures
            r == self.cursor(),
    {
        self.pos
    }
}

// ─── Where a dictionary value lies ───────────────────────────────────────────
/// Walks the entries of a dictionary from `pos` (entries decoded at level `depth`) and gives
/// where the value stored under `key` lies: the span of its last occurrence, which is the one a
/// decoded dictionary keeps; `found` is what the entries before `pos` gave.
pub open spec fn value_span(
    buf: Seq<u8>,
    pos: int,
    depth: int,
    key: Seq<u8>,
    found: Option<(int, int)>,
) -> Result<Option<(int, int)>, DecodeFault>
    decreases buf.len() - pos,
{
    if 0 <= pos < buf.len() && buf[pos] == 101u8 {
        Ok(found)
    } else {
        match sd_bytes(buf, pos) {
            (Err(f), _) => Err(f),
            (Ok(k), p) => if p <= pos || p > buf.len() {
                Err(DecodeFault::PrematureEnd)
            } else {
                match sd_value(buf, p, depth) {
                    (Err(f), _) => Err(f),
                    (Ok(_), q) => if q <= p || q > buf.len() {
                        Err(DecodeFault::PrematureEnd)
                    } else {
                        value_span(
                            buf,
                            q,
                            depth,
                            key,
                            if k == key {
                                Some((p, q))
                            } else {
                                found
                            },
                        )
                    },
                }
            },
        }
    }
}

/// A span found by walking entries lies within the buffer.
pub proof fn lemma_value_span_bounds(buf: Seq<u8>, pos: int, depth: int, key: Seq<u8>, found: Option<(int, int)>)
    requires
        0 <= pos <= buf.len(),
        found matches Some((s, e)) ==> 0 <= s <= e <= buf.len(),
    ensures
        value_span(buf, pos, depth, key, found) matches Ok(Some((s, e))) ==> 0 <= s <= e <= buf.len(),
    decreases buf.len() - pos,
{
    if !(0 <= pos < buf.len() && buf[pos] == 101u8) {
        lemma_sd_bytes_bounds(buf, pos);
        let (rk, p) = sd_bytes(buf, pos);
        if rk is Ok && pos < p <= buf.len() {
            lemma_sd_value_bounds(buf, p, depth);
            let (rv, q) = sd_value(buf, p, depth);
            if rv is Ok && p < q <= buf.len() {
                lemma_value_span_bounds(buf, q, depth, key, if rk->Ok_0 == key {
                    Some((p, q))
                } else {
                    found
                });
            }
        }
    }
}

/// Looking a key up after an insert finds the inserted value for that key and what was there
/// before for any other.
pub proof fn lemma_lookup_insert<V>(s: Seq<(Seq<u8>, V)>, k: Seq<u8>, v: V, key: Seq<u8>)
    ensures
        dict_lookup(dict_insert(s, k, v), key) == (if k == key {
            Some(v)
        } else {
            dict_lookup(s, key)
        }),
    decreases s.len(),
{
    let r = dict_insert(s, k, v);
    if s.len() == 0 {
        assert(r[0] == (k, v));
        assert(r.drop_first() =~= Seq::<(Seq<u8>, V)>::empty());
    } else if s[0].0 == k {
        assert(r[0] == (k, v));
        assert(r.drop_first() =~= s.drop_first());
    } else if lex_lt(k, s[0].0) {
        assert(r[0] == (k, v));
        assert(r.drop_first() =~= s);
    } else {
        lemma_lookup_insert(s.drop_first(), k, v, key);
        assert(r[0] == s[0]);
        assert(r.drop_first() =~= dict_insert(s.drop_first(), k, v));
    }
}

/// A span found for a key holds, decoded in place, the value that the dictionary keeps for it.
pub open spec fn span_holds(buf: Seq<u8>, depth: int, o: Option<(int, int)>, m: Option<BVal>) -> bool {
    match (o, m) {
        (Some((s, e)), Some(v)) => sd_value(buf, s, depth) == (Ok::<BVal, DecodeFault>(v), e),
        (None, None) => true,
        _ => false,
    }
}

proof fn lemma_items_list(buf: Seq<u8>, pos: int, depth: int, acc: Seq<BVal>)
    ensures
        sd_items(buf, pos, depth, acc).0 matches Ok(v) ==> v is List,
    decreases buf.len() - pos,
{
    if !(0 <= pos < buf.len() && buf[pos] == 101u8) {
        let (r, q) = sd_value(buf, pos, depth);
        if r is Ok && pos < q <= buf.len() {
            lemma_items_list(buf, q, depth, acc.push(r->Ok_0));
        }
    }
}

proof fn lemma_value_span_entries(
    buf: Seq<u8>,
    pos: int,
    depth: int,
    key: Seq<u8>,
    acc: Seq<(Seq<u8>, BVal)>,
    found: Option<(int, int)>,
)
    requires
        span_holds(buf, depth, found, dict_lookup(acc, key)),
        sd_entries(buf, pos, depth, acc).0 is Ok,
    ensures
        sd_entries(buf, pos, depth, acc).0 matches Ok(BVal::Dict(d)) && value_span(buf, pos, depth, key, found) matches Ok(o)
            && span_holds(buf, depth, o, dict_lookup(d, key)),
    decreases buf.len() - pos,
{
    if !(0 <= pos < buf.len() && buf[pos] == 101u8) {
        let (rk, p) = sd_bytes(buf, pos);
        let k = rk->Ok_0;
        let (rv, q) = sd_value(buf, p, depth);
        let v = rv->Ok_0;
        lemma_lookup_insert(acc, k, v, key);
        lemma_value_span_entries(buf, q, depth, key, dict_insert(acc, k, v), if k == key {
            Some((p, q))
        } else {
            found
        });
    }
}

/// In a buffer that decodes to a dictionary, walking its entries finds a span exactly when the
/// dictionary has the key, and that span decodes in place to the value kept for the key.
pub proof fn lemma_dict_value_span(buf: Seq<u8>, key: Seq<u8>)
    requires
        spec_decode(buf) matches Ok(BVal::Dict(_)),
    ensures
        spec_decode(buf) matches Ok(BVal::Dict(d)) && spec_dict_value_span(buf, key) matches Ok(o)
            && span_holds(buf, 1, o, dict_lookup(d, key)),
{
    let b = buf[0];
    if b == 108u8 {
        lemma_items_list(buf, 1, 1, Seq::empty());
    }
    assert(b == 100u8);
    lemma_value_span_entries(buf, 1, 1, key, Seq::empty(), None);
}

/// Where the value under `key` lies in a buffer that starts with a dictionary: `None` when the
/// key is absent or the buffer does not start with one.
pub open spec fn spec_dict_value_span(buf: Seq<u8>, key: Seq<u8>) -> Result<Option<(int, int)>, DecodeFault> {
    if buf.len() > 0 && buf[0] == 100u8 {
        value_span(buf, 1, 1, key, None)
    } else {
        Ok(None)
    }
}

/// A span of positions as integers.
pub open spec fn span_of(o: Option<(usize, usize)>) -> Option<(int, int)> {
    match o {
        Some((a, b)) => Some((a as int, b as int)),
        None => None,
    }
}

/// Finds where the value stored under `key` lies in the dictionary at the start of `buf`,
/// walking its entries as the decoder does.
pub fn dict_value_range(buf: &[u8], key: &[u8]) -> (r: Result<Option<(usize, usize)>, CoreError>)
    ensures
        match spec_dict_value_span(buf@, key@) {
            Ok(o) => r matches Ok(x) && span_of(x) == o,
            Err(f) => r matches Err(e) && reports_fault(e, f),
        },
{
    if buf.len() == 0 || buf[0] != 100u8 {
        return Ok(None);
    }
    let mut d = Decoder { buf, pos: 1, depth: 1 };
    let mut found: Option<(usize, usize)> = None;
    loop
        invariant
            d.wf(),
            d.buf@ == buf@,
            d.depth == 1,
            buf@.len() > 0 && buf@[0] == 100u8,
            value_span(buf@, d.pos as int, 1, key@, span_of(found)) == spec_dict_value_span(
                buf@,
                key@,
            ),
        decreases buf@.len() - d.pos,
    {
        match d.peek() {
            Some(b) => {
                if b == 101u8 {
                    return Ok(found);
                }
            },
            None => {},
        }
        proof {
            lemma_sd_bytes_bounds(buf@, d.pos as int);
        }
        let k = match d.decode_bytes() {
            Ok(k) => k,
            Err(e) => return Err(e),
        };
        let start = d.pos;
        proof {
            lemma_sd_value_bounds(buf@, d.pos as int, 1);
        }
        match d.decode() {
            Ok(_) => {},
            Err(e) => return Err(e),
        }
        let end = d.pos;
        if bytes_eq(k.as_slice(), key) {
            found = Some((start, end));
        }
    }
}

// ─── Dictionary operations ───────────────────────────────────────────────────
fn bytes_eq(a: &[u8], b: &[u8]) -> (r: bool)
    ensures
        r == (a@ == b@),
{
    if a.len() != b.len() {
        return false;
    }
    let mut i: usize = 0;
    while i < a.len()
        invariant
            a.len() == b.len(),
            0 <= i <= a.len(),
            forall|j: int| 0 <= j < i ==> a@[j] == b@[j],
        decreases a.len() - i,
    {
        if a[i] != b[i] {
            return false;
        }
        i = i + 1;
    }
    assert(a@ =~= b@);
    true
}

proof fn lemma_lex_common_prefix(a: Seq<u8>, b: Seq<u8>, i: int)
    requires
        0 <= i <= a.len(),
        i <= b.len(),
        forall|j: int| 0 <= j < i ==> a[j] == b[j],
    ensures
        lex_lt(a, b) == lex_lt(a.skip(i), b.skip(i)),
    decreases i,
{
    if i > 0 {
        lemma_lex_common_prefix(a.drop_first(), b.drop_first(), i - 1);
        assert(a.drop_first().skip(i - 1) =~= a.skip(i));
        assert(b.drop_first().skip(i - 1) =~= b.skip(i));
    } else {
        assert(a.skip(0) =~= a);
        assert(b.skip(0) =~= b);
    }
}

fn lex_less(a: &[u8], b: &[u8]) -> (r: bool)
    ensures
        r == lex_lt(a@, b@),
{
    let mut i: usize = 0;
    while i < a.len() && i < b.len()
        invariant
            0 <= i <= a.len(),
            i <= b.len(),
            forall|j: int| 0 <= j < i ==> a@[j] == b@[j],
        decreases a.len() - i,
    {
        if a[i] != b[i] {
            proof {
                lemma_lex_common_prefix(a@, b@, i as int);
            }
            return a[i] < b[i];
        }
        i = i + 1;
    }
    proof {
        lemma_lex_common_prefix(a@, b@, i as int);
    }
    i < b.len()
}

impl BDict {
    /// The keys are kept in strictly increasing order.
    #[verifier::type_invariant]
    spec fn keys_in_order(self) -> bool {
        keys_sorted(view_entries(self.entries@))
    }

    pub fn new() -> (d: Self)
        ensures
            d@ == Seq::<(Seq<u8>, BVal)>::empty(),
    {
        let d = BDict { entries: Vec::new() };
        assert(view_entries(d.entries@) =~= Seq::<(Seq<u8>, BVal)>::empty());
        d
    }

    /// Number of entries.
    pub fn len(&self) -> (n: usize)
        ensures
            n == self@.len(),
    {
        proof {
            lemma_view_entries(self.entries@);
        }
        self.entries.len()
    }

    /// The entries, in key order.
    pub fn entries(&self) -> (r: &[(Vec<u8>, BValue)])
        ensures
            r@.len() == self@.len(),
            forall|i: int|
                0 <= i < r@.len() ==> (#[trigger] r@[i]).0@ == self@[i].0 && r@[i].1@
                    == self@[i].1,
    {
        proof {
            lemma_view_entries(self.entries@);
        }
        self.entries.as_slice()
    }

    /// Stores `value` under `key`, replacing the value of a key already present.
    pub fn insert(&mut self, key: Vec<u8>, value: BValue)
        ensures
            final(self)@ == dict_insert(old(self)@, key@, value@),
    {
        proof {
            use_type_invariant(&*self);
        }
        let mut entries: Vec<(Vec<u8>, BValue)> = Vec::new();
        proof {
            assert(view_entries(entries@) =~= Seq::<(Seq<u8>, BVal)>::empty());
        }
        std::mem::swap(&mut entries, &mut self.entries);
        let ghost start = view_entries(entries@);
        assert(start == old(self)@);
        proof {
            lemma_view_entries(entries@);
        }
        let mut i: usize = 0;
        while i < entries.len() && lex_less(entries[i].0.as_slice(), key.as_slice())
            invariant
                0 <= i <= entries@.len(),
                view_entries(entries@) == start,
                forall|j: int| 0 <= j < i ==> lex_lt(#[trigger] entries@[j].0@, key@),
            decreases entries@.len() - i,
        {
            i = i + 1;
        }
        proof {
            lemma_view_entries(entries@);
            assert forall|j: int| 0 <= j < i implies lex_lt(#[trigger] start[j].0, key@) by {
                assert(start[j].0 == entries@[j].0@);
            }
            lemma_dict_insert_at(start, key@, value@, i as int);
            lemma_dict_insert_sorted(start, key@, value@);
        }
        let ghost kv = key@;
        let ghost vv = value@;
        if i < entries.len() && bytes_eq(entries[i].0.as_slice(), key.as_slice()) {
            let ghost before = entries@;
            entries.set(i, (key, value));
            proof {
                lemma_view_entries(before);
                lemma_view_entries(entries@);
                assert(view_entries(entries@) =~= view_entries(before).update(i as int, (kv, vv)));
            }
        } else {
            let ghost before = entries@;
            entries.insert(i, (key, value));
            proof {
                lemma_view_entries(before);
                lemma_view_entries(entries@);
                assert(view_entries(entries@) =~= view_entries(before).insert(i as int, (kv, vv)));
            }
        }
        self.entries = entries;
    }

    /// The value stored under `key`.
    pub fn get(&self, key: &[u8]) -> (r: Option<&BValue>)
        ensures
            match dict_lookup(self@, key@) {
                Some(v) => r matches Some(x) && x@ == v,
                None => r is None,
            },
    {
        proof {
            lemma_view_entries(self.entries@);
        }
        let mut i: usize = 0;
        while i < self.entries.len()
            invariant
                0 <= i <= self.entries@.len(),
                self@.len() == self.entries@.len(),
                dict_lookup(self@, key@) == dict_lookup(self@.skip(i as int), key@),
            decreases self.entries@.len() - i,
        {
            proof {
                lemma_view_entries(self.entries@);
                assert(self@.skip(i as int).drop_first() =~= self@.skip(i + 1));
            }
            if bytes_eq(self.entries[i].0.as_slice(), key) {
                return Some(&self.entries[i].1);
            }
            i = i + 1;
        }
        None
    }
}

// ─── Accessors ───────────────────────────────────────────────────────────────
impl BValue {
    /// An integer value.
    pub fn from_int(n: i64) -> (v: Self)
        ensures
            v@ == BVal::Int(n as int),
    {
        BValue::Int(n)
    }

    /// A dictionary value.
    pub fn from_dict(d: BDict) -> (v: Self)
        ensures
            v@ == BVal::Dict(d@),
    {
        BValue::Dict(d)
    }

    /// The bytes as text, when this is a byte string holding valid UTF-8.
    pub fn as_str(&self) -> (r: Option<&str>)
        ensures
            match self@ {
                BVal::Bytes(b) => if valid_utf8(b) {
                    r matches Some(s) && s@ == decode_utf8(b)
                } else {
                    r is None
                },
                _ => r is None,
            },
    {
        match self {
            BValue::Bytes(b) => str_from_utf8(b.as_slice()),
            _ => None,
        }
    }

    pub fn as_bytes(&self) -> (r: Option<&[u8]>)
        ensures
            match self@ {
                BVal::Bytes(b) => r matches Some(x) && x@ == b,
                _ => r is None,
            },
    {
        match self {
            BValue::Bytes(b) => Some(b.as_slice()),
            _ => None,
        }
    }

    pub fn as_int(&self) -> (r: Option<i64>)
        ensures
            match self@ {
                BVal::Int(n) => r == Some(n as i64) && i64::MIN <= n <= i64::MAX,
                _ => r is None,
            },
    {
        match self {
            BValue::Int(i) => Some(*i),
            _ => None,
        }
    }

    pub fn as_list(&self) -> (r: Option<&[BValue]>)
        ensures
            match self@ {
                BVal::List(l) => r matches Some(x) && x@.len() == l.len() && forall|i: int|
                    0 <= i < l.len() ==> (#[trigger] x@[i])@ == l[i],
                _ => r is None,
            },
    {
        match self {
            BValue::List(l) => {
                proof {
                    lemma_view_list(l@);
                }
                Some(l.as_slice())
            },
            _ => None,
        }
    }

    pub fn as_dict(&self) -> (r: Option<&BDict>)
        ensures
            match self@ {
                BVal::Dict(d) => r matches Some(x) && x@ == d,
                _ => r is None,
            },
    {
        match self {
            BValue::Dict(d) => Some(d),
            _ => None,
        }
    }

    /// The value under a text key, when this is a dictionary.
    pub fn dict_get(&self, key: &str) -> (r: Option<&BValue>)
        ensures
            match self@ {
                BVal::Dict(d) => match dict_lookup(d, key.spec_bytes()) {
                    Some(v) => r matches Some(x) && x@ == v,
                    None => r is None,
                },
                _ => r is None,
            },
    {
        match self.as_dict() {
            Some(d) => d.get(key.as_bytes()),
            None => None,
        }
    }
}

// ─── Whole-buffer decoding ───────────────────────────────────────────────────
/// Decodes the value at the start of `buf`; bytes after it are ignored.
pub fn decode(buf: &[u8]) -> (r: Result<BValue, CoreError>)
    ensures
        decoded_as(r, spec_decode(buf@)),
{
    let mut d = Decoder::new(buf);
    d.decode()
}

/// Decodes the value at the start of `buf` and gives the byte range it spans.
pub fn decode_with_range(buf: &[u8]) -> (r: Result<(BValue, usize, usize), CoreError>)
    ensures
        match (r, sd_value(buf@, 0, 0)) {
            ((Ok((v, start, end))), (Ok(m), e)) => v@ == m && start == 0 && end == e,
            (Err(err), (Err(f), _)) => reports_fault(err, f),
            _ => false,
        },
{
    let mut d = Decoder::new(buf);
    let start = d.position();
    let v = match d.decode() {
        Ok(v) => v,
        Err(e) => return Err(e),
    };
    Ok((v, start, d.position()))
}

// ─── Encoding ────────────────────────────────────────────────────────────────
/// The bencoding of a value; dictionaries are written in the order of their entries.
pub open spec fn se_value(v: BVal) -> Seq<u8>
    decreases v,
{
    match v {
        BVal::Int(n) => seq![105u8] + int_text(n) + seq![101u8],
        BVal::Bytes(b) => nat_text(b.len()) + seq![58u8] + b,
        BVal::List(l) => seq![108u8] + se_list(l) + seq![101u8],
        BVal::Dict(d) => seq![100u8] + se_entries(d) + seq![101u8],
    }
}

pub open spec fn se_list(l: Seq<BVal>) -> Seq<u8>
    decreases l,
{
    if l.len() == 0 {
        Seq::empty()
    } else {
        se_list(l.subrange(0, l.len() - 1)) + se_value(l[l.len() - 1])
    }
}

pub open spec fn se_entries(d: Seq<(Seq<u8>, BVal)>) -> Seq<u8>
    decreases d,
{
    if d.len() == 0 {
        Seq::empty()
    } else {
        se_entries(d.subrange(0, d.len() - 1)) + nat_text(d[d.len() - 1].0.len()) + seq![58u8]
            + d[d.len() - 1].0 + se_value(d[d.len() - 1].1)
    }
}

/// The bencoding of `v`.
pub fn encode(v: &BValue) -> (out: Vec<u8>)
    ensures
        out@ == se_value(v@),
        within_limits(v@, 0) ==> spec_decode(out@) == Ok::<BVal, DecodeFault>(v@),
{
    let mut out = Vec::new();
    encode_into(v, &mut out);
    assert(out@ =~= se_value(v@));
    let n = out.len();
    proof {
        assert(se_value(v@).len() == n);
        if within_limits(v@, 0) {
            lemma_fits_of_sorted(v@, 0);
            law_decode_encode(v@);
        }
    }
    out
}

fn push_bytes(out: &mut Vec<u8>, b: &[u8])
    ensures
        final(out)@ == old(out)@ + b@,
{
    let mut i: usize = 0;
    while i < b.len()
        invariant
            0 <= i <= b.len(),
            out@ == old(out)@ + b@.subrange(0, i as int),
        decreases b.len() - i,
    {
        out.push(b[i]);
        i = i + 1;
        assert(out@ =~= old(out)@ + b@.subrange(0, i as int));
    }
    assert(b@.subrange(0, b.len() as int) =~= b@);
}

fn encode_into(v: &BValue, out: &mut Vec<u8>)
    ensures
        final(out)@ == old(out)@ + se_value(v@),
        sorted_dicts(v@),
    decreases v,
{
    match v {
        BValue::Int(n) => {
            out.push(105u8);
            push_int_text(out, *n);
            out.push(101u8);
            assert(out@ =~= old(out)@ + se_value(v@));
        },
        BValue::Bytes(b) => {
            push_nat_text(out, b.len() as u64);
            out.push(58u8);
            push_bytes(out, b.as_slice());
            assert(out@ =~= old(out)@ + se_value(v@));
        },
        BValue::List(l) => {
            proof {
                lemma_view_list(l@);
            }
            let ghost items = view_list(l@);
            out.push(108u8);
            let mut i: usize = 0;
            while i < l.len()
                invariant
                    0 <= i <= l.len(),
                    items == view_list(l@),
                    (*v) is List && (*v)->List_0 == *l,
                    items.len() == l@.len(),
                    forall|j: int| 0 <= j < l@.len() ==> #[trigger] items[j] == view_value(l@[j]),
                    out@ == old(out)@ + seq![108u8] + se_list(items.subrange(0, i as int)),
                    forall|j: int| 0 <= j < i ==> sorted_dicts(#[trigger] items[j]),
                decreases l.len() - i,
            {
                assert(decreases_to!(*v => (*v)->List_0));
                assert(decreases_to!(*l => l@));
                assert(decreases_to!(l@ => l@[i as int]));
                assert(decreases_to!(*v => l@[i as int]));
                encode_into(&l[i], out);
                assert(items.subrange(0, i + 1).subrange(0, i as int) =~= items.subrange(
                    0,
                    i as int,
                ));
                i = i + 1;
                assert(out@ =~= old(out)@ + seq![108u8] + se_list(items.subrange(0, i as int)));
            }
            out.push(101u8);
            assert(items.subrange(0, l.len() as int) =~= items);
            assert(out@ =~= old(out)@ + se_value(v@));
        },
        BValue::Dict(d) => {
            proof {
                lemma_view_entries(d.entries@);
                use_type_invariant(d);
            }
            let ghost items = d@;
            out.push(100u8);
            let mut i: usize = 0;
            while i < d.entries.len()
                invariant
                    0 <= i <= d.entries@.len(),
                    items == d@,
                    (*v) is Dict && (*v)->Dict_0 == *d,
                    items.len() == d.entries@.len(),
                    forall|j: int|
                        0 <= j < d.entries@.len() ==> #[trigger] items[j] == (
                            d.entries@[j].0@,
                            view_value(d.entries@[j].1),
                        ),
                    out@ == old(out)@ + seq![100u8] + se_entries(items.subrange(0, i as int)),
                    keys_sorted(items),
                    forall|j: int| 0 <= j < i ==> sorted_dicts((#[trigger] items[j]).1),
                decreases d.entries@.len() - i,
            {
                let key = &d.entries[i].0;
                push_nat_text(out, key.len() as u64);
                out.push(58u8);
                push_bytes(out, key.as_slice());
                assert(decreases_to!(*v => (*v)->Dict_0));
                assert(decreases_to!(*d => d.entries));
                assert(decreases_to!(d.entries => d.entries@));
                assert(decreases_to!(d.entries@ => d.entries@[i as int]));
                assert(decreases_to!(d.entries@[i as int] => d.entries@[i as int].1));
                assert(decreases_to!(*v => d.entries@[i as int].1));
                encode_into(&d.entries[i].1, out);
                assert(items.subrange(0, i + 1).subrange(0, i as int) =~= items.subrange(
                    0,
                    i as int,
                ));
                i = i + 1;
                assert(out@ =~= old(out)@ + seq![100u8] + se_entries(items.subrange(0, i as int)));
            }
            out.push(101u8);
            assert(items.subrange(0, d.entries.len() as int) =~= items);
            assert(out@ =~= old(out)@ + se_value(v@));
        },
    }
}

// ─── Round trip ──────────────────────────────────────────────────────────────
/// `v` can be decoded at nesting level `depth`: levels within the limit, integers within
/// `i64`, byte strings within the size limit, dictionary keys strictly increasing.
pub open spec fn fits(v: BVal, depth: int) -> bool
    decreases v,
{
    depth <= max_decode_depth() && match v {
        BVal::Int(n) => i64::MIN <= n <= i64::MAX,
        BVal::Bytes(b) => b.len() <= max_bytes_allocation(),
        BVal::List(l) => forall|i: int| 0 <= i < l.len() ==> fits(#[trigger] l[i], depth + 1),
        BVal::Dict(d) => keys_sorted(d) && forall|i: int|
            0 <= i < d.len() ==> (#[trigger] d[i]).0.len() <= max_bytes_allocation() && fits(
                d[i].1,
                depth + 1,
            ),
    }
}

/// Every dictionary in `v` has its keys in strictly increasing order.
pub open spec fn sorted_dicts(v: BVal) -> bool
    decreases v,
{
    match v {
        BVal::List(l) => forall|i: int| 0 <= i < l.len() ==> sorted_dicts(#[trigger] l[i]),
        BVal::Dict(d) => keys_sorted(d) && forall|i: int| 0 <= i < d.len() ==> sorted_dicts(
            (#[trigger] d[i]).1,
        ),
        _ => true,
    }
}

/// `v` is within the decoder's limits at nesting level `depth`: levels within the limit,
/// integers within `i64`, byte strings and keys within the size limit.
pub open spec fn within_limits(v: BVal, depth: int) -> bool
    decreases v,
{
    depth <= max_decode_depth() && match v {
        BVal::Int(n) => i64::MIN <= n <= i64::MAX,
        BVal::Bytes(b) => b.len() <= max_bytes_allocation(),
        BVal::List(l) => forall|i: int| 0 <= i < l.len() ==> within_limits(#[trigger] l[i], depth + 1),
        BVal::Dict(d) => forall|i: int|
            0 <= i < d.len() ==> (#[trigger] d[i]).0.len() <= max_bytes_allocation() && within_limits(
                d[i].1,
                depth + 1,
            ),
    }
}

proof fn lemma_fits_of_sorted(v: BVal, depth: int)
    requires
        within_limits(v, depth),
        sorted_dicts(v),
    ensures
        fits(v, depth),
    decreases v,
{
    match v {
        BVal::List(l) => {
            assert forall|i: int| 0 <= i < l.len() implies fits(#[trigger] l[i], depth + 1) by {
                lemma_fits_of_sorted(l[i], depth + 1);
            }
        },
        BVal::Dict(d) => {
            assert forall|i: int| 0 <= i < d.len() implies (#[trigger] d[i]).0.len()
                <= max_bytes_allocation() && fits(d[i].1, depth + 1) by {
                lemma_fits_of_sorted(d[i].1, depth + 1);
            }
        },
        _ => {},
    }
}

/// `s` stands in `buf` at `pos`.
pub open spec fn holds_at(buf: Seq<u8>, pos: int, s: Seq<u8>) -> bool {
    0 <= pos && pos + s.len() <= buf.len() && buf.subrange(pos, pos + s.len()) == s
}

proof fn lemma_holds_split(buf: Seq<u8>, pos: int, a: Seq<u8>, b: Seq<u8>)
    requires
        holds_at(buf, pos, a + b),
    ensures
        holds_at(buf, pos, a),
        holds_at(buf, pos + a.len(), b),
{
    assert(buf.subrange(pos, pos + a.len()) =~= (a + b).subrange(0, a.len() as int));
    assert(buf.subrange(pos + a.len(), pos + a.len() + b.len()) =~= (a + b).subrange(
        a.len() as int,
        (a + b).len() as int,
    ));
}

proof fn lemma_se_value_first(v: BVal)
    ensures
        se_value(v).len() > 0,
        se_value(v)[0] != 101u8,
{
    match v {
        BVal::Bytes(b) => {
            lemma_nat_text(b.len());
        },
        _ => {},
    }
}

proof fn lemma_se_list_prefix(l: Seq<BVal>, j: int)
    requires
        0 <= j <= l.len(),
    ensures
        se_list(l.subrange(0, j)).len() <= se_list(l).len(),
        se_list(l).subrange(0, se_list(l.subrange(0, j)).len() as int) == se_list(
            l.subrange(0, j),
        ),
    decreases l.len(),
{
    if j == l.len() {
        assert(l.subrange(0, j) =~= l);
        assert(se_list(l).subrange(0, se_list(l).len() as int) =~= se_list(l));
    } else {
        let p = l.subrange(0, l.len() - 1);
        lemma_se_list_prefix(p, j);
        assert(p.subrange(0, j) =~= l.subrange(0, j));
        let a = se_list(p);
        let b = se_value(l[l.len() - 1]);
        assert((a + b).subrange(0, se_list(l.subrange(0, j)).len() as int) =~= a.subrange(
            0,
            se_list(l.subrange(0, j)).len() as int,
        ));
    }
}

proof fn lemma_se_entries_prefix(d: Seq<(Seq<u8>, BVal)>, j: int)
    requires
        0 <= j <= d.len(),
    ensures
        se_entries(d.subrange(0, j)).len() <= se_entries(d).len(),
        se_entries(d).subrange(0, se_entries(d.subrange(0, j)).len() as int) == se_entries(
            d.subrange(0, j),
        ),
    decreases d.len(),
{
    if j == d.len() {
        assert(d.subrange(0, j) =~= d);
        assert(se_entries(d).subrange(0, se_entries(d).len() as int) =~= se_entries(d));
    } else {
        let p = d.subrange(0, d.len() - 1);
        lemma_se_entries_prefix(p, j);
        assert(p.subrange(0, j) =~= d.subrange(0, j));
        let last = d[d.len() - 1];
        let a = se_entries(p);
        let b = nat_text(last.0.len()) + seq![58u8] + last.0 + se_value(last.1);
        assert(se_entries(d) =~= a + b);
        assert((a + b).subrange(0, se_entries(d.subrange(0, j)).len() as int) =~= a.subrange(
            0,
            se_entries(d.subrange(0, j)).len() as int,
        ));
    }
}

proof fn lemma_sd_bytes_encoded(b: Seq<u8>, buf: Seq<u8>, pos: int)
    requires
        b.len() <= max_bytes_allocation(),
        holds_at(buf, pos, nat_text(b.len()) + seq![58u8] + b),
        buf.len() <= usize::MAX,
    ensures
        sd_bytes(buf, pos) == (
        Ok::<Seq<u8>, DecodeFault>(b),
        pos + (nat_text(b.len()) + seq![58u8] + b).len(),
        ),
{
    let t = nat_text(b.len());
    lemma_nat_text(b.len());
    lemma_holds_split(buf, pos, t + seq![58u8], b);
    lemma_holds_split(buf, pos, t, seq![58u8]);
    let e = pos + t.len();
    assert forall|i: int| pos <= i < e implies is_digit(buf[i]) by {
        assert(buf[i] == buf.subrange(pos, e)[i - pos]);
    }
    assert(buf[e] == buf.subrange(e, e + 1)[0]);
    lemma_digit_run_is(buf, pos, e);
    assert(buf.subrange(pos, e) == t);
    assert(unsigned_digits(t) == t);
    assert(buf.subrange(e + 1, e + 1 + b.len()) == b);
}

#[verifier::spinoff_prover]
#[verifier::rlimit(40)]
proof fn lemma_sd_value_encoded(v: BVal, buf: Seq<u8>, pos: int, depth: int)
    requires
        fits(v, depth),
        holds_at(buf, pos, se_value(v)),
        buf.len() <= usize::MAX,
    ensures
        sd_value(buf, pos, depth) == (Ok::<BVal, DecodeFault>(v), pos + se_value(v).len()),
    decreases v, 0int,
{
    let sv = se_value(v);
    assert(buf[pos] == buf.subrange(pos, pos + sv.len())[0]);
    match v {
        BVal::Int(n) => {
            let t = int_text(n);
            lemma_int_text_parses(n, i64::MIN as int, i64::MAX as int);
            lemma_holds_split(buf, pos, seq![105u8] + t, seq![101u8]);
            lemma_holds_split(buf, pos, seq![105u8], t);
            let e = pos + 1 + t.len();
            assert forall|i: int| 0 <= i < t.len() implies t[i] != 101u8 && t[i] < 128 by {
                if i > 0 {
                    assert(t[i] == t.drop_first()[i - 1]);
                } else {
                    if n >= 0 {
                        lemma_nat_text(n as nat);
                    } else {
                        assert(t[0] == 45u8);
                    }
                }
            }
            assert forall|i: int| pos + 1 <= i < e implies buf[i] != 101u8 by {
                assert(buf[i] == buf.subrange(pos + 1, e)[i - pos - 1]);
            }
            assert(buf[e] == buf.subrange(e, e + 1)[0]);
            lemma_scan_to_is(buf, pos + 1, 101u8, e);
            assert(buf.subrange(pos + 1, e) == t);
            assert(ascii_bytes(t));
            lemma_ascii_utf8(t);
        },
        BVal::Bytes(b) => {
            lemma_nat_text(b.len());
            assert(sv =~= nat_text(b.len()) + seq![58u8] + b);
            assert(sv[0] == nat_text(b.len())[0]);
            lemma_sd_bytes_encoded(b, buf, pos);
        },
        BVal::List(l) => {
            lemma_holds_split(buf, pos, seq![108u8] + se_list(l), seq![101u8]);
            lemma_holds_split(buf, pos, seq![108u8], se_list(l));
            assert(holds_at(buf, pos + 1, se_list(l) + seq![101u8])) by {
                assert(buf.subrange(pos + 1, pos + 1 + se_list(l).len() + 1) =~= sv.subrange(
                    1,
                    sv.len() as int,
                ));
                assert(sv.subrange(1, sv.len() as int) =~= se_list(l) + seq![101u8]);
            }
            assert(l.subrange(0, 0) =~= Seq::<BVal>::empty());
            lemma_sd_items_encoded(l, 0, buf, pos + 1, depth + 1);
        },
        BVal::Dict(d) => {
            assert(holds_at(buf, pos + 1, se_entries(d) + seq![101u8])) by {
                assert(buf.subrange(pos + 1, pos + 1 + se_entries(d).len() + 1) =~= sv.subrange(
                    1,
                    sv.len() as int,
                ));
                assert(sv.subrange(1, sv.len() as int) =~= se_entries(d) + seq![101u8]);
            }
            assert(d.subrange(0, 0) =~= Seq::<(Seq<u8>, BVal)>::empty());
            lemma_sd_entries_encoded(d, 0, buf, pos + 1, depth + 1);
        },
    }
}

proof fn lemma_sd_items_encoded(l: Seq<BVal>, k: int, buf: Seq<u8>, start: int, depth: int)
    requires
        0 <= k <= l.len(),
        forall|i: int| 0 <= i < l.len() ==> fits(#[trigger] l[i], depth),
        holds_at(buf, start, se_list(l) + seq![101u8]),
        buf.len() <= usize::MAX,
    ensures
        sd_items(buf, start + se_list(l.subrange(0, k)).len(), depth, l.subrange(0, k)) == (
        Ok::<BVal, DecodeFault>(BVal::List(l)),
        start + se_list(l).len() + 1,
        ),
    decreases l, l.len() - k,
{
    lemma_holds_split(buf, start, se_list(l), seq![101u8]);
    let p = start + se_list(l.subrange(0, k)).len();
    if k == l.len() {
        assert(l.subrange(0, k) =~= l);
        assert(buf[p] == buf.subrange(p, p + 1)[0]);
    } else {
        lemma_se_list_prefix(l, k + 1);
        let pre = l.subrange(0, k + 1);
        assert(pre.subrange(0, k) =~= l.subrange(0, k));
        assert(se_list(pre) == se_list(l.subrange(0, k)) + se_value(l[k]));
        assert(holds_at(buf, start, se_list(pre))) by {
            assert(buf.subrange(start, start + se_list(pre).len()) =~= se_list(l).subrange(
                0,
                se_list(pre).len() as int,
            ));
        }
        lemma_holds_split(buf, start, se_list(l.subrange(0, k)), se_value(l[k]));
        lemma_se_value_first(l[k]);
        assert(buf[p] == buf.subrange(p, p + se_value(l[k]).len())[0]);
        lemma_sd_value_encoded(l[k], buf, p, depth);
        assert(l.subrange(0, k).push(l[k]) =~= pre);
        lemma_sd_items_encoded(l, k + 1, buf, start, depth);
    }
}

proof fn lemma_sd_entries_encoded(
    d: Seq<(Seq<u8>, BVal)>,
    k: int,
    buf: Seq<u8>,
    start: int,
    depth: int,
)
    requires
        0 <= k <= d.len(),
        keys_sorted(d),
        forall|i: int|
            0 <= i < d.len() ==> (#[trigger] d[i]).0.len() <= max_bytes_allocation() && fits(
                d[i].1,
                depth,
            ),
        holds_at(buf, start, se_entries(d) + seq![101u8]),
        buf.len() <= usize::MAX,
    ensures
        sd_entries(buf, start + se_entries(d.subrange(0, k)).len(), depth, d.subrange(0, k)) == (
        Ok::<BVal, DecodeFault>(BVal::Dict(d)),
        start + se_entries(d).len() + 1,
        ),
    decreases d, d.len() - k,
{
    lemma_holds_split(buf, start, se_entries(d), seq![101u8]);
    let p = start + se_entries(d.subrange(0, k)).len();
    if k == d.len() {
        assert(d.subrange(0, k) =~= d);
        assert(buf[p] == buf.subrange(p, p + 1)[0]);
    } else {
        lemma_se_entries_prefix(d, k + 1);
        let pre = d.subrange(0, k + 1);
        assert(pre.subrange(0, k) =~= d.subrange(0, k));
        let key = d[k].0;
        let val = d[k].1;
        let kb = nat_text(key.len()) + seq![58u8] + key;
        assert(se_entries(pre) =~= se_entries(d.subrange(0, k)) + kb + se_value(val));
        assert(holds_at(buf, start, se_entries(pre))) by {
            assert(buf.subrange(start, start + se_entries(pre).len()) =~= se_entries(d).subrange(
                0,
                se_entries(pre).len() as int,
            ));
        }
        lemma_holds_split(buf, start, se_entries(d.subrange(0, k)) + kb, se_value(val));
        lemma_holds_split(buf, start, se_entries(d.subrange(0, k)), kb);
        lemma_nat_text(key.len());
        assert(kb[0] == nat_text(key.len())[0]);
        assert(buf[p] == buf.subrange(p, p + kb.len())[0]);
        lemma_sd_bytes_encoded(key, buf, p);
        let p2 = p + kb.len();
        lemma_se_value_first(val);
        assert(decreases_to!(d => d[k]));
        assert(decreases_to!(d[k] => d[k].1));
        lemma_sd_value_encoded(val, buf, p2, depth);
        assert forall|j: int| 0 <= j < k implies lex_lt(#[trigger] d.subrange(0, k)[j].0, key) by {
            assert(d.subrange(0, k)[j] == d[j]);
        }
        lemma_dict_insert_at(d.subrange(0, k), key, val, k);
        assert(d.subrange(0, k).insert(k, (key, val)) =~= pre);
        lemma_sd_entries_encoded(d, k + 1, buf, start, depth);
    }
}

/// Decoding gives back what encoding wrote: for every value that fits the decoder's limits
/// (nesting, integer range, byte-string size, increasing dictionary keys), decoding its
/// bencoding yields the value and consumes the whole encoding.
pub proof fn law_decode_encode(v: BVal)
    requires
        fits(v, 0),
        se_value(v).len() <= usize::MAX,
    ensures
        sd_value(se_value(v), 0, 0) == (Ok::<BVal, DecodeFault>(v), se_value(v).len() as int),
        spec_decode(se_value(v)) == Ok::<BVal, DecodeFault>(v),
{
    let s = se_value(v);
    assert(s.subrange(0, s.len() as int) =~= s);
    lemma_sd_value_encoded(v, s, 0, 0);
}

proof fn lemma_dict_insert_members<V>(s: Seq<(Seq<u8>, V)>, k: Seq<u8>, v: V)
    ensures
        forall|j: int|
            0 <= j < dict_insert(s, k, v).len() ==> #[trigger] dict_insert(s, k, v)[j] == (k, v)
                || exists|m: int| 0 <= m < s.len() && s[m] == dict_insert(s, k, v)[j],
    decreases s.len(),
{
    let r = dict_insert(s, k, v);
    if s.len() == 0 {
    } else if s[0].0 == k {
        assert forall|j: int| 0 <= j < r.len() implies #[trigger] r[j] == (k, v) || exists|m: int|
            0 <= m < s.len() && s[m] == r[j] by {
            if j > 0 {
                assert(s[j] == r[j]);
            }
        }
    } else if lex_lt(k, s[0].0) {
        assert forall|j: int| 0 <= j < r.len() implies #[trigger] r[j] == (k, v) || exists|m: int|
            0 <= m < s.len() && s[m] == r[j] by {
            if j > 0 {
                assert(s[j - 1] == r[j]);
            }
        }
    } else {
        let t = s.drop_first();
        lemma_dict_insert_members(t, k, v);
        let it = dict_insert(t, k, v);
        assert forall|j: int| 0 <= j < r.len() implies #[trigger] r[j] == (k, v) || exists|m: int|
            0 <= m < s.len() && s[m] == r[j] by {
            if j == 0 {
                assert(s[0] == r[0]);
            } else {
                assert(r[j] == it[j - 1]);
                if it[j - 1] != (k, v) {
                    let m = choose|m: int| 0 <= m < t.len() && t[m] == it[j - 1];
                    assert(s[m + 1] == r[j]);
                }
            }
        }
    }
}

proof fn lemma_sd_bytes_size(buf: Seq<u8>, pos: int)
    requires
        0 <= pos <= buf.len(),
    ensures
        sd_bytes(buf, pos).0 matches Ok(b) ==> b.len() <= max_bytes_allocation(),
{
    lemma_digit_run(buf, pos);
}

proof fn lemma_sd_value_fits(buf: Seq<u8>, pos: int, depth: int)
    requires
        0 <= pos <= buf.len(),
    ensures
        sd_value(buf, pos, depth).0 matches Ok(v) ==> fits(v, depth),
    decreases buf.len() - pos, 0int,
{
    if depth <= max_decode_depth() && pos < buf.len() {
        let b = buf[pos];
        if b == 105u8 {
        } else if b == 108u8 {
            lemma_sd_items_fits(buf, pos + 1, depth + 1, Seq::empty());
        } else if b == 100u8 {
            lemma_sd_entries_fits(buf, pos + 1, depth + 1, Seq::empty());
        } else if is_digit(b) {
            lemma_sd_bytes_size(buf, pos);
        }
    }
}

proof fn lemma_sd_items_fits(buf: Seq<u8>, pos: int, depth: int, acc: Seq<BVal>)
    requires
        0 <= pos <= buf.len(),
        forall|i: int| 0 <= i < acc.len() ==> fits(#[trigger] acc[i], depth),
    ensures
        sd_items(buf, pos, depth, acc).0 matches Ok(v) ==> (v matches BVal::List(l) && forall|
            i: int,
        |
            0 <= i < l.len() ==> fits(#[trigger] l[i], depth)),
    decreases buf.len() - pos, 1int,
{
    if !(pos < buf.len() && buf[pos] == 101u8) {
        lemma_sd_value_bounds(buf, pos, depth);
        lemma_sd_value_fits(buf, pos, depth);
        let (r, q) = sd_value(buf, pos, depth);
        if r is Ok && pos < q <= buf.len() {
            let acc2 = acc.push(r->Ok_0);
            assert forall|i: int| 0 <= i < acc2.len() implies fits(#[trigger] acc2[i], depth) by {
                if i < acc.len() {
                    assert(acc2[i] == acc[i]);
                }
            }
            lemma_sd_items_fits(buf, q, depth, acc2);
        }
    }
}

proof fn lemma_sd_entries_fits(buf: Seq<u8>, pos: int, depth: int, acc: Seq<(Seq<u8>, BVal)>)
    requires
        0 <= pos <= buf.len(),
        keys_sorted(acc),
        forall|i: int|
            0 <= i < acc.len() ==> (#[trigger] acc[i]).0.len() <= max_bytes_allocation() && fits(
                acc[i].1,
                depth,
            ),
    ensures
        sd_entries(buf, pos, depth, acc).0 matches Ok(v) ==> (v matches BVal::Dict(d)
            && keys_sorted(d) && forall|i: int|
            0 <= i < d.len() ==> (#[trigger] d[i]).0.len() <= max_bytes_allocation() && fits(
                d[i].1,
                depth,
            )),
    decreases buf.len() - pos, 1int,
{
    if !(pos < buf.len() && buf[pos] == 101u8) {
        lemma_sd_bytes_bounds(buf, pos);
        lemma_sd_bytes_size(buf, pos);
        let (rk, p) = sd_bytes(buf, pos);
        if rk is Ok && pos < p <= buf.len() {
            lemma_sd_value_bounds(buf, p, depth);
            lemma_sd_value_fits(buf, p, depth);
            let (rv, q) = sd_value(buf, p, depth);
            if rv is Ok && p < q <= buf.len() {
                let k = rk->Ok_0;
                let v = rv->Ok_0;
                let acc2 = dict_insert(acc, k, v);
                lemma_dict_insert_sorted(acc, k, v);
                lemma_dict_insert_members(acc, k, v);
                assert forall|i: int| 0 <= i < acc2.len() implies (#[trigger] acc2[i]).0.len()
                    <= max_bytes_allocation() && fits(acc2[i].1, depth) by {
                    if acc2[i] != (k, v) {
                        let m = choose|m: int| 0 <= m < acc.len() && acc[m] == acc2[i];
                        assert(acc[m] == acc2[i]);
                    }
                }
                lemma_sd_entries_fits(buf, q, depth, acc2);
            }
        }
    }
}

/// Every decoded value fits the decoder's limits: nesting, integer range, byte-string size,
/// and strictly increasing dictionary keys.
pub proof fn law_decoded_fits(buf: Seq<u8>)
    ensures
        spec_decode(buf) matches Ok(v) ==> fits(v, 0),
{
    lemma_sd_value_fits(buf, 0, 0);
}

/// Decoding, encoding and decoding again gives the first decoding's value: the encoder writes a
/// form that the decoder reads back unchanged.
pub proof fn law_reencode(buf: Seq<u8>)
    requires
        spec_decode(buf) is Ok,
        se_value(spec_decode(buf)->Ok_0).len() <= usize::MAX,
    ensures
        spec_decode(se_value(spec_decode(buf)->Ok_0)) == spec_decode(buf),
{
    law_decoded_fits(buf);
    law_decode_encode(spec_decode(buf)->Ok_0);
}

// ─── A value read on its own ─────────────────────────────────────────────────
proof fn lemma_scan_window(buf: Seq<u8>, a: int, b: int, pos: int, c: u8)
    requires
        0 <= a <= pos,
        b <= buf.len(),
        scan_to(buf, pos, c) < b,
    ensures
        scan_to(buf.subrange(a, b), pos - a, c) == scan_to(buf, pos, c) - a,
    decreases buf.len() - pos,
{
    lemma_scan_to(buf, pos, c);
    let w = buf.subrange(a, b);
    if pos < buf.len() && buf[pos] != c {
        lemma_scan_window(buf, a, b, pos + 1, c);
        assert(w[pos - a] == buf[pos]);
    } else if pos < buf.len() {
        assert(w[pos - a] == buf[pos]);
    }
}

proof fn lemma_digits_window(buf: Seq<u8>, a: int, b: int, pos: int)
    requires
        0 <= a <= pos,
        b <= buf.len(),
        digit_run_end(buf, pos) < b,
    ensures
        digit_run_end(buf.subrange(a, b), pos - a) == digit_run_end(buf, pos) - a,
    decreases buf.len() - pos,
{
    if pos > buf.len() {
        assert(digit_run_end(buf, pos) == pos);
    }
    lemma_digit_run(buf, pos);
    let w = buf.subrange(a, b);
    if 0 <= pos < buf.len() && is_digit(buf[pos]) {
        lemma_digits_window(buf, a, b, pos + 1);
        assert(w[pos - a] == buf[pos]);
    } else {
        assert(w[pos - a] == buf[pos]);
    }
}

proof fn lemma_bytes_window(buf: Seq<u8>, a: int, b: int, pos: int)
    requires
        0 <= a <= pos,
        b <= buf.len(),
        sd_bytes(buf, pos).0 is Ok,
        sd_bytes(buf, pos).1 <= b,
    ensures
        sd_bytes(buf.subrange(a, b), pos - a) == (sd_bytes(buf, pos).0, sd_bytes(buf, pos).1 - a),
{
    let w = buf.subrange(a, b);
    let e = digit_run_end(buf, pos);
    if pos > buf.len() {
        assert(e == pos);
    }
    lemma_digit_run(buf, pos);
    lemma_digits_window(buf, a, b, pos);
    assert(w.subrange(pos - a, e - a) =~= buf.subrange(pos, e));
    let n = parse_uint_text(buf.subrange(pos, e), usize::MAX as int)->Some_0;
    assert(w[e - a] == buf[e]);
    assert(w.subrange(e - a + 1, e - a + 1 + n) =~= buf.subrange(e + 1, e + 1 + n));
}

proof fn lemma_value_window(buf: Seq<u8>, a: int, b: int, pos: int, depth: int)
    requires
        0 <= a <= pos,
        b <= buf.len(),
        sd_value(buf, pos, depth).0 is Ok,
        sd_value(buf, pos, depth).1 <= b,
    ensures
        sd_value(buf.subrange(a, b), pos - a, depth) == (
            sd_value(buf, pos, depth).0,
            sd_value(buf, pos, depth).1 - a,
        ),
    decreases buf.len() - pos, 0int,
{
    let w = buf.subrange(a, b);
    lemma_sd_value_bounds(buf, pos, depth);
    assert(w[pos - a] == buf[pos]);
    let c = buf[pos];
    if c == 105u8 {
        let e = scan_to(buf, pos + 1, 101u8);
        lemma_scan_to(buf, pos + 1, 101u8);
        lemma_scan_window(buf, a, b, pos + 1, 101u8);
        assert(w.subrange(pos + 1 - a, e - a) =~= buf.subrange(pos + 1, e));
    } else if c == 108u8 {
        lemma_items_window(buf, a, b, pos + 1, depth + 1, Seq::empty());
    } else if c == 100u8 {
        lemma_entries_window(buf, a, b, pos + 1, depth + 1, Seq::empty());
    } else {
        lemma_bytes_window(buf, a, b, pos);
    }
}

proof fn lemma_items_window(buf: Seq<u8>, a: int, b: int, pos: int, depth: int, acc: Seq<BVal>)
    requires
        0 <= a <= pos,
        b <= buf.len(),
        sd_items(buf, pos, depth, acc).0 is Ok,
        sd_items(buf, pos, depth, acc).1 <= b,
    ensures
        sd_items(buf.subrange(a, b), pos - a, depth, acc) == (
            sd_items(buf, pos, depth, acc).0,
            sd_items(buf, pos, depth, acc).1 - a,
        ),
    decreases buf.len() - pos, 1int,
{
    let w = buf.subrange(a, b);
    if 0 <= pos < buf.len() && buf[pos] == 101u8 {
        assert(w[pos - a] == buf[pos]);
    } else {
        let (r, q) = sd_value(buf, pos, depth);
        lemma_items_bounds_ok(buf, q, depth, acc.push(r->Ok_0));
        lemma_value_window(buf, a, b, pos, depth);
        lemma_items_window(buf, a, b, q, depth, acc.push(r->Ok_0));
        if pos < b {
            assert(w[pos - a] == buf[pos]);
        }
    }
}

proof fn lemma_entries_window(
    buf: Seq<u8>,
    a: int,
    b: int,
    pos: int,
    depth: int,
    acc: Seq<(Seq<u8>, BVal)>,
)
    requires
        0 <= a <= pos,
        b <= buf.len(),
        sd_entries(buf, pos, depth, acc).0 is Ok,
        sd_entries(buf, pos, depth, acc).1 <= b,
    ensures
        sd_entries(buf.subrange(a, b), pos - a, depth, acc) == (
            sd_entries(buf, pos, depth, acc).0,
            sd_entries(buf, pos, depth, acc).1 - a,
        ),
    decreases buf.len() - pos, 1int,
{
    let w = buf.subrange(a, b);
    if 0 <= pos < buf.len() && buf[pos] == 101u8 {
        assert(w[pos - a] == buf[pos]);
    } else {
        let (rk, p) = sd_bytes(buf, pos);
        let (rv, q) = sd_value(buf, p, depth);
        let acc2 = dict_insert(acc, rk->Ok_0, rv->Ok_0);
        lemma_entries_bounds_ok(buf, q, depth, acc2);
        lemma_sd_value_bounds(buf, p, depth);
        lemma_bytes_window(buf, a, b, pos);
        lemma_value_window(buf, a, b, p, depth);
        lemma_entries_window(buf, a, b, q, depth, acc2);
        if pos < b {
            assert(w[pos - a] == buf[pos]);
        }
    }
}

proof fn lemma_items_bounds_ok(buf: Seq<u8>, pos: int, depth: int, acc: Seq<BVal>)
    ensures
        sd_items(buf, pos, depth, acc).0 is Ok ==> pos < sd_items(buf, pos, depth, acc).1,
    decreases buf.len() - pos,
{
    if !(0 <= pos < buf.len() && buf[pos] == 101u8) {
        let (r, q) = sd_value(buf, pos, depth);
        if r is Ok && pos < q <= buf.len() {
            lemma_items_bounds_ok(buf, q, depth, acc.push(r->Ok_0));
        }
    }
}

proof fn lemma_entries_bounds_ok(buf: Seq<u8>, pos: int, depth: int, acc: Seq<(Seq<u8>, BVal)>)
    ensures
        sd_entries(buf, pos, depth, acc).0 is Ok ==> pos < sd_entries(buf, pos, depth, acc).1,
    decreases buf.len() - pos,
{
    if !(0 <= pos < buf.len() && buf[pos] == 101u8) {
        let (rk, p) = sd_bytes(buf, pos);
        if rk is Ok && pos < p <= buf.len() {
            let (rv, q) = sd_value(buf, p, depth);
            if rv is Ok && p < q <= buf.len() {
                lemma_entries_bounds_ok(buf, q, depth, dict_insert(acc, rk->Ok_0, rv->Ok_0));
            }
        }
    }
}

/// A value decoded at `pos` decodes the same from the bytes it took alone: reading a value
/// consumes exactly that value.
pub proof fn law_value_read_alone(buf: Seq<u8>, pos: int, depth: int)
    requires
        0 <= pos,
        sd_value(buf, pos, depth).0 is Ok,
    ensures
        pos < sd_value(buf, pos, depth).1 <= buf.len(),
        sd_value(buf.subrange(pos, sd_value(buf, pos, depth).1), 0, depth) == (
            sd_value(buf, pos, depth).0,
            sd_value(buf, pos, depth).1 - pos,
        ),
{
    if pos > buf.len() {
        assert(sd_value(buf, pos, depth).0 is Err);
    }
    lemma_sd_value_bounds(buf, pos, depth);
    lemma_value_window(buf, pos, sd_value(buf, pos, depth).1, pos, depth);
}

// ─── Encoding gives a canonical buffer back ──────────────────────────────────
/// The value at `pos` is written in canonical form: integers and lengths in shortest decimal
/// text, and every dictionary's keys in strictly increasing order.
pub open spec fn canon_value(buf: Seq<u8>, pos: int, depth: int) -> bool
    decreases buf.len() - pos, 0int,
{
    if depth > max_decode_depth() || pos < 0 || pos >= buf.len() {
        false
    } else {
        let c = buf[pos];
        if c == 105u8 {
            canonical_int_text(buf.subrange(pos + 1, scan_to(buf, pos + 1, 101u8)))
        } else if c == 108u8 {
            canon_items(buf, pos + 1, depth + 1)
        } else if c == 100u8 {
            canon_entries(buf, pos + 1, depth + 1, None)
        } else if is_digit(c) {
            canonical_digits(buf.subrange(pos, digit_run_end(buf, pos)))
        } else {
            false
        }
    }
}

/// The rest of a list from `pos` is written in canonical form.
pub open spec fn canon_items(buf: Seq<u8>, pos: int, depth: int) -> bool
    decreases buf.len() - pos, 1int,
{
    if 0 <= pos < buf.len() && buf[pos] == 101u8 {
        true
    } else {
        match sd_value(buf, pos, depth) {
            (Ok(_), q) => if q <= pos || q > buf.len() {
                false
            } else {
                canon_value(buf, pos, depth) && canon_items(buf, q, depth)
            },
            _ => false,
        }
    }
}

/// The rest of a dictionary from `pos` is written in canonical form, each key after `last`.
pub open spec fn canon_entries(buf: Seq<u8>, pos: int, depth: int, last: Option<Seq<u8>>) -> bool
    decreases buf.len() - pos, 1int,
{
    if 0 <= pos < buf.len() && buf[pos] == 101u8 {
        true
    } else {
        match sd_bytes(buf, pos) {
            (Ok(k), p) => if p <= pos || p > buf.len() {
                false
            } else {
                &&& canonical_digits(buf.subrange(pos, digit_run_end(buf, pos)))
                &&& (last matches Some(l) ==> lex_lt(l, k))
                &&& match sd_value(buf, p, depth) {
                    (Ok(_), q) => if q <= p || q > buf.len() {
                        false
                    } else {
                        canon_value(buf, p, depth) && canon_entries(buf, q, depth, Some(k))
                    },
                    _ => false,
                }
            },
            _ => false,
        }
    }
}

proof fn lemma_bytes_canonical(buf: Seq<u8>, pos: int)
    requires
        sd_bytes(buf, pos).0 is Ok,
        canonical_digits(buf.subrange(pos, digit_run_end(buf, pos))),
        0 <= pos <= buf.len(),
    ensures
        nat_text(sd_bytes(buf, pos).0->Ok_0.len()) + seq![58u8] + sd_bytes(buf, pos).0->Ok_0 == buf.subrange(
            pos,
            sd_bytes(buf, pos).1,
        ),
{
    let e = digit_run_end(buf, pos);
    lemma_digit_run(buf, pos);
    let ds = buf.subrange(pos, e);
    assert(unsigned_digits(ds) == ds);
    lemma_canonical_digits_text(ds);
    let n = digits_value(ds);
    assert(buf.subrange(pos, e + 1 + n) =~= ds + seq![58u8] + buf.subrange(e + 1, e + 1 + n));
}

proof fn lemma_canon_value(buf: Seq<u8>, pos: int, depth: int)
    requires
        canon_value(buf, pos, depth),
        sd_value(buf, pos, depth).0 is Ok,
    ensures
        se_value(sd_value(buf, pos, depth).0->Ok_0) == buf.subrange(pos, sd_value(buf, pos, depth).1),
    decreases buf.len() - pos, 0int,
{
    let c = buf[pos];
    let q = sd_value(buf, pos, depth).1;
    lemma_sd_value_bounds(buf, pos, depth);
    if c == 105u8 {
        let e = scan_to(buf, pos + 1, 101u8);
        lemma_scan_to(buf, pos + 1, 101u8);
        let raw = buf.subrange(pos + 1, e);
        lemma_canonical_int_text(raw, i64::MIN as int, i64::MAX as int);
        assert(buf.subrange(pos, q) =~= seq![105u8] + raw + seq![101u8]);
    } else if c == 108u8 {
        lemma_items_list(buf, pos + 1, depth + 1, Seq::empty());
        lemma_canon_items(buf, pos + 1, depth + 1, Seq::empty());
        let l = sd_items(buf, pos + 1, depth + 1, Seq::empty()).0->Ok_0->List_0;
        assert(se_list(Seq::<BVal>::empty()) =~= Seq::<u8>::empty());
        assert(buf.subrange(pos, q) =~= seq![108u8] + buf.subrange(pos + 1, q - 1) + seq![101u8]);
    } else if c == 100u8 {
        lemma_entries_dict(buf, pos + 1, depth + 1, Seq::empty());
        lemma_canon_entries(buf, pos + 1, depth + 1, Seq::empty(), None);
        assert(se_entries(Seq::<(Seq<u8>, BVal)>::empty()) =~= Seq::<u8>::empty());
        assert(buf.subrange(pos, q) =~= seq![100u8] + buf.subrange(pos + 1, q - 1) + seq![101u8]);
    } else {
        lemma_bytes_canonical(buf, pos);
    }
}

proof fn lemma_entries_dict(buf: Seq<u8>, pos: int, depth: int, acc: Seq<(Seq<u8>, BVal)>)
    ensures
        sd_entries(buf, pos, depth, acc).0 matches Ok(v) ==> v is Dict,
    decreases buf.len() - pos,
{
    if !(0 <= pos < buf.len() && buf[pos] == 101u8) {
        let (rk, p) = sd_bytes(buf, pos);
        if rk is Ok && pos < p <= buf.len() {
            let (rv, q) = sd_value(buf, p, depth);
            if rv is Ok && p < q <= buf.len() {
                lemma_entries_dict(buf, q, depth, dict_insert(acc, rk->Ok_0, rv->Ok_0));
            }
        }
    }
}

proof fn lemma_canon_items(buf: Seq<u8>, pos: int, depth: int, acc: Seq<BVal>)
    requires
        canon_items(buf, pos, depth),
        sd_items(buf, pos, depth, acc).0 matches Ok(BVal::List(_)),
        0 <= pos <= buf.len(),
    ensures
        sd_items(buf, pos, depth, acc).0 matches Ok(BVal::List(l)) && sd_items(buf, pos, depth, acc).1
            > pos && buf[sd_items(buf, pos, depth, acc).1 - 1] == 101u8 && se_list(l) == se_list(acc)
            + buf.subrange(pos, sd_items(buf, pos, depth, acc).1 - 1),
    decreases buf.len() - pos, 1int,
{
    if 0 <= pos < buf.len() && buf[pos] == 101u8 {
        assert(buf.subrange(pos, pos) =~= Seq::<u8>::empty());
        assert(se_list(acc) + Seq::<u8>::empty() =~= se_list(acc));
    } else {
        let (r, q) = sd_value(buf, pos, depth);
        let v = r->Ok_0;
        lemma_sd_value_bounds(buf, pos, depth);
        lemma_canon_value(buf, pos, depth);
        lemma_canon_items(buf, q, depth, acc.push(v));
        lemma_sd_items_bounds(buf, q, depth, acc.push(v));
        let end = sd_items(buf, pos, depth, acc).1;
        assert(end == sd_items(buf, q, depth, acc.push(v)).1);
        assert(acc.push(v).subrange(0, acc.len() as int) =~= acc);
        assert(se_list(acc.push(v)) == se_list(acc) + se_value(v));
        assert(buf.subrange(pos, end - 1) =~= buf.subrange(pos, q) + buf.subrange(q, end - 1));
    }
}

proof fn lemma_sorted_push(acc: Seq<(Seq<u8>, BVal)>, k: Seq<u8>, v: BVal)
    requires
        keys_sorted(acc),
        acc.len() > 0 ==> lex_lt(acc.last().0, k),
    ensures
        dict_insert(acc, k, v) == acc.push((k, v)),
        keys_sorted(acc.push((k, v))),
        acc.push((k, v)).last().0 == k,
{
    assert forall|j: int| 0 <= j < acc.len() implies lex_lt(#[trigger] acc[j].0, k) by {
        if j < acc.len() - 1 {
            lemma_lex_transitive(acc[j].0, acc.last().0, k);
        }
    }
    lemma_dict_insert_at(acc, k, v, acc.len() as int);
    let acc2 = acc.push((k, v));
    assert(acc.insert(acc.len() as int, (k, v)) =~= acc2);
    assert forall|i: int, j: int| 0 <= i < j < acc2.len() implies lex_lt(
        #[trigger] acc2[i].0,
        #[trigger] acc2[j].0,
    ) by {
        if j == acc.len() {
            assert(acc2[i] == acc[i]);
        } else {
            assert(acc2[i] == acc[i] && acc2[j] == acc[j]);
        }
    }
}

proof fn lemma_canon_entries(
    buf: Seq<u8>,
    pos: int,
    depth: int,
    acc: Seq<(Seq<u8>, BVal)>,
    last: Option<Seq<u8>>,
)
    requires
        canon_entries(buf, pos, depth, last),
        sd_entries(buf, pos, depth, acc).0 matches Ok(BVal::Dict(_)),
        pos <= buf.len(),
        keys_sorted(acc),
        last == (if acc.len() == 0 {
            None::<Seq<u8>>
        } else {
            Some(acc.last().0)
        }),
        0 <= pos,
    ensures
        sd_entries(buf, pos, depth, acc).0 matches Ok(BVal::Dict(d)) && sd_entries(buf, pos, depth, acc).1
            > pos && buf[sd_entries(buf, pos, depth, acc).1 - 1] == 101u8 && se_entries(d)
            == se_entries(acc) + buf.subrange(pos, sd_entries(buf, pos, depth, acc).1 - 1),
    decreases buf.len() - pos, 1int,
{
    if 0 <= pos < buf.len() && buf[pos] == 101u8 {
        assert(buf.subrange(pos, pos) =~= Seq::<u8>::empty());
        assert(se_entries(acc) + Seq::<u8>::empty() =~= se_entries(acc));
    } else {
        let (rk, p) = sd_bytes(buf, pos);
        let k = rk->Ok_0;
        let (rv, q) = sd_value(buf, p, depth);
        let v = rv->Ok_0;
        lemma_sd_bytes_bounds(buf, pos);
        lemma_sd_value_bounds(buf, p, depth);
        lemma_bytes_canonical(buf, pos);
        lemma_canon_value(buf, p, depth);
        lemma_sorted_push(acc, k, v);
        let acc2 = dict_insert(acc, k, v);
        assert(acc2.last().0 == k);
        lemma_canon_entries(buf, q, depth, acc2, Some(k));
        lemma_sd_entries_bounds(buf, q, depth, acc2);
        let end = sd_entries(buf, pos, depth, acc).1;
        assert(end == sd_entries(buf, q, depth, acc2).1);
        assert(acc2.subrange(0, acc.len() as int) =~= acc);
        assert(buf.subrange(pos, end - 1) =~= buf.subrange(pos, p) + buf.subrange(p, q) + buf.subrange(
            q,
            end - 1,
        ));
    }
}

/// Encoding the value of a canonical buffer gives the buffer back: when the buffer holds
/// exactly one value, with integers and lengths in shortest decimal text (no `+`, no leading
/// zero, no `-0`) and every dictionary's keys in strictly increasing order.
pub proof fn law_encode_canonical(buf: Seq<u8>)
    requires
        spec_decode(buf) is Ok,
        sd_value(buf, 0, 0).1 == buf.len(),
        canon_value(buf, 0, 0),
    ensures
        se_value(spec_decode(buf)->Ok_0) == buf,
{
    lemma_canon_value(buf, 0, 0);
    assert(buf.subrange(0, buf.len() as int) =~= buf);
}

} // verus!
