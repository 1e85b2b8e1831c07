//! Decimal text of integers: the digits that `to_string` writes and `from_str` reads.
use vstd::prelude::*;
use crate::text::{ascii_bytes, ascii_chars_of, ascii_string};

verus! {

/// An ASCII decimal digit.
pub open spec fn is_digit(b: u8) -> bool {
    48 <= b <= 57
}

pub open spec fn all_digits(s: Seq<u8>) -> bool {
    forall|i: int| 0 <= i < s.len() ==> is_digit(#[trigger] s[i])
}

/// The number that a string of decimal digits denotes.
pub open spec fn digits_value(s: Seq<u8>) -> nat
    decreases s.len(),
{
    if s.len() == 0 {
        0
    } else {
        digits_value(s.drop_last()) * 10 + (s.last() - 48) as nat
    }
}

/// Shortest decimal text of `n` (no sign, no leading zeros).
pub open spec fn nat_text(n: nat) -> Seq<u8>
    decreases n,
{
    if n < 10 {
        seq![(n + 48) as u8]
    } else {
        nat_text(n / 10).push((n % 10 + 48) as u8)
    }
}

/// Decimal text of a signed integer, with a leading `-` when it is negative.
pub open spec fn int_text(n: int) -> Seq<u8> {
    if n < 0 {
        seq![45u8] + nat_text((-n) as nat)
    } else {
        nat_text(n as nat)
    }
}

/// The digits part of an unsigned number's text: all but a leading `+`.
pub open spec fn unsigned_digits(s: Seq<u8>) -> Seq<u8> {
    if s.len() > 0 && s[0] == 43u8 {
        s.drop_first()
    } else {
        s
    }
}

/// What `from_str` of an unsigned integer type with maximum `max` gives: an optional `+`,
/// then one or more digits whose value does not exceed `max`.
pub open spec fn parse_uint_text(s: Seq<u8>, max: int) -> Option<nat> {
    let d = unsigned_digits(s);
    if d.len() > 0 && all_digits(d) && digits_value(d) <= max {
        Some(digits_value(d))
    } else {
        None
    }
}

/// What `from_str` of a signed integer type with range `min..=max` gives: an optional sign,
/// then one or more digits, the value in range.
pub open spec fn parse_int_text(s: Seq<u8>, min: int, max: int) -> Option<int> {
    if s.len() > 0 && s[0] == 45u8 {
        let d = s.drop_first();
        if d.len() > 0 && all_digits(d) && -digits_value(d) >= min {
            Some(-digits_value(d))
        } else {
            None
        }
    } else {
        match parse_uint_text(s, max) {
            Some(v) => Some(v as int),
            None => None,
        }
    }
}

pub proof fn lemma_digits_value_prefix(s: Seq<u8>, i: int)
    requires
        0 <= i <= s.len(),
        all_digits(s),
    ensures
        digits_value(s.take(i)) <= digits_value(s),
    decreases s.len() - i,
{
    if i < s.len() {
        lemma_digits_value_prefix(s, i + 1);
        assert(s.take(i + 1).drop_last() =~= s.take(i));
    } else {
        assert(s.take(i) =~= s);
    }
}

pub proof fn lemma_nat_text(n: nat)
    ensures
        nat_text(n).len() > 0,
        all_digits(nat_text(n)),
        digits_value(nat_text(n)) == n,
        n > 0 ==> nat_text(n)[0] != 48u8,
    decreases n,
{
    if n < 10 {
        assert(((n + 48) as u8) as int == n + 48);
        assert(nat_text(n).drop_last() =~= Seq::<u8>::empty());
        assert(digits_value(Seq::<u8>::empty()) == 0);
    } else {
        lemma_nat_text(n / 10);
        let t = nat_text(n);
        assert(t.drop_last() =~= nat_text(n / 10));
        assert(t[0] == nat_text(n / 10)[0]);
        assert(((n % 10 + 48) as u8) as int == n % 10 + 48);
        assert(t.last() == (n % 10 + 48) as u8);
        assert(n == (n / 10) * 10 + n % 10);
        assert(digits_value(t) == digits_value(t.drop_last()) * 10 + (t.last() - 48) as nat);
        assert(digits_value(t) == (n / 10) * 10 + n % 10);
    }
}

pub proof fn lemma_int_text_parses(n: int, min: int, max: int)
    requires
        min <= n <= max,
        min <= 0,
    ensures
        parse_int_text(int_text(n), min, max) == Some(n),
        all_digits(int_text(n).drop_first()),
        int_text(n).len() > 0,
{
    if n < 0 {
        lemma_nat_text((-n) as nat);
        assert((seq![45u8] + nat_text((-n) as nat)).drop_first() =~= nat_text((-n) as nat));
    } else {
        lemma_nat_text(n as nat);
        assert(nat_text(n as nat)[0] != 43u8);
        assert(nat_text(n as nat)[0] != 45u8);
        let t = nat_text(n as nat);
        assert(all_digits(t.drop_first()));
    }
}

/// Appends the decimal text of `n`.
pub fn push_nat_text(out: &mut Vec<u8>, n: u64)
    ensures
        final(out)@ == old(out)@ + nat_text(n as nat),
    decreases n,
{
    if n < 10 {
        out.push((n as u8) + 48);
        assert(nat_text(n as nat) =~= seq![(n + 48) as u8]);
    } else {
        push_nat_text(out, n / 10);
        out.push(((n % 10) as u8) + 48);
    }
}

/// Appends the decimal text of `n`, with a `-` in front when it is negative.
pub fn push_int_text(out: &mut Vec<u8>, n: i64)
    ensures
        final(out)@ == old(out)@ + int_text(n as int),
{
    if n < 0 {
        out.push(45u8);
        let m: u64 = ((-(n + 1)) as u64) + 1;
        push_nat_text(out, m);
    } else {
        push_nat_text(out, n as u64);
    }
}

/// Reads `s` as an unsigned decimal number no larger than `max`, as `from_str` does.
pub fn parse_uint(s: &[u8], max: u64) -> (r: Option<u64>)
    ensures
        match parse_uint_text(s@, max as int) {
            Some(v) => r == Some(v as u64),
            None => r is None,
        },
{
    let start: usize = if s.len() > 0 && s[0] == 43u8 { 1 } else { 0 };
    let ghost d = unsigned_digits(s@);
    assert(d =~= s@.subrange(start as int, s@.len() as int));
    if start >= s.len() {
        return None;
    }
    let mut v: u64 = 0;
    let mut i: usize = start;
    while i < s.len()
        invariant
            start <= i <= s.len(),
            d == unsigned_digits(s@),
            d =~= s@.subrange(start as int, s@.len() as int),
            all_digits(d.take(i - start)),
            v == digits_value(d.take(i - start)),
            v <= max,
        decreases s.len() - i,
    {
        let b = s[i];
        if !(48u8 <= b && b <= 57u8) {
            assert(d[i - start] == b);
            assert(!is_digit(d[i - start]));
            return None;
        }
        let ghost k: int = i - start;
        assert(d.take(k + 1).drop_last() =~= d.take(k));
        assert(d.take(k + 1).last() == b);
        assert(all_digits(d.take(k + 1))) by {
            assert forall|j: int| 0 <= j < k + 1 implies is_digit(#[trigger] d.take(k + 1)[j]) by {
                if j < k {
                    assert(d.take(k + 1)[j] == d.take(k)[j]);
                }
            }
        }
        let next = match v.checked_mul(10) {
            Some(t) => t.checked_add((b - 48) as u64),
            None => None,
        };
        match next {
            Some(nv) if nv <= max => {
                v = nv;
                i = i + 1;
            },
            _ => {
                proof {
                    assert(digits_value(d.take(k + 1)) == v * 10 + (b - 48) as nat);
                    let rest_ok = forall|j: int| 0 <= j < d.len() ==> is_digit(#[trigger] d[j]);
                    if rest_ok {
                        lemma_digits_value_prefix(d, k + 1);
                    }
                }
                return None;
            },
        }
    }
    assert(d.take(i - start) =~= d);
    Some(v)
}

/// Reads `s` as a signed decimal number in `i64` range, as `i64::from_str` does.
pub fn parse_i64(s: &[u8]) -> (r: Option<i64>)
    ensures
        match parse_int_text(s@, i64::MIN as int, i64::MAX as int) {
            Some(v) => r == Some(v as i64),
            None => r is None,
        },
{
    if s.len() > 0 && s[0] == 45u8 {
        let rest = &s[1..s.len()];
        assert(rest@ =~= s@.drop_first());
        if rest.len() > 0 && rest[0] == 43u8 {
            // `-+…` is not a number; the digits check below would refuse it too
            assert(!is_digit(rest@[0]));
            return None;
        }
        match parse_uint(rest, 9223372036854775808u64) {
            Some(m) => {
                if m == 9223372036854775808u64 {
                    Some(i64::MIN)
                } else {
                    Some(-(m as i64))
                }
            },
            None => {
                proof {
                    if rest@.len() > 0 && all_digits(rest@) {
                        assert(rest@[0] != 43u8);
                    }
                }
                None
            },
        }
    } else {
        match parse_uint(s, 9223372036854775807u64) {
            Some(m) => Some(m as i64),
            None => None,
        }
    }
}

/// The decimal text of `n` as a string.
pub fn nat_string(n: u64) -> (s: String)
    ensures
        s@ == ascii_chars_of(nat_text(n as nat)),
{
    let mut digits: Vec<u8> = Vec::new();
    push_nat_text(&mut digits, n);
    proof {
        lemma_nat_text(n as nat);
        assert(digits@ =~= nat_text(n as nat));
        assert(ascii_bytes(digits@)) by {
            assert forall|i: int| 0 <= i < digits@.len() implies #[trigger] digits@[i] < 128 by {
                assert(is_digit(digits@[i]));
            }
        }
    }
    ascii_string(digits)
}

/// The decimal text of `n` as a string, with a `-` in front when it is negative.
pub fn int_string(n: i64) -> (s: String)
    ensures
        s@ == ascii_chars_of(int_text(n as int)),
{
    let mut digits: Vec<u8> = Vec::new();
    push_int_text(&mut digits, n);
    proof {
        if n < 0 {
            lemma_nat_text((-n) as nat);
        } else {
            lemma_nat_text(n as nat);
        }
        assert(digits@ =~= int_text(n as int));
        assert(ascii_bytes(digits@)) by {
            assert forall|i: int| 0 <= i < digits@.len() implies #[trigger] digits@[i] < 128 by {
                if n < 0 && i > 0 {
                    assert(digits@[i] == nat_text((-n) as nat)[i - 1]);
                    assert(is_digit(nat_text((-n) as nat)[i - 1]));
                } else if n >= 0 {
                    assert(is_digit(digits@[i]));
                }
            }
        }
    }
    ascii_string(digits)
}

/// Decimal digits in shortest form: at least one, and no leading zero unless it is `0` itself.
pub open spec fn canonical_digits(d: Seq<u8>) -> bool {
    d.len() > 0 && all_digits(d) && (d.len() == 1 || d[0] != 48u8)
}

/// Integer text in shortest form: shortest digits, with a `-` only before a nonzero number.
pub open spec fn canonical_int_text(s: Seq<u8>) -> bool {
    if s.len() > 0 && s[0] == 45u8 {
        canonical_digits(s.drop_first()) && s.drop_first() != seq![48u8]
    } else {
        canonical_digits(s)
    }
}

proof fn lemma_canonical_digits_value(d: Seq<u8>)
    requires
        canonical_digits(d),
        d[0] != 48u8,
    ensures
        digits_value(d) > 0,
    decreases d.len(),
{
    if d.len() > 1 {
        let t = d.drop_last();
        assert(t[0] == d[0]);
        assert forall|i: int| 0 <= i < t.len() implies is_digit(#[trigger] t[i]) by {
            assert(t[i] == d[i]);
        }
        lemma_canonical_digits_value(t);
    }
}

/// Shortest digits are what `nat_text` writes for their value.
pub proof fn lemma_canonical_digits_text(d: Seq<u8>)
    requires
        canonical_digits(d),
    ensures
        nat_text(digits_value(d)) == d,
    decreases d.len(),
{
    if d.len() == 1 {
        assert(d.drop_last() =~= Seq::<u8>::empty());
        assert(nat_text(digits_value(d)) =~= d);
    } else {
        let t = d.drop_last();
        assert(t[0] == d[0]);
        assert forall|i: int| 0 <= i < t.len() implies is_digit(#[trigger] t[i]) by {
            assert(t[i] == d[i]);
        }
        lemma_canonical_digits_text(t);
        lemma_canonical_digits_value(t);
        let n = digits_value(d);
        let x = (d.last() - 48) as nat;
        assert(is_digit(d[d.len() - 1]));
        assert(n == digits_value(t) * 10 + x);
        assert(n / 10 == digits_value(t) && n % 10 == x) by (nonlinear_arith)
            requires
                n == digits_value(t) * 10 + x,
                x < 10,
        ;
        assert(nat_text(n) =~= d);
    }
}

/// Integer text in shortest form is what `int_text` writes for the number it parses to.
pub proof fn lemma_canonical_int_text(s: Seq<u8>, min: int, max: int)
    requires
        canonical_int_text(s),
        parse_int_text(s, min, max) is Some,
    ensures
        int_text(parse_int_text(s, min, max)->Some_0) == s,
{
    if s.len() > 0 && s[0] == 45u8 {
        let d = s.drop_first();
        lemma_canonical_digits_text(d);
        if d.len() == 1 {
            assert(d[0] != 48u8) by {
                if d[0] == 48u8 {
                    assert(d =~= seq![48u8]);
                }
            }
        }
        lemma_canonical_digits_value(d);
        assert(s =~= seq![45u8] + d);
    } else {
        assert(s[0] != 43u8);
        assert(unsigned_digits(s) == s);
        lemma_canonical_digits_text(s);
    }
}

} // verus!
