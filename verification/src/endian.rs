//! Big-endian integers in byte strings, the network byte order of the wire protocols.
use vstd::prelude::*;

verus! {

pub open spec fn be16(s: Seq<u8>) -> nat {
    (s[0] as nat) * 256 + (s[1] as nat)
}

pub open spec fn be32(s: Seq<u8>) -> nat {
    (s[0] as nat) * 16777216 + (s[1] as nat) * 65536 + (s[2] as nat) * 256 + (s[3] as nat)
}

pub open spec fn be64(s: Seq<u8>) -> nat {
    be32(s.subrange(0, 4)) * 4294967296 + be32(s.subrange(4, 8))
}

/// The four bytes of `x`, most significant first.
pub open spec fn be32_bytes(x: u32) -> Seq<u8> {
    seq![(x / 16777216) as u8, ((x / 65536) % 256) as u8, ((x / 256) % 256) as u8, (x % 256) as u8]
}

pub open spec fn be16_bytes(x: u16) -> Seq<u8> {
    seq![(x / 256) as u8, (x % 256) as u8]
}

pub open spec fn be64_bytes(x: u64) -> Seq<u8> {
    be32_bytes((x / 4294967296) as u32) + be32_bytes((x % 4294967296) as u32)
}

pub proof fn lemma_be32_roundtrip(x: u32)
    ensures
        be32_bytes(x).len() == 4,
        be32(be32_bytes(x)) == x,
{
    let b = be32_bytes(x);
    assert(b[0] as nat == x / 16777216);
    assert(b[1] as nat == (x / 65536) % 256);
    assert(b[2] as nat == (x / 256) % 256);
    assert(b[3] as nat == x % 256);
    assert((x / 16777216) * 16777216 + ((x / 65536) % 256) * 65536 + ((x / 256) % 256) * 256 + x
        % 256 == x) by (nonlinear_arith);
}

pub proof fn lemma_be16_roundtrip(x: u16)
    ensures
        be16_bytes(x).len() == 2,
        be16(be16_bytes(x)) == x,
{
    assert((x / 256) * 256 + x % 256 == x) by (nonlinear_arith);
}

pub proof fn lemma_be64_roundtrip(x: u64)
    ensures
        be64_bytes(x).len() == 8,
        be64(be64_bytes(x)) == x,
{
    let hi = (x / 4294967296) as u32;
    let lo = (x % 4294967296) as u32;
    lemma_be32_roundtrip(hi);
    lemma_be32_roundtrip(lo);
    assert(be64_bytes(x).subrange(0, 4) =~= be32_bytes(hi));
    assert(be64_bytes(x).subrange(4, 8) =~= be32_bytes(lo));
    assert((x / 4294967296) * 4294967296 + x % 4294967296 == x) by (nonlinear_arith);
}

/// Reads a big-endian `u32` at `at`.
pub fn read_be32(s: &[u8], at: usize) -> (r: u32)
    requires
        at + 4 <= s@.len(),
    ensures
        r == be32(s@.subrange(at as int, at + 4)),
{
    let b0 = s[at] as u32;
    let b1 = s[at + 1] as u32;
    let b2 = s[at + 2] as u32;
    let b3 = s[at + 3] as u32;
    assert(b0 < 256 && b1 < 256 && b2 < 256 && b3 < 256);
    assert(b0 * 16777216 + b1 * 65536 + b2 * 256 + b3 <= u32::MAX) by (nonlinear_arith)
        requires
            b0 < 256 && b1 < 256 && b2 < 256 && b3 < 256,
    ;
    b0 * 16777216 + b1 * 65536 + b2 * 256 + b3
}

/// Reads a big-endian `u16` at `at`.
pub fn read_be16(s: &[u8], at: usize) -> (r: u16)
    requires
        at + 2 <= s@.len(),
    ensures
        r == be16(s@.subrange(at as int, at + 2)),
{
    let b0 = s[at] as u16;
    let b1 = s[at + 1] as u16;
    b0 * 256 + b1
}

/// Reads a big-endian `u64` at `at`.
pub fn read_be64(s: &[u8], at: usize) -> (r: u64)
    requires
        at + 8 <= s@.len(),
    ensures
        r == be64(s@.subrange(at as int, at + 8)),
{
    let _n = s.len();
    let hi = read_be32(s, at) as u64;
    let lo = read_be32(s, at + 4) as u64;
    assert(s@.subrange(at as int, at + 8).subrange(0, 4) =~= s@.subrange(at as int, at + 4));
    assert(s@.subrange(at as int, at + 8).subrange(4, 8) =~= s@.subrange(at + 4, at + 8));
    assert(hi * 4294967296 + lo <= u64::MAX) by (nonlinear_arith)
        requires
            hi <= u32::MAX,
            lo <= u32::MAX,
    ;
    hi * 4294967296 + lo
}

/// Appends `x` big-endian.
pub fn push_be32(out: &mut Vec<u8>, x: u32)
    ensures
        final(out)@ == old(out)@ + be32_bytes(x),
{
    out.push((x / 16777216) as u8);
    out.push(((x / 65536) % 256) as u8);
    out.push(((x / 256) % 256) as u8);
    out.push((x % 256) as u8);
    assert(final(out)@ =~= old(out)@ + be32_bytes(x));
}

/// Appends `x` big-endian.
pub fn push_be16(out: &mut Vec<u8>, x: u16)
    ensures
        final(out)@ == old(out)@ + be16_bytes(x),
{
    out.push((x / 256) as u8);
    out.push((x % 256) as u8);
    assert(final(out)@ =~= old(out)@ + be16_bytes(x));
}

/// Appends `x` big-endian.
pub fn push_be64(out: &mut Vec<u8>, x: u64)
    ensures
        final(out)@ == old(out)@ + be64_bytes(x),
{
    push_be32(out, (x / 4294967296) as u32);
    push_be32(out, (x % 4294967296) as u32);
    assert(final(out)@ =~= old(out)@ + be64_bytes(x));
}

/// Fills `dst` with the `N` bytes of `src` that start at `from`.
pub fn copy_into<const N: usize>(dst: &mut [u8; N], src: &[u8], from: usize)
    requires
        from + N <= src@.len(),
        old(dst)@.len() == N,
    ensures
        final(dst)@ == src@.subrange(from as int, from + N),
{
    let n = src.len();
    let mut i: usize = 0;
    while i < N
        invariant
            0 <= i <= N,
            n == src@.len(),
            from + N <= src@.len(),
            dst@.len() == N,
            forall|j: int| 0 <= j < i ==> dst@[j] == src@[from + j],
        decreases N - i,
    {
        dst.set(i, src[from + i]);
        i = i + 1;
    }
    assert(dst@ =~= src@.subrange(from as int, from + N));
}

} // verus!
