//! Piece and block bookkeeping.
//!
//! A torrent is divided into pieces; pieces are requested in blocks of 16 KiB.
use vstd::prelude::*;
use crate::hash::{digest_eq, sha1_digest, sha1_spec};

verus! {

pub const BLOCK_SIZE: u32 = 16384;

#[derive(Debug, Clone, Copy, PartialEq, Eq, Structural)]
pub enum PieceState {
    Missing,
    Downloading,
    /// All blocks received, hash not yet verified.
    Complete,
    /// Hash matched.
    Verified,
    /// Hash mismatched, ready to retry.
    Failed,
}

// ─── Bitfields ───────────────────────────────────────────────────────────────
/// Bit `p` of a bitfield, most significant bit of each byte first.
pub open spec fn bit_of(bf: Seq<u8>, p: int) -> bool {
    0 <= p && p / 8 < bf.len() && (bf[p / 8] >> ((7 - p % 8) as u8)) & 1u8 == 1u8
}

/// The step of a count that a single-precision float takes near `n`.
pub open spec fn f32_unit(n: nat) -> nat {
    if n < 0x1000000 {
        1
    } else if n < 0x2000000 {
        2
    } else if n < 0x4000000 {
        4
    } else if n < 0x8000000 {
        8
    } else if n < 0x10000000 {
        16
    } else if n < 0x20000000 {
        32
    } else if n < 0x40000000 {
        64
    } else if n < 0x80000000 {
        128
    } else {
        256
    }
}

/// `n` rounded to the nearest single-precision float, ties to even.
pub open spec fn f32_round(n: nat) -> nat {
    let u = f32_unit(n);
    let q = n / u;
    let r = n % u;
    if r * 2 > u || (r * 2 == u && q % 2 == 1) {
        (q + 1) * u
    } else {
        q * u
    }
}

/// Bytes of the own bitfield for `num_pieces` pieces: the count, held as a single-precision
/// float, divided by eight and rounded up.
pub open spec fn bitfield_len(num_pieces: nat) -> nat {
    (f32_round(num_pieces) + 7) / 8
}

fn compute_bitfield_len(n: u32) -> (r: usize)
    ensures
        r == bitfield_len(n as nat),
{
    let m = n as u64;
    let u: u64 = if m < 0x1000000 {
        1
    } else if m < 0x2000000 {
        2
    } else if m < 0x4000000 {
        4
    } else if m < 0x8000000 {
        8
    } else if m < 0x10000000 {
        16
    } else if m < 0x20000000 {
        32
    } else if m < 0x40000000 {
        64
    } else if m < 0x80000000 {
        128
    } else {
        256
    };
    let q = m / u;
    let r = m % u;
    assert(q * u <= m) by (nonlinear_arith)
        requires
            q == m / u,
            u > 0,
    ;
    assert(q * u + u <= m + u) by (nonlinear_arith)
        requires
            q * u <= m,
    ;
    let f: u64 = if r * 2 > u || (r * 2 == u && q % 2 == 1) {
        (q + 1) * u
    } else {
        q * u
    };
    ((f + 7) / 8) as usize
}

proof fn lemma_shift_bits(b: u8, k: u8, m: u8)
    requires
        k < 8,
        m < 8,
    ensures
        ((b | (1u8 << k)) >> m) & 1u8 == (if m == k {
            1u8
        } else {
            (b >> m) & 1u8
        }),
{
    assert(((b | (1u8 << k)) >> m) & 1u8 == (if m == k {
        1u8
    } else {
        (b >> m) & 1u8
    })) by (bit_vector)
        requires
            k < 8,
            m < 8,
    ;
}

proof fn lemma_and_bit(b: u8, k: u8)
    requires
        k < 8,
    ensures
        (b & (1u8 << k) != 0u8) == ((b >> k) & 1u8 == 1u8),
{
    assert((b & (1u8 << k) != 0u8) == ((b >> k) & 1u8 == 1u8)) by (bit_vector)
        requires
            k < 8,
    ;
}

/// Sets bit `index` of `bf`, when that bit lies inside it.
pub(crate) fn set_bit_in(bf: &mut Vec<u8>, index: u32)
    ensures
        final(bf)@ == (if (index / 8) < old(bf)@.len() {
            old(bf)@.update(
                (index / 8) as int,
                old(bf)@[(index / 8) as int] | (1u8 << ((7 - index % 8) as u8)),
            )
        } else {
            old(bf)@
        }),
        forall|p: int| #[trigger] bit_of(final(bf)@, p) == (bit_of(old(bf)@, p) || (p == index && (
        index / 8) < old(bf)@.len())),
{
    let byte_idx = (index / 8) as usize;
    let bit_idx = (7 - (index % 8)) as u8;
    if byte_idx < bf.len() {
        let old_byte = bf[byte_idx];
        bf.set(byte_idx, old_byte | (1u8 << bit_idx));
        proof {
            assert forall|p: int| #[trigger] bit_of(bf@, p) == (bit_of(old(bf)@, p) || (p == index
                && (index / 8) < old(bf)@.len())) by {
                if 0 <= p && p / 8 < bf@.len() {
                    if p / 8 == byte_idx {
                        lemma_shift_bits(old_byte, bit_idx, (7 - p % 8) as u8);
                    } else {
                        assert(bf@[p / 8] == old(bf)@[p / 8]);
                    }
                }
            }
        }
    }
}

/// Whether bit `index` of `bf` is set.
pub(crate) fn test_bit(bf: &[u8], index: u32) -> (r: bool)
    ensures
        r == bit_of(bf@, index as int),
{
    let byte_idx = (index / 8) as usize;
    let bit_idx = (7 - (index % 8)) as u8;
    if byte_idx < bf.len() {
        proof {
            lemma_and_bit(bf@[byte_idx as int], bit_idx);
        }
        (bf[byte_idx] & (1u8 << bit_idx)) != 0
    } else {
        false
    }
}

// ─── Piece manager ───────────────────────────────────────────────────────────
pub struct PieceManager {
    pub piece_length: u32,
    pub total_size: u64,
    pub num_pieces: u32,
    /// The expected digest of each piece.
    pub hashes: Vec<[u8; 20]>,
    /// Status of each piece.
    pub states: Vec<PieceState>,
    /// Our own bitfield: bit set for each verified piece.
    pub bitfield: Vec<u8>,
}

/// The length of piece `index`: the last piece holds what is left of the total.
pub open spec fn spec_piece_length(piece_length: u32, total_size: u64, num_pieces: u32, index: u32) -> u32 {
    if index == num_pieces - 1 {
        let rem = total_size % (piece_length as u64);
        if rem == 0 {
            piece_length
        } else {
            rem as u32
        }
    } else {
        piece_length
    }
}

/// The length of block `block` of a piece of `piece_len` bytes.
pub open spec fn spec_block_length(piece_len: u32, block: u32) -> u32 {
    let offset = block * BLOCK_SIZE;
    if offset + BLOCK_SIZE > piece_len {
        (piece_len - offset) as u32
    } else {
        BLOCK_SIZE
    }
}

impl PieceManager {
    pub open spec fn spec_piece_len(&self) -> u32 {
        self.piece_length
    }

    pub open spec fn spec_total(&self) -> u64 {
        self.total_size
    }

    /// The expected digests, one per piece.
    pub open spec fn spec_hashes(&self) -> Seq<Seq<u8>> {
        self.hashes@.map_values(|h: [u8; 20]| h@)
    }

    /// Lengths of a piece are defined: at least one piece, and a nonzero piece length where the
    /// last piece's remainder is taken.
    pub open spec fn piece_length_defined(&self, index: u32) -> bool {
        self.num_pieces > 0 && (index == self.num_pieces - 1 ==> self.spec_piece_len() > 0)
    }

    /// The length of piece `index`.
    pub open spec fn piece_len_of(&self, index: u32) -> u32 {
        spec_piece_length(self.spec_piece_len(), self.spec_total(), self.num_pieces, index)
    }

    /// Block `block` of piece `index` lies within u32 arithmetic and within the piece.
    pub open spec fn block_length_defined(&self, index: u32, block: u32) -> bool {
        &&& self.piece_length_defined(index)
        &&& block * BLOCK_SIZE + BLOCK_SIZE <= u32::MAX
        &&& (block * BLOCK_SIZE + BLOCK_SIZE > self.piece_len_of(index) ==> block * BLOCK_SIZE
            <= self.piece_len_of(index))
    }

    pub fn new(piece_length: u32, total_size: u64, hashes: Vec<[u8; 20]>) -> (pm: Self)
        ensures
            pm.spec_piece_len() == piece_length,
            pm.spec_total() == total_size,
            pm.num_pieces == hashes@.len() as u32,
            pm.spec_hashes() == hashes@.map_values(|h: [u8; 20]| h@),
            pm.states@ == Seq::new(pm.num_pieces as nat, |i: int| PieceState::Missing),
            pm.bitfield@ == Seq::new(bitfield_len(pm.num_pieces as nat), |i: int| 0u8),
    {
        let num_pieces = hashes.len() as u32;
        let bf_len = compute_bitfield_len(num_pieces);
        let states = vec![PieceState::Missing; num_pieces as usize];
        let bitfield = vec![0u8; bf_len];
        assert(states@ =~= Seq::new(num_pieces as nat, |i: int| PieceState::Missing));
        assert(bitfield@ =~= Seq::new(bitfield_len(num_pieces as nat), |i: int| 0u8));
        Self { piece_length, total_size, num_pieces, hashes, states, bitfield }
    }

    pub fn piece_length(&self) -> (r: u32)
        ensures
            r == self.spec_piece_len(),
    {
        self.piece_length
    }

    pub fn total_size(&self) -> (r: u64)
        ensures
            r == self.spec_total(),
    {
        self.total_size
    }

    pub fn num_pieces(&self) -> (r: u32)
        ensures
            r == self.num_pieces,
    {
        self.num_pieces
    }

    /// Marks every piece that storage already holds as verified and sets its bit.
    pub fn init_from_storage(&mut self, have_pieces: &[bool])
        requires
            forall|i: int|
                0 <= i < have_pieces@.len() && #[trigger] have_pieces@[i] ==> i < old(
                    self,
                ).states@.len() && i <= u32::MAX,
        ensures
            final(self).states@.len() == old(self).states@.len(),
            forall|i: int|
                0 <= i < old(self).states@.len() ==> #[trigger] final(self).states@[i] == (if i
                    < have_pieces@.len() && have_pieces@[i] {
                    PieceState::Verified
                } else {
                    old(self).states@[i]
                }),
            final(self).bitfield@.len() == old(self).bitfield@.len(),
            forall|p: int|
                #[trigger] bit_of(final(self).bitfield@, p) == (bit_of(old(self).bitfield@, p) || (0
                    <= p < have_pieces@.len() && have_pieces@[p] && p / 8 < old(
                    self,
                ).bitfield@.len())),
            final(self).num_pieces == old(self).num_pieces,
            final(self).spec_piece_len() == old(self).spec_piece_len(),
            final(self).spec_total() == old(self).spec_total(),
            final(self).spec_hashes() == old(self).spec_hashes(),
    {
        let mut idx: usize = 0;
        while idx < have_pieces.len()
            invariant
                0 <= idx <= have_pieces@.len(),
                forall|i: int|
                    0 <= i < have_pieces@.len() && #[trigger] have_pieces@[i] ==> i < old(
                        self,
                    ).states@.len() && i <= u32::MAX,
                self.states@.len() == old(self).states@.len(),
                forall|i: int|
                    0 <= i < old(self).states@.len() ==> #[trigger] self.states@[i] == (if i < idx
                        && have_pieces@[i] {
                        PieceState::Verified
                    } else {
                        old(self).states@[i]
                    }),
                self.bitfield@.len() == old(self).bitfield@.len(),
                forall|p: int|
                    #[trigger] bit_of(self.bitfield@, p) == (bit_of(old(self).bitfield@, p) || (0
                        <= p < idx && have_pieces@[p] && p / 8 < old(self).bitfield@.len())),
                self.num_pieces == old(self).num_pieces,
                self.piece_length == old(self).piece_length,
                self.total_size == old(self).total_size,
                self.hashes == old(self).hashes,
            decreases have_pieces@.len() - idx,
        {
            if have_pieces[idx] {
                self.states.set(idx, PieceState::Verified);
                let ghost before = self.bitfield@;
                set_bit_in(&mut self.bitfield, idx as u32);
                assert forall|p: int| #[trigger] bit_of(self.bitfield@, p) == (bit_of(
                    old(self).bitfield@,
                    p,
                ) || (0 <= p < idx + 1 && have_pieces@[p] && p / 8 < old(self).bitfield@.len())) by {
                    assert(bit_of(self.bitfield@, p) == (bit_of(before, p) || (p == idx && (idx / 8)
                        < before.len())));
                }
            }
            idx = idx + 1;
        }
    }

    /// Sets bit `index` of the own bitfield, when it lies inside it.
    pub fn set_bit(&mut self, index: u32)
        ensures
            final(self).bitfield@ == (if (index / 8) < old(self).bitfield@.len() {
                old(self).bitfield@.update(
                    (index / 8) as int,
                    old(self).bitfield@[(index / 8) as int] | (1u8 << ((7 - index % 8) as u8)),
                )
            } else {
                old(self).bitfield@
            }),
            forall|p: int| #[trigger] bit_of(final(self).bitfield@, p) == (bit_of(old(self).bitfield@, p)
                || (p == index && (index / 8) < old(self).bitfield@.len())),
            final(self).states == old(self).states,
            final(self).num_pieces == old(self).num_pieces,
            final(self).spec_piece_len() == old(self).spec_piece_len(),
            final(self).spec_total() == old(self).spec_total(),
            final(self).spec_hashes() == old(self).spec_hashes(),
    {
        set_bit_in(&mut self.bitfield, index);
    }

    /// A remote bitfield is that of a seeder: same length as ours, every byte but the last
    /// all ones, and in the last byte the bits that stand for pieces all set.
    pub fn is_full_bitfield(&self, bf: &[u8]) -> (r: bool)
        ensures
            r == full_bitfield(bf@, self.bitfield@.len(), self.num_pieces as nat),
            r && self.bitfield@.len() == (self.num_pieces + 7) / 8 ==> forall|i: int|
                0 <= i < self.num_pieces ==> #[trigger] bit_of(bf@, i),
    {
        proof {
            law_full_bitfield_has_every_piece(bf@, self.num_pieces as nat);
        }
        if bf.len() != self.bitfield.len() {
            return false;
        }
        let n = bf.len();
        if n == 0 {
            return true;
        }
        let mut i: usize = 0;
        while i < n - 1
            invariant
                n == bf@.len(),
                n > 0,
                0 <= i <= n - 1,
                forall|j: int| 0 <= j < i ==> bf@[j] == 0xFFu8,
            decreases n - 1 - i,
        {
            if bf[i] != 0xFF {
                return false;
            }
            i = i + 1;
        }
        let last_byte = bf[n - 1];
        let bits = self.num_pieces % 8;
        if bits == 0 {
            last_byte == 0xFF
        } else {
            let mask: u8 = (0xFFu32 << ((8 - bits) as u32)) as u8;
            proof {
                lemma_top_bits_mask(last_byte, bits);
            }
            (last_byte & mask) == mask
        }
    }

    pub fn has_bit(&self, index: u32) -> (r: bool)
        ensures
            r == bit_of(self.bitfield@, index as int),
    {
        test_bit(self.bitfield.as_slice(), index)
    }

    /// Every piece is verified.
    pub fn is_complete(&self) -> (r: bool)
        ensures
            r == (forall|i: int| 0 <= i < self.states@.len() ==> self.states@[i] == PieceState::Verified),
    {
        let mut i: usize = 0;
        while i < self.states.len()
            invariant
                0 <= i <= self.states@.len(),
                forall|j: int| 0 <= j < i ==> self.states@[j] == PieceState::Verified,
            decreases self.states@.len() - i,
        {
            if self.states[i] != PieceState::Verified {
                return false;
            }
            i = i + 1;
        }
        true
    }

    pub fn get_piece_length(&self, index: u32) -> (r: u32)
        requires
            self.piece_length_defined(index),
        ensures
            r == self.piece_len_of(index),
    {
        if index == self.num_pieces - 1 {
            let rem = self.total_size % (self.piece_length as u64);
            if rem == 0 {
                self.piece_length
            } else {
                rem as u32
            }
        } else {
            self.piece_length
        }
    }

    /// Number of blocks in piece `index`.
    pub fn get_num_blocks(&self, index: u32) -> (r: u32)
        requires
            self.piece_length_defined(index),
            self.piece_len_of(index) + BLOCK_SIZE <= u32::MAX,
        ensures
            r == (self.piece_len_of(index) + BLOCK_SIZE - 1) / (BLOCK_SIZE as int),
    {
        let len = self.get_piece_length(index);
        (len + BLOCK_SIZE - 1) / BLOCK_SIZE
    }

    pub fn get_block_length(&self, piece_index: u32, block_index: u32) -> (r: u32)
        requires
            self.block_length_defined(piece_index, block_index),
        ensures
            r == spec_block_length(self.piece_len_of(piece_index), block_index),
    {
        let piece_len = self.get_piece_length(piece_index);
        let offset = block_index * BLOCK_SIZE;
        if offset + BLOCK_SIZE > piece_len {
            piece_len - offset
        } else {
            BLOCK_SIZE
        }
    }

    /// The data's SHA-1 digest is the expected digest of piece `index`.
    pub fn verify_hash(&self, index: u32, data: &[u8]) -> (r: bool)
        ensures
            r == ((index as int) < self.spec_hashes().len() && sha1_spec(data@) == self.spec_hashes()[index as int]),
    {
        if (index as usize) < self.hashes.len() {
            let res = sha1_digest(data);
            digest_eq(&res, &self.hashes[index as usize])
        } else {
            false
        }
    }

    /// The first missing piece that the peer's bitfield says it has.
    pub fn pick_next_piece(&self, peer_bitfield: &[u8]) -> (r: Option<u32>)
        requires
            self.states@.len() >= self.num_pieces,
        ensures
            match r {
                Some(i) => i < self.num_pieces && pickable(self.states@, peer_bitfield@, i as int)
                    && forall|j: int| 0 <= j < i ==> !pickable(self.states@, peer_bitfield@, j),
                None => forall|j: int| 0 <= j < self.num_pieces ==> !pickable(self.states@, peer_bitfield@, j),
            },
    {
        let mut i: u32 = 0;
        while i < self.num_pieces
            invariant
                0 <= i <= self.num_pieces,
                self.states@.len() >= self.num_pieces,
                forall|j: int| 0 <= j < i ==> !pickable(self.states@, peer_bitfield@, j),
            decreases self.num_pieces - i,
        {
            if self.states[i as usize] == PieceState::Missing && test_bit(peer_bitfield, i) {
                return Some(i);
            }
            i = i + 1;
        }
        None
    }
}

/// Piece `i` is missing here and the peer has it.
pub open spec fn pickable(states: Seq<PieceState>, peer: Seq<u8>, i: int) -> bool {
    states[i] == PieceState::Missing && bit_of(peer, i)
}

/// The top `bits` bits of a byte are set.
pub open spec fn top_bits_set(b: u8, bits: u32) -> bool {
    (b >> ((8 - bits) as u8)) == (0xFFu8 >> ((8 - bits) as u8))
}

/// A remote bitfield of `own_len` bytes whose bits for `num_pieces` pieces are all set, checked
/// bytewise: full bytes all ones, the last byte's leading `num_pieces % 8` bits.
pub open spec fn full_bitfield(bf: Seq<u8>, own_len: nat, num_pieces: nat) -> bool {
    &&& bf.len() == own_len
    &&& forall|j: int| 0 <= j < bf.len() - 1 ==> bf[j] == 0xFFu8
    &&& bf.len() > 0 ==> (if num_pieces % 8 == 0 {
        bf[bf.len() - 1] == 0xFFu8
    } else {
        top_bits_set(bf[bf.len() - 1], (num_pieces % 8) as u32)
    })
}

proof fn lemma_full_byte_bits(b: u8, k: u8)
    requires
        b == 0xFFu8,
        k < 8,
    ensures
        (b >> ((7 - k) as u8)) & 1u8 == 1u8,
{
    assert(k < 8 ==> (0xFFu8 >> ((7 - k) as u8)) & 1u8 == 1u8) by (bit_vector);
}

proof fn lemma_top_bits_each(b: u8, r: u32, k: u8)
    requires
        0 < r < 8,
        k < r,
        top_bits_set(b, r),
    ensures
        (b >> ((7 - k) as u8)) & 1u8 == 1u8,
{
    let sh = (8 - r) as u8;
    assert(b >> sh == 0xFFu8 >> sh);
    assert((b >> sh == 0xFFu8 >> sh) && 0 < sh <= 7 && (k as u32) < 8 - (sh as u32) ==> (b >> ((7 - k) as u8))
        & 1u8 == 1u8) by (bit_vector);
}

/// A bitfield counted as a seeder's has the bit of every piece set: with one bit per piece
/// rounded up to whole bytes, `full_bitfield` holds only of bitfields that have every piece.
pub proof fn law_full_bitfield_has_every_piece(bf: Seq<u8>, num_pieces: nat)
    ensures
        full_bitfield(bf, (num_pieces + 7) / 8, num_pieces) ==> forall|i: int| 0 <= i < num_pieces
            ==> #[trigger] bit_of(bf, i),
{
    if full_bitfield(bf, (num_pieces + 7) / 8, num_pieces) {
        assert forall|i: int| 0 <= i < num_pieces implies #[trigger] bit_of(bf, i) by {
            let j = i / 8;
            let k = (i % 8) as u8;
            assert(j < bf.len());
            if j < bf.len() - 1 {
                lemma_full_byte_bits(bf[j], k);
            } else {
                let r = (num_pieces % 8) as u32;
                if r == 0 {
                    lemma_full_byte_bits(bf[j], k);
                } else {
                    assert(j == (num_pieces - 1) / 8);
                    assert((k as u32) < r);
                    lemma_top_bits_each(bf[j], r, k);
                }
            }
        }
    }
}

proof fn lemma_top_bits_mask(b: u8, bits: u32)
    requires
        0 < bits < 8,
    ensures
        ((b & ((0xFFu32 << ((8 - bits) as u32)) as u8)) == ((0xFFu32 << ((8 - bits) as u32)) as u8))
            == top_bits_set(b, bits),
{
    assert(((b & ((0xFFu32 << ((8 - bits) as u32)) as u8)) == ((0xFFu32 << ((8 - bits) as u32)) as u8))
        == ((b >> ((8 - bits) as u8)) == (0xFFu8 >> ((8 - bits) as u8)))) by (bit_vector)
        requires
            0 < bits < 8,
    ;
}

/// With up to 2^24 pieces the bitfield has exactly one bit per piece rounded up to whole bytes;
/// beyond that the count's rounding to a single-precision float shows.
pub proof fn law_bitfield_len_exact(n: nat)
    requires
        n <= 0x1000000,
    ensures
        bitfield_len(n) == (n + 7) / 8,
{
}

// ─── A piece being downloaded ────────────────────────────────────────────────
/// Number of `true` entries.
pub open spec fn count_true(s: Seq<bool>) -> nat
    decreases s.len(),
{
    if s.len() == 0 {
        0
    } else {
        count_true(s.drop_last()) + (if s.last() {
            1nat
        } else {
            0nat
        })
    }
}

proof fn lemma_count_true_update(s: Seq<bool>, i: int)
    requires
        0 <= i < s.len(),
        !s[i],
    ensures
        count_true(s.update(i, true)) == count_true(s) + 1,
    decreases s.len(),
{
    let t = s.update(i, true);
    if i == s.len() - 1 {
        assert(t.drop_last() =~= s.drop_last());
    } else {
        lemma_count_true_update(s.drop_last(), i);
        assert(t.drop_last() =~= s.drop_last().update(i, true));
    }
}

proof fn lemma_count_true_bound(s: Seq<bool>)
    ensures
        count_true(s) <= s.len(),
        count_true(s) == s.len() <==> forall|i: int| 0 <= i < s.len() ==> s[i],
    decreases s.len(),
{
    if s.len() > 0 {
        lemma_count_true_bound(s.drop_last());
        if count_true(s) == s.len() {
            assert forall|i: int| 0 <= i < s.len() implies s[i] by {
                if i < s.len() - 1 {
                    assert(s[i] == s.drop_last()[i]);
                }
            }
        }
        if forall|i: int| 0 <= i < s.len() ==> s[i] {
            assert forall|i: int| 0 <= i < s.drop_last().len() implies s.drop_last()[i] by {
                assert(s[i] == s.drop_last()[i]);
            }
        }
    }
}

/// Indices below `n` of the blocks not yet received, in increasing order.
pub open spec fn missing_upto(mask: Seq<bool>, n: int) -> Seq<u32>
    decreases n,
{
    if n <= 0 {
        Seq::empty()
    } else if !mask[n - 1] {
        missing_upto(mask, n - 1).push((n - 1) as u32)
    } else {
        missing_upto(mask, n - 1)
    }
}

proof fn lemma_missing_prefix(mask: Seq<bool>, a: int, b: int)
    requires
        0 <= a <= b,
    ensures
        missing_upto(mask, a).len() <= missing_upto(mask, b).len(),
        missing_upto(mask, b).subrange(0, missing_upto(mask, a).len() as int) == missing_upto(
            mask,
            a,
        ),
    decreases b - a,
{
    if a == b {
        assert(missing_upto(mask, b).subrange(0, missing_upto(mask, a).len() as int)
            =~= missing_upto(mask, a));
    } else {
        lemma_missing_prefix(mask, a, b - 1);
        let m = missing_upto(mask, b - 1);
        let k = missing_upto(mask, a).len() as int;
        if !mask[b - 1] {
            assert(m.push((b - 1) as u32).subrange(0, k) =~= m.subrange(0, k));
        }
    }
}

proof fn lemma_missing_bounds(mask: Seq<bool>, n: int)
    requires
        0 <= n <= u32::MAX + 1,
        n <= mask.len(),
    ensures
        forall|j: int| 0 <= j < missing_upto(mask, n).len() ==> #[trigger] missing_upto(mask, n)[j] < n
            && !mask[missing_upto(mask, n)[j] as int],
    decreases n,
{
    if n > 0 {
        lemma_missing_bounds(mask, n - 1);
        assert(((n - 1) as u32) as int == n - 1);
        let m = missing_upto(mask, n - 1);
        assert forall|j: int| 0 <= j < missing_upto(mask, n).len() implies #[trigger] missing_upto(
            mask,
            n,
        )[j] < n && !mask[missing_upto(mask, n)[j] as int] by {
            if j < m.len() {
                assert(missing_upto(mask, n)[j] == m[j]);
            }
        }
    }
}

/// Tracks the blocks received for a single piece being downloaded.
#[derive(Debug)]
pub struct ActivePiece {
    pub index: u32,
    pub total_blocks: u32,
    pub blocks_received: u32,
    /// `true` for each block received.
    pub block_mask: Vec<bool>,
    /// Buffer for the whole piece.
    pub data: Vec<u8>,
}

impl ActivePiece {
    /// One mask entry per block, and the received count is the number of blocks marked.
    pub open spec fn wf(&self) -> bool {
        &&& self.block_mask@.len() == self.total_blocks
        &&& self.blocks_received == count_true(self.block_mask@)
    }

    pub fn new(index: u32, piece_len: u32) -> (p: Self)
        requires
            piece_len + BLOCK_SIZE <= u32::MAX,
        ensures
            p.wf(),
            p.index == index,
            p.total_blocks == (piece_len + BLOCK_SIZE - 1) / (BLOCK_SIZE as int),
            p.blocks_received == 0,
            p.block_mask@ == Seq::new(p.total_blocks as nat, |i: int| false),
            p.data@ == Seq::new(piece_len as nat, |i: int| 0u8),
    {
        let total_blocks = (piece_len + BLOCK_SIZE - 1) / BLOCK_SIZE;
        let block_mask = vec![false; total_blocks as usize];
        let data = vec![0u8; piece_len as usize];
        let p = Self { index, total_blocks, blocks_received: 0, block_mask, data };
        assert(p.block_mask@ =~= Seq::new(p.total_blocks as nat, |i: int| false));
        assert(p.data@ =~= Seq::new(piece_len as nat, |i: int| 0u8));
        proof {
            lemma_count_zero(p.block_mask@);
        }
        p
    }

    /// Stores a block that starts at `begin`, unless its block was already received or it does
    /// not fit in the piece; says whether it was stored.
    pub fn add_block(&mut self, begin: u32, block_data: &[u8]) -> (r: bool)
        requires
            old(self).wf(),
            begin + block_data@.len() <= usize::MAX,
        ensures
            final(self).wf(),
            r == ((begin / BLOCK_SIZE) < old(self).block_mask@.len() && !old(self).block_mask@[(
            begin / BLOCK_SIZE) as int] && begin + block_data@.len() <= old(self).data@.len()),
            r ==> final(self).block_mask@ == old(self).block_mask@.update(
                (begin / BLOCK_SIZE) as int,
                true,
            ) && final(self).blocks_received == old(self).blocks_received + 1 && final(self).data@
                == old(self).data@.subrange(0, begin as int) + block_data@ + old(self).data@.subrange(
                begin + block_data@.len(),
                old(self).data@.len() as int,
            ),
            !r ==> final(self).block_mask@ == old(self).block_mask@ && final(self).blocks_received
                == old(self).blocks_received && final(self).data@ == old(self).data@,
            final(self).index == old(self).index,
            final(self).total_blocks == old(self).total_blocks,
    {
        let block_idx = (begin / BLOCK_SIZE) as usize;
        if block_idx < self.block_mask.len() && !self.block_mask[block_idx] {
            let end = begin as usize + block_data.len();
            if end <= self.data.len() {
                let mut i: usize = 0;
                while i < block_data.len()
                    invariant
                        0 <= i <= block_data@.len(),
                        end == begin + block_data@.len(),
                        end <= self.data@.len(),
                        self.data@.len() == old(self).data@.len(),
                        self.data@ == old(self).data@.subrange(0, begin as int)
                            + block_data@.subrange(0, i as int) + old(self).data@.subrange(
                            begin + i,
                            old(self).data@.len() as int,
                        ),
                        self.block_mask == old(self).block_mask,
                        self.blocks_received == old(self).blocks_received,
                        self.index == old(self).index,
                        self.total_blocks == old(self).total_blocks,
                    decreases block_data@.len() - i,
                {
                    self.data.set(begin as usize + i, block_data[i]);
                    i = i + 1;
                    assert(self.data@ =~= old(self).data@.subrange(0, begin as int)
                        + block_data@.subrange(0, i as int) + old(self).data@.subrange(
                        begin + i,
                        old(self).data@.len() as int,
                    ));
                }
                assert(block_data@.subrange(0, i as int) =~= block_data@);
                proof {
                    lemma_count_true_update(self.block_mask@, block_idx as int);
                    lemma_count_true_bound(self.block_mask@);
                }
                self.block_mask.set(block_idx, true);
                self.blocks_received = self.blocks_received + 1;
                return true;
            }
        }
        false
    }

    /// Every block has been received.
    pub fn is_complete(&self) -> (r: bool)
        ensures
            r == (self.blocks_received == self.total_blocks),
    {
        self.blocks_received == self.total_blocks
    }

    /// The missing blocks as (offset, length) pairs, in block order: the first `max_requests`
    /// of them, or all when fewer are missing.
    pub fn get_missing_blocks(&self, piece_manager: &PieceManager, max_requests: usize) -> (r: Vec<(u32, u32)>)
        requires
            self.wf(),
            forall|i: int|
                0 <= i < self.total_blocks && !self.block_mask@[i] ==> piece_manager.block_length_defined(
                    self.index,
                    i as u32,
                ),
        ensures
            ({
                let full = missing_upto(self.block_mask@, self.total_blocks as int);
                let n = if full.len() < max_requests { full.len() as int } else { max_requests as int };
                r@ == Seq::new(
                    n as nat,
                    |j: int|
                        (
                            (full[j] * BLOCK_SIZE) as u32,
                            spec_block_length(piece_manager.piece_len_of(self.index), full[j]),
                        ),
                )
            }),
    {
        let ghost full = missing_upto(self.block_mask@, self.total_blocks as int);
        let ghost cap: int = max_requests as int;
        let mut missing: Vec<(u32, u32)> = Vec::new();
        if max_requests == 0 {
            assert(missing@ =~= Seq::new(
                0,
                |j: int|
                    (
                        (full[j] * BLOCK_SIZE) as u32,
                        spec_block_length(piece_manager.piece_len_of(self.index), full[j]),
                    ),
            ));
            return missing;
        }
        let mut i: u32 = 0;
        proof {
            lemma_missing_bounds(self.block_mask@, self.total_blocks as int);
        }
        while i < self.total_blocks
            invariant
                self.wf(),
                0 <= i <= self.total_blocks,
                forall|k: int|
                    0 <= k < self.total_blocks && !self.block_mask@[k] ==> piece_manager.block_length_defined(
                        self.index,
                        k as u32,
                    ),
                missing@.len() < cap,
                cap == max_requests,
                full == missing_upto(self.block_mask@, self.total_blocks as int),
                missing@ == Seq::new(
                    missing_upto(self.block_mask@, i as int).len(),
                    |j: int|
                        (
                            (missing_upto(self.block_mask@, i as int)[j] * BLOCK_SIZE) as u32,
                            spec_block_length(
                                piece_manager.piece_len_of(self.index),
                                missing_upto(self.block_mask@, i as int)[j],
                            ),
                        ),
                ),
            decreases self.total_blocks - i,
        {
            proof {
                lemma_missing_bounds(self.block_mask@, i + 1);
            }
            if !self.block_mask[i as usize] {
                let begin = i * BLOCK_SIZE;
                let len = piece_manager.get_block_length(self.index, i);
                missing.push((begin, len));
                assert(missing@ =~= Seq::new(
                    missing_upto(self.block_mask@, i + 1).len(),
                    |j: int|
                        (
                            (missing_upto(self.block_mask@, i + 1)[j] * BLOCK_SIZE) as u32,
                            spec_block_length(
                                piece_manager.piece_len_of(self.index),
                                missing_upto(self.block_mask@, i + 1)[j],
                            ),
                        ),
                ));
                if missing.len() >= max_requests {
                    proof {
                        lemma_missing_prefix(self.block_mask@, i + 1, self.total_blocks as int);
                    }
                    let ghost n: int = if full.len() < cap { full.len() as int } else { cap };
                    assert(missing@.len() == cap);
                    assert(missing@ =~= Seq::new(
                        n as nat,
                        |j: int|
                            (
                                (full[j] * BLOCK_SIZE) as u32,
                                spec_block_length(piece_manager.piece_len_of(self.index), full[j]),
                            ),
                    ));
                    return missing;
                }
            }
            i = i + 1;
        }
        assert(missing@ =~= Seq::new(
            full.len(),
            |j: int|
                (
                    (full[j] * BLOCK_SIZE) as u32,
                    spec_block_length(piece_manager.piece_len_of(self.index), full[j]),
                ),
        ));
        missing
    }
}

proof fn lemma_count_zero(s: Seq<bool>)
    requires
        forall|i: int| 0 <= i < s.len() ==> !s[i],
    ensures
        count_true(s) == 0,
    decreases s.len(),
{
    if s.len() > 0 {
        lemma_count_zero(s.drop_last());
    }
}

/// A piece is complete exactly when every one of its blocks has been received.
pub proof fn law_piece_complete(p: ActivePiece)
    requires
        p.wf(),
    ensures
        (p.blocks_received == p.total_blocks) <==> forall|i: int| 0 <= i < p.total_blocks ==> p.block_mask@[i],
{
    lemma_count_true_bound(p.block_mask@);
}

/// The lengths of the first `k` pieces, added up.
pub open spec fn lengths_upto(piece_length: u32, total_size: u64, num_pieces: u32, k: int) -> int
    decreases k,
{
    if k <= 0 {
        0
    } else {
        lengths_upto(piece_length, total_size, num_pieces, k - 1) + spec_piece_length(
            piece_length,
            total_size,
            num_pieces,
            (k - 1) as u32,
        )
    }
}

proof fn lemma_full_pieces(piece_length: u32, total_size: u64, num_pieces: u32, k: int)
    requires
        0 <= k <= num_pieces - 1,
    ensures
        lengths_upto(piece_length, total_size, num_pieces, k) == k * piece_length,
    decreases k,
{
    if k > 0 {
        lemma_full_pieces(piece_length, total_size, num_pieces, k - 1);
        assert(((k - 1) as u32) as int == k - 1);
        assert(spec_piece_length(piece_length, total_size, num_pieces, (k - 1) as u32) == piece_length);
        assert((k - 1) * piece_length + piece_length == k * piece_length) by (nonlinear_arith);
        assert(lengths_upto(piece_length, total_size, num_pieces, k) == lengths_upto(
            piece_length,
            total_size,
            num_pieces,
            k - 1,
        ) + piece_length);
    } else {
        assert(k * piece_length == 0) by (nonlinear_arith)
            requires
                k == 0,
        ;
    }
}

/// When the torrent's size needs exactly `num_pieces` pieces of `piece_length`, every piece but
/// the last has that length, the last holds what is left, and the lengths add up to the size.
pub proof fn law_piece_lengths_sum(piece_length: u32, total_size: u64, num_pieces: u32)
    requires
        piece_length > 0,
        num_pieces >= 1,
        (num_pieces - 1) * piece_length < total_size <= num_pieces * piece_length,
    ensures
        forall|i: u32| i < num_pieces - 1 ==> #[trigger] spec_piece_length(piece_length, total_size, num_pieces, i) == piece_length,
        spec_piece_length(piece_length, total_size, num_pieces, (num_pieces - 1) as u32) == total_size - (num_pieces - 1) * piece_length,
        lengths_upto(piece_length, total_size, num_pieces, num_pieces as int) == total_size,
{
    let n1 = (num_pieces - 1) as int;
    let pl = piece_length as int;
    let r = total_size - n1 * pl;
    assert(0 < r <= pl) by (nonlinear_arith)
        requires
            n1 * pl < total_size <= (n1 + 1) * pl,
            r == total_size - n1 * pl,
    ;
    vstd::arithmetic::div_mod::lemma_mod_multiples_vanish(n1, r, pl);
    assert(total_size == pl * n1 + r) by (nonlinear_arith)
        requires
            r == total_size - n1 * pl,
    ;
    if r < pl {
        vstd::arithmetic::div_mod::lemma_small_mod(r as nat, pl as nat);
    } else {
        vstd::arithmetic::div_mod::lemma_mod_self_0(pl);
    }
    assert((total_size % (piece_length as u64)) as int == r % pl);
    lemma_full_pieces(piece_length, total_size, num_pieces, n1);
}

} // verus!
