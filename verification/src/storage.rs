//! Where the bytes of a torrent lie in its files.
//!
//! A torrent's data is the concatenation of its files. A block at an absolute offset maps to
//! pieces of consecutive files; the application does the reading and writing, segment by
//! segment, as planned here.
use vstd::prelude::*;
use crate::error::CoreError;

verus! {

broadcast use vstd::seq_lib::group_seq_properties;

/// One file's place in the torrent's data.
#[derive(Debug, Clone, Copy, PartialEq, Eq, Structural)]
pub struct FileSpan {
    pub size: u64,
    pub offset_in_torrent: u64,
}

/// A stretch of one file that a block covers: `len` bytes at `offset_in_file` in file
/// `file_index`, at `buf_pos` in the block.
#[derive(Debug, Clone, Copy, PartialEq, Eq, Structural)]
pub struct Segment {
    pub file_index: usize,
    pub offset_in_file: u64,
    pub buf_pos: usize,
    pub len: u32,
}

/// The segments of a block of `length` bytes at `cur`, looking at files from `k` on: each file
/// that holds the current offset gives as many bytes as remain in it (that count cut to 32
/// bits) or as remain in the block, whichever is fewer.
pub open spec fn segments_from(files: Seq<FileSpan>, k: int, cur: int, length: int, pos: int) -> Seq<Segment>
    decreases files.len() - k,
{
    if k < 0 || k >= files.len() || length == 0 {
        Seq::empty()
    } else {
        let f = files[k];
        if f.offset_in_torrent <= cur < f.offset_in_torrent + f.size {
            let off = cur - f.offset_in_torrent;
            let avail = (f.size - off) as u64;
            let n = if length < (avail as u32) {
                length
            } else {
                (avail as u32) as int
            };
            seq![Segment { file_index: k as usize, offset_in_file: off as u64, buf_pos: pos as usize, len: n as u32 }]
                + segments_from(files, k + 1, cur + n, length - n, pos + n)
        } else {
            segments_from(files, k + 1, cur, length, pos)
        }
    }
}

/// The plan for a block: out of bounds when it reaches past the torrent's end, else its
/// segments.
pub open spec fn spec_block_segments(files: Seq<FileSpan>, total_size: u64, absolute_offset: u64, length: u32) -> Option<Seq<Segment>> {
    if absolute_offset + length > total_size {
        None
    } else {
        Some(segments_from(files, 0, absolute_offset as int, length as int, 0))
    }
}

/// Plans a read (`writing` false) or write of `length` bytes at `absolute_offset`.
pub fn block_segments(files: &[FileSpan], total_size: u64, absolute_offset: u64, length: u32, writing: bool) -> (r: Result<Vec<Segment>, CoreError>)
    ensures
        match spec_block_segments(files@, total_size, absolute_offset, length) {
            Some(s) => r matches Ok(v) && v@ == s,
            None => r matches Err(CoreError::StorageIo(m)) && m@ == (if writing {
                "write out of bounds"@
            } else {
                "read out of bounds"@
            }),
        },
{
    if absolute_offset > total_size || total_size - absolute_offset < length as u64 {
        let m = if writing {
            String::from_str("write out of bounds")
        } else {
            String::from_str("read out of bounds")
        };
        return Err(CoreError::StorageIo(m));
    }
    let mut out: Vec<Segment> = Vec::new();
    let mut current: u64 = absolute_offset;
    let mut remaining: u32 = length;
    let mut pos: usize = 0;
    let mut k: usize = 0;
    let ghost want = segments_from(files@, 0, absolute_offset as int, length as int, 0);
    while k < files.len()
        invariant
            0 <= k <= files@.len(),
            current + remaining <= total_size,
            pos + remaining == length,
            current == absolute_offset + pos,
            want == segments_from(files@, 0, absolute_offset as int, length as int, 0),
            out@ + segments_from(files@, k as int, current as int, remaining as int, pos as int)
                == want,
        ensures
            out@ + segments_from(files@, k as int, current as int, remaining as int, pos as int)
                == want,
            k >= files@.len() || remaining == 0,
        decreases files@.len() - k,
    {
        if remaining == 0 {
            break;
        }
        let f = files[k];
        if current >= f.offset_in_torrent && current - f.offset_in_torrent < f.size {
            let off = current - f.offset_in_torrent;
            let avail = f.size - off;
            let cut = #[verifier::truncate] (avail as u32);
            let n = if remaining < cut {
                remaining
            } else {
                cut
            };
            let seg = Segment { file_index: k, offset_in_file: off, buf_pos: pos, len: n };
            let ghost before = out@;
            out.push(seg);
            assert(out@ == before + seq![seg]);
            current = current + n as u64;
            remaining = remaining - n;
            pos = pos + n as usize;
        }
        k = k + 1;
    }
    assert(segments_from(files@, k as int, current as int, remaining as int, pos as int) =~= Seq::<Segment>::empty());
    assert(out@ =~= want);
    Ok(out)
}

/// Bytes in piece `piece_index` when every piece but the last is `piece_length` long: what
/// remains of the torrent from the piece's start, at most `piece_length`.
pub fn piece_read_len(total_size: u64, piece_index: u32, piece_length: u32) -> (r: u32)
    ensures
        r == (if piece_index * piece_length >= total_size {
            0
        } else if total_size - piece_index * piece_length < piece_length {
            total_size - piece_index * piece_length
        } else {
            piece_length as int
        }),
{
    let offset = piece_offset(piece_index, piece_length);
    let rest = total_size.saturating_sub(offset);
    if rest < piece_length as u64 {
        rest as u32
    } else {
        piece_length
    }
}

/// The absolute offset of a piece's first byte.
pub fn piece_offset(piece_index: u32, piece_length: u32) -> (r: u64)
    ensures
        r == piece_index * piece_length,
{
    proof {
        assert(piece_index * piece_length <= u32::MAX * u32::MAX) by (nonlinear_arith)
            requires
                piece_index <= u32::MAX,
                piece_length <= u32::MAX,
        ;
    }
    piece_index as u64 * piece_length as u64
}

// ─── What a plan covers ──────────────────────────────────────────────────────
/// The bytes that segments cover, added up.
pub open spec fn seg_total(s: Seq<Segment>) -> int
    decreases s.len(),
{
    if s.len() == 0 {
        0
    } else {
        s[0].len + seg_total(s.drop_first())
    }
}

/// Where file `k` begins, or the torrent's end past the last file.
pub open spec fn span_start(files: Seq<FileSpan>, total_size: u64, k: int) -> int {
    if 0 <= k < files.len() {
        files[k].offset_in_torrent as int
    } else {
        total_size as int
    }
}

/// The files follow each other without gap or overlap from offset 0 to the torrent's end, and
/// none holds 4 GiB or more.
pub open spec fn laid_end_to_end(files: Seq<FileSpan>, total_size: u64) -> bool {
    &&& span_start(files, total_size, 0) == 0
    &&& forall|k: int| 0 <= k < files.len() ==> #[trigger] files[k].offset_in_torrent + files[k].size
        == span_start(files, total_size, k + 1)
    &&& forall|k: int| 0 <= k < files.len() ==> #[trigger] files[k].size <= u32::MAX
}

/// Each segment lies inside its file, at the place of the torrent that its place in the block
/// stands for, and starts where the one before it ended.
pub open spec fn segments_placed(files: Seq<FileSpan>, s: Seq<Segment>, shift: int, pos: int) -> bool {
    &&& forall|i: int| 0 <= i < s.len() ==> (#[trigger] s[i]).file_index < files.len()
    &&& forall|i: int| 0 <= i < s.len() ==> (#[trigger] s[i]).offset_in_file + s[i].len
        <= files[s[i].file_index as int].size
    &&& forall|i: int| 0 <= i < s.len() ==> files[(#[trigger] s[i]).file_index as int].offset_in_torrent
        + s[i].offset_in_file == shift + s[i].buf_pos
    &&& s.len() > 0 ==> s[0].buf_pos == pos
    &&& forall|i: int| 0 <= i < s.len() - 1 ==> #[trigger] s[i + 1].buf_pos == s[i].buf_pos + s[i].len
}

proof fn lemma_segments_placed(files: Seq<FileSpan>, k: int, cur: int, length: int, pos: int)
    requires
        files.len() <= usize::MAX,
        0 <= k,
        0 <= pos,
        0 <= length,
        pos + length <= u32::MAX,
        0 <= cur,
    ensures
        segments_placed(files, segments_from(files, k, cur, length, pos), cur - pos, pos),
        seg_total(segments_from(files, k, cur, length, pos)) <= length,
    decreases files.len() - k,
{
    let s = segments_from(files, k, cur, length, pos);
    if k >= files.len() || length == 0 {
    } else {
        let f = files[k];
        if f.offset_in_torrent <= cur < f.offset_in_torrent + f.size {
            let off = cur - f.offset_in_torrent;
            let avail = (f.size - off) as u64;
            let n = if length < (avail as u32) {
                length
            } else {
                (avail as u32) as int
            };
            assert(avail as u32 <= avail) by (bit_vector);
            let seg = Segment { file_index: k as usize, offset_in_file: off as u64, buf_pos: pos as usize, len: n as u32 };
            let rest = segments_from(files, k + 1, cur + n, length - n, pos + n);
            lemma_segments_placed(files, k + 1, cur + n, length - n, pos + n);
            assert(s == seq![seg] + rest);
            assert(s.drop_first() =~= rest);
            assert forall|i: int| 0 <= i < s.len() - 1 implies #[trigger] s[i + 1].buf_pos == s[i].buf_pos
                + s[i].len by {
                if i > 0 {
                    assert(s[i] == rest[i - 1]);
                    assert(s[i + 1] == rest[i]);
                }
            }
            assert forall|i: int| 0 <= i < s.len() implies (#[trigger] s[i]).file_index < files.len()
                && s[i].offset_in_file + s[i].len <= files[s[i].file_index as int].size
                && files[s[i].file_index as int].offset_in_torrent + s[i].offset_in_file == (cur
                - pos) + s[i].buf_pos by {
                if i > 0 {
                    assert(s[i] == rest[i - 1]);
                } else {
                    assert(s[0] == seg);
                    assert(seg.file_index == k);
                    assert(seg.offset_in_file == off);
                    assert(seg.buf_pos == pos);
                    assert(seg.len == n);
                }
            }
        } else {
            lemma_segments_placed(files, k + 1, cur, length, pos);
        }
    }
}

proof fn lemma_segments_cover(files: Seq<FileSpan>, total_size: u64, k: int, cur: int, length: int, pos: int)
    requires
        laid_end_to_end(files, total_size),
        0 <= k <= files.len(),
        0 <= length,
        length > 0 ==> span_start(files, total_size, k) <= cur,
        cur + length <= total_size,
    ensures
        seg_total(segments_from(files, k, cur, length, pos)) == length,
    decreases files.len() - k,
{
    let s = segments_from(files, k, cur, length, pos);
    if length == 0 {
    } else if k >= files.len() {
    } else {
        let f = files[k];
        assert(f.offset_in_torrent + f.size == span_start(files, total_size, k + 1));
        assert(f.size <= u32::MAX);
        if f.offset_in_torrent <= cur < f.offset_in_torrent + f.size {
            let off = cur - f.offset_in_torrent;
            let avail = (f.size - off) as u64;
            assert(avail as u32 == avail);
            let n = if length < (avail as u32) {
                length
            } else {
                (avail as u32) as int
            };
            let seg = Segment { file_index: k as usize, offset_in_file: off as u64, buf_pos: pos as usize, len: n as u32 };
            let rest = segments_from(files, k + 1, cur + n, length - n, pos + n);
            lemma_segments_cover(files, total_size, k + 1, cur + n, length - n, pos + n);
            assert(s == seq![seg] + rest);
            assert(s.drop_first() =~= rest);
        } else {
            lemma_segments_cover(files, total_size, k + 1, cur, length, pos);
        }
    }
}

/// A block inside the torrent is planned as segments that each lie inside a file, at the place
/// of the torrent that their place in the block stands for, one after the other from the
/// block's start; when the files are laid end to end, the segments cover the whole block.
pub proof fn law_block_plan(files: Seq<FileSpan>, total_size: u64, absolute_offset: u64, length: u32)
    requires
        files.len() <= usize::MAX,
        absolute_offset + length <= total_size,
    ensures
        spec_block_segments(files, total_size, absolute_offset, length) matches Some(s) && {
            &&& segments_placed(files, s, absolute_offset as int, 0)
            &&& seg_total(s) <= length
            &&& laid_end_to_end(files, total_size) ==> seg_total(s) == length
        },
{
    lemma_segments_placed(files, 0, absolute_offset as int, length as int, 0);
    if laid_end_to_end(files, total_size) {
        lemma_segments_cover(files, total_size, 0, absolute_offset as int, length as int, 0);
    }
}

} // verus!
