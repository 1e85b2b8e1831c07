//! What a torrent's task decides: progress reports, trackers, piece availability, and the
//! assembly of metadata fetched from peers (BEP 9).
use vstd::prelude::*;
use vstd::utf8::*;
use crate::bencode::{dict_insert, encode, lemma_sd_value_bounds, sd_value, se_value, BDict, BVal, BValue, Decoder};
use crate::models::TorrentStatus;
use crate::pieces::{bit_of, full_bitfield, missing_upto, pickable, spec_block_length, ActivePiece, PieceManager, PieceState, BLOCK_SIZE};
use crate::torrent::{field, opt_int};
use crate::peer::session::PeerCommand;
use vstd::std_specs::hash::spec_hash_map_iter;
use vstd::std_specs::iter::IteratorSpec;
use std::collections::{HashMap, HashSet};

verus! {

broadcast use vstd::std_specs::hash::group_hash_axioms;

/// Commands from the engine to a torrent's task.
#[derive(Debug, Clone, Copy, PartialEq, Eq, Structural)]
pub enum TorrentCommand {
    Pause,
    Resume,
    Stop,
}

/// A progress report from a torrent's task to the engine.
#[derive(Debug, Clone)]
pub struct TorrentUpdate {
    pub id: usize,
    pub downloaded: u64,
    pub uploaded: u64,
    pub left: u64,
    pub num_peers: usize,
    pub num_seeds: usize,
    pub num_leechers: usize,
    pub status: TorrentStatus,
    /// Metadata learnt (for magnet links, once fetched).
    pub total_size: Option<u64>,
    pub piece_length: Option<u32>,
    pub num_pieces: Option<u32>,
}


// ─── Progress reports ────────────────────────────────────────────────────────
/// The state a task reports: seeding once nothing is left of a torrent whose metadata is
/// known, fetching metadata while it is not, downloading otherwise.
pub open spec fn task_status(left: u64, has_metadata: bool) -> TorrentStatus {
    if left == 0 && has_metadata {
        TorrentStatus::Seeding
    } else if !has_metadata {
        TorrentStatus::DownloadingMetadata
    } else {
        TorrentStatus::Downloading
    }
}

/// How many of the first `n` bitfields are those of seeders.
pub open spec fn count_full(bfs: Seq<Vec<u8>>, own_len: nat, num_pieces: nat, n: int) -> nat
    decreases n,
{
    if n <= 0 {
        0
    } else {
        count_full(bfs, own_len, num_pieces, n - 1) + if full_bitfield(bfs[n - 1]@, own_len, num_pieces) {
            1nat
        } else {
            0nat
        }
    }
}

/// The larger of two numbers.
pub open spec fn max_int(a: int, b: int) -> int {
    if a >= b {
        a
    } else {
        b
    }
}

/// The progress report of a task: peers whose bitfield is full count as seeders and the other
/// connected peers as leechers, unless a tracker reported more of either; metadata sizes once
/// the pieces are known.
pub fn make_update(
    id: usize,
    downloaded: u64,
    uploaded: u64,
    left: u64,
    num_peers: usize,
    bitfields: &[Vec<u8>],
    swarm_seeds: u32,
    swarm_leechers: u32,
    pm: Option<&PieceManager>,
) -> (r: TorrentUpdate)
    ensures
        ({
            let seeds: int = match pm {
                Some(p) => count_full(bitfields@, p.bitfield@.len(), p.num_pieces as nat, bitfields@.len() as int) as int,
                None => 0,
            };
            let leechers: int = if num_peers >= seeds { num_peers - seeds } else { 0 };
            &&& r.id == id
            &&& r.downloaded == downloaded
            &&& r.uploaded == uploaded
            &&& r.left == left
            &&& r.num_peers == num_peers
            &&& r.num_seeds == max_int(seeds, swarm_seeds as int)
            &&& r.num_leechers == max_int(leechers, swarm_leechers as int)
            &&& r.status == task_status(left, pm is Some)
            &&& r.total_size == (match pm { Some(p) => Some(p.spec_total()), None => None::<u64> })
            &&& r.piece_length == (match pm { Some(p) => Some(p.spec_piece_len()), None => None::<u32> })
            &&& r.num_pieces == (match pm { Some(p) => Some(p.num_pieces), None => None::<u32> })
        }),
{
    let mut seeds: usize = 0;
    match pm {
        Some(p) => {
            let mut i: usize = 0;
            while i < bitfields.len()
                invariant
                    0 <= i <= bitfields@.len(),
                    seeds == count_full(bitfields@, p.bitfield@.len(), p.num_pieces as nat, i as int),
                    seeds <= i,
                decreases bitfields@.len() - i,
            {
                if p.is_full_bitfield(bitfields[i].as_slice()) {
                    seeds = seeds + 1;
                }
                i = i + 1;
            }
        },
        None => {},
    }
    let leechers = num_peers.saturating_sub(seeds);
    let num_seeds = if seeds >= swarm_seeds as usize { seeds } else { swarm_seeds as usize };
    let num_leechers = if leechers >= swarm_leechers as usize {
        leechers
    } else {
        swarm_leechers as usize
    };
    let has_metadata = pm.is_some();
    let status = if left == 0 && has_metadata {
        TorrentStatus::Seeding
    } else if !has_metadata {
        TorrentStatus::DownloadingMetadata
    } else {
        TorrentStatus::Downloading
    };
    let (total_size, num_pieces, piece_length) = match pm {
        Some(p) => (Some(p.total_size()), Some(p.num_pieces()), Some(p.piece_length())),
        None => (None, None, None),
    };
    TorrentUpdate {
        id,
        downloaded,
        uploaded,
        left,
        num_peers,
        num_seeds,
        num_leechers,
        status,
        total_size,
        piece_length,
        num_pieces,
    }
}

// ─── Trackers and availability ───────────────────────────────────────────────
/// The protocol a tracker URL is announced over.
#[derive(Debug, Clone, Copy, PartialEq, Eq, Structural)]
pub enum TrackerKind {
    Http,
    Udp,
}

/// A URL starting with `http` is an HTTP tracker (https included), one starting with `udp` a
/// UDP tracker; other trackers are not used.
pub open spec fn tracker_kind_of(url: Seq<char>) -> Option<TrackerKind> {
    if url.len() >= 4 && url.take(4) == seq!['h', 't', 't', 'p'] {
        Some(TrackerKind::Http)
    } else if url.len() >= 3 && url.take(3) == seq!['u', 'd', 'p'] {
        Some(TrackerKind::Udp)
    } else {
        None
    }
}

impl TrackerKind {
    /// The protocol of a tracker URL, if it is one the client speaks.
    pub fn of(url: &str) -> (r: Option<TrackerKind>)
        ensures
            r == tracker_kind_of(url@),
    {
        let cs = crate::text::chars_of(url);
        if cs.len() >= 4 && cs[0] == 'h' && cs[1] == 't' && cs[2] == 't' && cs[3] == 'p' {
            assert(cs@.take(4) =~= seq!['h', 't', 't', 'p']);
            Some(TrackerKind::Http)
        } else if cs.len() >= 3 && cs[0] == 'u' && cs[1] == 'd' && cs[2] == 'p' {
            proof {
                if cs@.len() >= 4 && cs@.take(4) == seq!['h', 't', 't', 'p'] {
                    assert(cs@.take(4)[0] == 'h');
                }
            }
            assert(cs@.take(3) =~= seq!['u', 'd', 'p']);
            Some(TrackerKind::Udp)
        } else {
            proof {
                if cs@.len() >= 4 && cs@.take(4) == seq!['h', 't', 't', 'p'] {
                    assert(cs@.take(4)[0] == 'h' && cs@.take(4)[1] == 't');
                    assert(cs@.take(4)[2] == 't' && cs@.take(4)[3] == 'p');
                }
                if cs@.len() >= 3 && cs@.take(3) == seq!['u', 'd', 'p'] {
                    assert(cs@.take(3)[0] == 'u' && cs@.take(3)[1] == 'd' && cs@.take(3)[2] == 'p');
                }
            }
            None
        }
    }
}

/// A peer announced it has piece `piece_index`: its bit is set in the peer's bitfield when
/// the bitfield is long enough, and nothing changes otherwise.
pub fn mark_have(bf: &mut Vec<u8>, piece_index: u32)
    ensures
        final(bf)@.len() == old(bf)@.len(),
        forall|p: int| #[trigger] bit_of(final(bf)@, p) == (bit_of(old(bf)@, p) || (p == piece_index
            && (piece_index / 8) < old(bf)@.len())),
{
    crate::pieces::set_bit_in(bf, piece_index);
}

/// The peer's bitfield shows piece `index`.
pub fn peer_has(bf: &[u8], index: u32) -> (r: bool)
    ensures
        r == ((index / 8) < bf@.len() && bit_of(bf@, index as int)),
{
    if ((index / 8) as usize) < bf.len() {
        crate::pieces::test_bit(bf, index)
    } else {
        false
    }
}

// ─── Metadata exchange (BEP 9) ───────────────────────────────────────────────
/// The extension id under which this client takes `ut_metadata` messages.
pub const UT_METADATA_EXT_ID: u8 = 1;

/// Bytes per metadata piece.
pub const METADATA_PIECE_SIZE: usize = 16384;

/// The bytes of a text, as a vector.
fn key_bytes(k: &str) -> (r: Vec<u8>)
    ensures
        r@ == encode_utf8(k@),
{
    let b = k.as_bytes();
    let mut v: Vec<u8> = Vec::new();
    let mut i: usize = 0;
    while i < b.len()
        invariant
            0 <= i <= b@.len(),
            v@ == b@.take(i as int),
        decreases b@.len() - i,
    {
        v.push(b[i]);
        assert(b@.take(i + 1) =~= b@.take(i as int).push(b@[i as int]));
        i = i + 1;
    }
    assert(b@.take(i as int) =~= b@);
    v
}

/// The extended handshake this client sends: `m` maps `ut_metadata` to its extension id.
pub open spec fn ext_handshake_val() -> BVal {
    BVal::Dict(
        seq![(encode_utf8("m"@), BVal::Dict(seq![(encode_utf8("ut_metadata"@), BVal::Int(UT_METADATA_EXT_ID as int))]))],
    )
}

/// The bencoded extended handshake this client sends.
pub fn extended_handshake_payload() -> (r: Vec<u8>)
    ensures
        r@ == se_value(ext_handshake_val()),
{
    let mut m = BDict::new();
    m.insert(key_bytes("ut_metadata"), BValue::from_int(UT_METADATA_EXT_ID as i64));
    let mut h = BDict::new();
    h.insert(key_bytes("m"), BValue::from_dict(m));
    let v = BValue::from_dict(h);
    assert(v@ =~= ext_handshake_val());
    encode(&v)
}

/// What a torrent says to a newly connected peer, in order: the extended handshake, then that
/// it is interested.
pub fn greeting_commands() -> (r: Vec<PeerCommand>)
    ensures
        r@.len() == 2,
        r@[0] matches PeerCommand::SendExtended { msg_id, payload } && msg_id == 0 && payload@
            == se_value(ext_handshake_val()),
        r@[1] is Interested,
{
    let payload = extended_handshake_payload();
    let mut r: Vec<PeerCommand> = Vec::new();
    r.push(PeerCommand::SendExtended { msg_id: 0, payload });
    r.push(PeerCommand::Interested);
    r
}

/// Seconds until the next regular announce: soon while no peer is connected, else half an hour.
pub fn reannounce_secs(active_peers: usize) -> (r: u64)
    ensures
        r == (if active_peers == 0 {
            30u64
        } else {
            1800u64
        }),
{
    if active_peers == 0 {
        30
    } else {
        1800
    }
}

/// A request for metadata piece `piece`: `msg_type` 0 and the piece's number.
pub open spec fn request_val(piece: int) -> BVal {
    BVal::Dict(
        dict_insert(
            dict_insert(Seq::empty(), encode_utf8("msg_type"@), BVal::Int(0)),
            encode_utf8("piece"@),
            BVal::Int(piece),
        ),
    )
}

/// The bencoded request for metadata piece `piece`.
pub fn metadata_request_payload(piece: i64) -> (r: Vec<u8>)
    ensures
        r@ == se_value(request_val(piece as int)),
{
    let mut d = BDict::new();
    d.insert(key_bytes("msg_type"), BValue::from_int(0));
    d.insert(key_bytes("piece"), BValue::from_int(piece));
    encode(&BValue::from_dict(d))
}

/// The number of metadata pieces of `size` bytes of metadata.
pub open spec fn meta_pieces(size: int) -> int {
    (size + 16383) / 16384
}

fn meta_piece_count(size: usize) -> (r: usize)
    ensures
        r == meta_pieces(size as int),
{
    size / 16384 + if size % 16384 > 0 {
        1
    } else {
        0
    }
}

/// Metadata being fetched from peers: its size once known, the buffer it is assembled in, and
/// the pieces received.
pub struct MetadataState {
    size: Option<usize>,
    buf: Vec<u8>,
    pieces: HashSet<usize>,
}

#[verifier::ext_equal]
pub struct MetaView {
    pub size: Option<usize>,
    pub buf: Seq<u8>,
    pub pieces: Set<usize>,
}

impl View for MetadataState {
    type V = MetaView;

    closed spec fn view(&self) -> MetaView {
        MetaView { size: self.size, buf: self.buf@, pieces: self.pieces@ }
    }
}

/// Finitely many pieces are received, and the buffer has the metadata's size once it is known.
pub open spec fn meta_wf(m: MetaView) -> bool {
    &&& m.pieces.finite()
    &&& match m.size {
        Some(n) => m.buf.len() == n,
        None => m.buf.len() == 0,
    }
}

/// What a peer's extended handshake says of `ut_metadata`: its extension id, and the
/// metadata size when given.
pub open spec fn ext_info(payload: Seq<u8>) -> Option<(int, Option<int>)> {
    match sd_value(payload, 0, 0).0 {
        Ok(BVal::Dict(d)) => match field(d, "m"@) {
            Some(BVal::Dict(m)) => match opt_int(field(m, "ut_metadata"@)) {
                Some(id) => Some((id, opt_int(field(d, "metadata_size"@)))),
                None => None,
            },
            _ => None,
        },
        _ => None,
    }
}

/// The state after a peer's extended handshake: a positive metadata size is taken when none
/// is known yet, with a zeroed buffer of that size.
pub open spec fn after_ext_handshake(m: MetaView, payload: Seq<u8>) -> MetaView {
    match ext_info(payload) {
        Some((_, Some(sz))) => if m.size is None && (sz as usize) > 0 {
            MetaView { size: Some(sz as usize), buf: Seq::new((sz as usize) as nat, |i: int| 0u8), pieces: m.pieces }
        } else {
            m
        },
        _ => m,
    }
}

/// A `ut_metadata` data message: the piece number, the total size when given, and where the
/// piece's bytes start (after the bencoded dictionary).
pub open spec fn meta_data_msg(payload: Seq<u8>) -> Option<(int, Option<int>, int)> {
    match sd_value(payload, 0, 0) {
        (Ok(BVal::Dict(d)), end) => if opt_int(field(d, "msg_type"@)) == Some(1int) {
            match opt_int(field(d, "piece"@)) {
                Some(p) => Some((p, opt_int(field(d, "total_size"@)), end)),
                None => None,
            }
        } else {
            None
        },
        _ => None,
    }
}

/// `buf` with `data` written at `offset`.
pub open spec fn written_at(buf: Seq<u8>, offset: int, data: Seq<u8>) -> Seq<u8> {
    buf.take(offset) + data + buf.skip(offset + data.len())
}

/// The state after a `ut_metadata` message. A data message for a piece not yet received is
/// stored when the size is known and the piece fits in it; when the size is unknown and the
/// message gives a total size, that size is taken and the bytes are written at the start.
pub open spec fn after_meta_msg(m: MetaView, payload: Seq<u8>) -> MetaView {
    match meta_data_msg(payload) {
        None => m,
        Some((p, total, end)) => {
            let idx = p as usize;
            let data = payload.skip(end);
            if m.pieces.contains(idx) {
                m
            } else {
                match m.size {
                    Some(sz) => if idx * 16384 + data.len() <= sz {
                        MetaView { size: m.size, buf: written_at(m.buf, idx * 16384, data), pieces: m.pieces.insert(idx) }
                    } else {
                        m
                    },
                    None => match total {
                        Some(t) => MetaView {
                            size: Some(t as usize),
                            buf: written_at(Seq::new((t as usize) as nat, |i: int| 0u8), 0, data),
                            pieces: m.pieces.insert(idx),
                        },
                        None => m,
                    },
                }
            }
        },
    }
}

/// Storing a metadata piece: once the size is known, a data message for piece `p` not yet
/// received whose bytes fit puts those bytes at `p * 16384` in the buffer, leaves every other
/// byte as it was, and counts `p` as received.
pub proof fn law_meta_piece_stored(m: MetaView, payload: Seq<u8>)
    requires
        meta_wf(m),
    ensures
        match (meta_data_msg(payload), m.size) {
            (Some((p, _, end)), Some(sz)) => (!m.pieces.contains(p as usize) && (p as usize) * 16384
                + (payload.len() - end) <= sz) ==> {
                let m2 = after_meta_msg(m, payload);
                let off = (p as usize) * 16384;
                let n = payload.len() - end;
                &&& m2.buf.len() == m.buf.len()
                &&& m2.buf.subrange(off, off + n) == payload.skip(end)
                &&& forall|i: int| 0 <= i < m.buf.len() && !(off <= i < off + n) ==> #[trigger] m2.buf[i] == m.buf[i]
                &&& m2.pieces == m.pieces.insert(p as usize)
                &&& m2.size == m.size
            },
            _ => true,
        },
{
    match (meta_data_msg(payload), m.size) {
        (Some((p, _, end)), Some(sz)) => {
            if !m.pieces.contains(p as usize) && (p as usize) * 16384 + (payload.len() - end) <= sz {
                let off = (p as usize) * 16384;
                let data = payload.skip(end);
                lemma_sd_value_bounds(payload, 0, 0);
                let m2 = after_meta_msg(m, payload);
                assert(m2.buf == written_at(m.buf, off, data));
                assert(m2.buf.subrange(off, off + data.len()) =~= data);
            }
        },
        _ => {},
    }
}

/// The message would overrun the metadata buffer: a first data message whose bytes
/// are more than the total size it announces.
pub open spec fn meta_msg_overruns(m: MetaView, payload: Seq<u8>) -> bool {
    match meta_data_msg(payload) {
        Some((p, Some(t), end)) => !m.pieces.contains(p as usize) && m.size is None
            && payload.len() - end > (t as usize),
        _ => false,
    }
}

/// Every piece has been received, so the metadata can be parsed.
pub open spec fn meta_complete(m: MetaView) -> bool {
    match m.size {
        Some(sz) => m.pieces.len() == meta_pieces(sz as int),
        None => false,
    }
}

/// The pieces below `n` not received yet, in increasing order.
pub open spec fn missing_meta(pieces: Set<usize>, n: int) -> Seq<int>
    decreases n,
{
    if n <= 0 {
        Seq::empty()
    } else if pieces.contains((n - 1) as usize) {
        missing_meta(pieces, n - 1)
    } else {
        missing_meta(pieces, n - 1).push(n - 1)
    }
}

proof fn lemma_missing_meta(pieces: Set<usize>, n: int)
    requires
        n <= usize::MAX,
    ensures
        forall|x: int| #[trigger] missing_meta(pieces, n).contains(x) <==> (0 <= x < n
            && !pieces.contains(x as usize)),
    decreases n,
{
    if n > 0 {
        lemma_missing_meta(pieces, n - 1);
        let prev = missing_meta(pieces, n - 1);
        if !pieces.contains((n - 1) as usize) {
            let cur = prev.push(n - 1);
            assert forall|x: int| #[trigger] missing_meta(pieces, n).contains(x) <==> (0 <= x < n
                && !pieces.contains(x as usize)) by {
                if x == n - 1 {
                    assert(cur[prev.len() as int] == x);
                }
                if cur.contains(x) && x != n - 1 {
                    let k = choose|k: int| 0 <= k < cur.len() && #[trigger] cur[k] == x;
                    assert(prev[k] == x);
                }
                if prev.contains(x) {
                    let k = choose|k: int| 0 <= k < prev.len() && #[trigger] prev[k] == x;
                    assert(cur[k] == x);
                }
            }
        }
    }
}

/// The pieces to ask a peer for: the missing ones when the size is known, else piece 0 (whose
/// answer tells the size).
pub open spec fn meta_requests(m: MetaView) -> Seq<int> {
    match m.size {
        Some(sz) => missing_meta(m.pieces, meta_pieces(sz as int)),
        None => seq![0int],
    }
}

/// Writes `data` into `buf` at `offset`.
fn write_at(buf: &mut Vec<u8>, offset: usize, data: &[u8])
    requires
        offset + data@.len() <= old(buf)@.len(),
    ensures
        final(buf)@ == written_at(old(buf)@, offset as int, data@),
{
    let blen = buf.len();
    let mut i: usize = 0;
    while i < data.len()
        invariant
            0 <= i <= data@.len(),
            blen == buf@.len(),
            offset + data@.len() <= buf@.len(),
            buf@.len() == old(buf)@.len(),
            forall|k: int| 0 <= k < buf@.len() ==> #[trigger] buf@[k] == (if offset <= k < offset + i {
                data@[k - offset]
            } else {
                old(buf)@[k]
            }),
        decreases data@.len() - i,
    {
        buf.set(offset + i, data[i]);
        i = i + 1;
    }
    assert(buf@ =~= written_at(old(buf)@, offset as int, data@));
}

impl MetadataState {
    /// Nothing known yet.
    pub fn new() -> (r: Self)
        ensures
            r@.size is None,
            r@.buf.len() == 0,
            r@.pieces == Set::<usize>::empty(),
            meta_wf(r@),
    {
        MetadataState { size: None, buf: Vec::new(), pieces: HashSet::new() }
    }

    /// The metadata size, once known.
    pub fn size(&self) -> (r: Option<usize>)
        ensures
            r == self@.size,
    {
        self.size
    }

    /// The metadata assembled so far.
    pub fn buffer(&self) -> (r: &[u8])
        ensures
            r@ == self@.buf,
    {
        self.buf.as_slice()
    }

    /// Takes a peer's extended handshake; gives the peer's `ut_metadata` extension id when it
    /// has one.
    pub fn on_extended_handshake(&mut self, payload: &[u8]) -> (r: Option<u8>)
        requires
            meta_wf(old(self)@),
        ensures
            meta_wf(final(self)@),
            final(self)@ == after_ext_handshake(old(self)@, payload@),
            r == (match ext_info(payload@) {
                Some((id, _)) => Some(id as u8),
                None => None::<u8>,
            }),
    {
        let v = match crate::bencode::decode(payload) {
            Ok(v) => v,
            Err(_) => return None,
        };
        let d = match v.as_dict() {
            Some(d) => d,
            None => return None,
        };
        let m = match d.get("m".as_bytes()) {
            Some(mv) => match mv.as_dict() {
                Some(m) => m,
                None => return None,
            },
            None => return None,
        };
        let id = match m.get("ut_metadata".as_bytes()) {
            Some(x) => match x.as_int() {
                Some(id) => id,
                None => return None,
            },
            None => return None,
        };
        match d.get("metadata_size".as_bytes()) {
            Some(x) => match x.as_int() {
                Some(size) => {
                    let size = #[verifier::truncate] (size as usize);
                    if self.size.is_none() && size > 0 {
                        self.size = Some(size);
                        self.buf = vec![0u8; size];
                        assert(self.buf@ =~= Seq::new(size as nat, |i: int| 0u8));
                    }
                },
                None => {},
            },
            None => {},
        }
        Some(#[verifier::truncate] (id as u8))
    }

    /// The payloads of the `ut_metadata` requests to send a peer.
    pub fn requests(&self) -> (r: Vec<Vec<u8>>)
        ensures
            r@.len() == meta_requests(self@).len(),
            forall|k: int| 0 <= k < r@.len() ==> (#[trigger] r@[k])@ == se_value(request_val(meta_requests(self@)[k])),
    {
        let mut out: Vec<Vec<u8>> = Vec::new();
        match self.size {
            Some(size) => {
                let n = meta_piece_count(size);
                let mut p: usize = 0;
                while p < n
                    invariant
                        0 <= p <= n,
                        n == meta_pieces(size as int),
                        n <= usize::MAX / 16384 + 1,
                        out@.len() == missing_meta(self.pieces@, p as int).len(),
                        forall|k: int| 0 <= k < out@.len() ==> (#[trigger] out@[k])@ == se_value(request_val(missing_meta(self.pieces@, p as int)[k])),
                    decreases n - p,
                {
                    if !self.pieces.contains(&p) {
                        out.push(metadata_request_payload(p as i64));
                    }
                    p = p + 1;
                }
            },
            None => {
                out.push(metadata_request_payload(0));
            },
        }
        out
    }

    /// Forgets the pieces received, so that they are fetched again.
    pub fn clear_pieces(&mut self)
        requires
            meta_wf(old(self)@),
        ensures
            meta_wf(final(self)@),
            final(self)@ == (MetaView { pieces: Set::empty(), ..old(self)@ }),
    {
        self.pieces = HashSet::new();
    }

    /// Whether a message would overrun the buffer (see `meta_msg_overruns`).
    pub fn message_overruns(&self, payload: &[u8]) -> (r: bool)
        ensures
            r == meta_msg_overruns(self@, payload@),
    {
        let mut decoder = Decoder::new(payload);
        let v = match decoder.decode() {
            Ok(v) => v,
            Err(_) => return false,
        };
        let end = decoder.position();
        proof {
            lemma_sd_value_bounds(payload@, 0, 0);
        }
        let d = match v.as_dict() {
            Some(d) => d,
            None => return false,
        };
        let msg_type = match d.get("msg_type".as_bytes()) {
            Some(x) => x.as_int(),
            None => None,
        };
        match msg_type {
            Some(1i64) => {},
            _ => return false,
        }
        let piece = match d.get("piece".as_bytes()) {
            Some(x) => match x.as_int() {
                Some(p) => p,
                None => return false,
            },
            None => return false,
        };
        let total = match d.get("total_size".as_bytes()) {
            Some(x) => match x.as_int() {
                Some(t) => t,
                None => return false,
            },
            None => return false,
        };
        let idx = #[verifier::truncate] (piece as usize);
        !self.pieces.contains(&idx) && self.size.is_none() && payload.len() - end > #[verifier::truncate] (total as usize)
    }

    /// Takes a `ut_metadata` message; says whether every piece is now in, so that the
    /// metadata can be parsed.
    pub fn handle_metadata_message(&mut self, payload: &[u8]) -> (r: bool)
        requires
            meta_wf(old(self)@),
            !meta_msg_overruns(old(self)@, payload@),
        ensures
            meta_wf(final(self)@),
            final(self)@ == after_meta_msg(old(self)@, payload@),
            r == (match meta_data_msg(payload@) {
                Some((p, _, _)) => !old(self)@.pieces.contains(#[verifier::truncate] (p as usize)) && meta_complete(final(self)@),
                None => false,
            }),
            match (meta_data_msg(payload@), old(self)@.size) {
                (Some((p, _, end)), Some(sz)) => (!old(self)@.pieces.contains(#[verifier::truncate] (p as usize))
                    && (#[verifier::truncate] (p as usize)) * 16384 + (payload@.len() - end) <= sz) ==> {
                    let off = (#[verifier::truncate] (p as usize)) * 16384;
                    let n = payload@.len() - end;
                    &&& final(self)@.buf.len() == old(self)@.buf.len()
                    &&& final(self)@.buf.subrange(off, off + n) == payload@.skip(end)
                    &&& forall|i: int| 0 <= i < old(self)@.buf.len() && !(off <= i < off + n) ==> #[trigger] final(self)@.buf[i] == old(self)@.buf[i]
                    &&& final(self)@.pieces == old(self)@.pieces.insert(#[verifier::truncate] (p as usize))
                },
                _ => true,
            },
    {
        proof {
            law_meta_piece_stored(old(self)@, payload@);
        }
        let mut decoder = Decoder::new(payload);
        let v = match decoder.decode() {
            Ok(v) => v,
            Err(_) => return false,
        };
        let end = decoder.position();
        proof {
            lemma_sd_value_bounds(payload@, 0, 0);
        }
        let d = match v.as_dict() {
            Some(d) => d,
            None => return false,
        };
        let msg_type = match d.get("msg_type".as_bytes()) {
            Some(x) => x.as_int(),
            None => None,
        };
        let piece = match d.get("piece".as_bytes()) {
            Some(x) => x.as_int(),
            None => None,
        };
        let total_size = match d.get("total_size".as_bytes()) {
            Some(x) => x.as_int(),
            None => None,
        };
        match msg_type {
            Some(1i64) => {},
            _ => return false,
        }
        let p = match piece {
            Some(p) => p,
            None => return false,
        };
        let p_idx = #[verifier::truncate] (p as usize);
        if self.pieces.contains(&p_idx) {
            return false;
        }
        let data = &payload[end..payload.len()];
        assert(data@ =~= payload@.skip(end as int));
        let ghost before = self@;
        match self.size {
            Some(size) => {
                let fits = match p_idx.checked_mul(16384) {
                    Some(offset) => match offset.checked_add(data.len()) {
                        Some(e) => e <= size,
                        None => false,
                    },
                    None => false,
                };
                if fits {
                    let offset = p_idx * 16384;
                    write_at(&mut self.buf, offset, data);
                    self.pieces.insert(p_idx);
                    assert(self@ =~= after_meta_msg(before, payload@));
                }
            },
            None => match total_size {
                Some(t) => {
                    let tsize = #[verifier::truncate] (t as usize);
                    self.size = Some(tsize);
                    self.buf = vec![0u8; tsize];
                    write_at(&mut self.buf, 0, data);
                    self.pieces.insert(p_idx);
                    assert(self@ =~= after_meta_msg(before, payload@));
                },
                None => {},
            },
        }
        match self.size {
            Some(size) => self.pieces.len() == meta_piece_count(size),
            None => false,
        }
    }
}

// ─── Pieces being downloaded ─────────────────────────────────────────────────
/// Block requests kept in flight for one piece and peer.
pub const MAX_PIECE_REQUESTS: usize = 16;

/// A piece manager whose pieces can be fetched block by block: one state per piece, and a
/// piece length that leaves room for one more block below `u32::MAX`.
pub open spec fn pm_ready(pm: PieceManager) -> bool {
    &&& pm.states@.len() == pm.num_pieces
    &&& pm.spec_piece_len() + BLOCK_SIZE <= u32::MAX
}

/// The block requests for a piece being downloaded: its missing blocks in order, at most
/// `MAX_PIECE_REQUESTS` of them, each as (offset, length).
pub open spec fn block_requests(a: ActivePiece, pm: PieceManager) -> Seq<(u32, u32)> {
    let full = missing_upto(a.block_mask@, a.total_blocks as int);
    let n = if full.len() < MAX_PIECE_REQUESTS { full.len() as int } else { MAX_PIECE_REQUESTS as int };
    Seq::new(
        n as nat,
        |j: int| ((full[j] * BLOCK_SIZE) as u32, spec_block_length(pm.piece_len_of(a.index), full[j])),
    )
}

/// A piece being downloaded that the peer has and that still misses blocks.
pub open spec fn available(a: ActivePiece, bf: Seq<u8>) -> bool {
    (a.index / 8) < bf.len() && bit_of(bf, a.index as int) && a.blocks_received < a.total_blocks
}

/// Some piece being downloaded is available from the peer.
pub open spec fn some_available(ps: Map<u32, ActivePiece>, bf: Seq<u8>) -> bool {
    exists|i: u32| #[trigger] ps.contains_key(i) && available(ps[i], bf)
}

/// A pick for a peer would start downloading the last piece: no piece being downloaded is
/// available from the peer, and the last piece is the first missing one the peer has.
pub open spec fn starts_last_piece(ps: Map<u32, ActivePiece>, pm: PieceManager, bf: Seq<u8>) -> bool {
    &&& !some_available(ps, bf)
    &&& pm.num_pieces > 0
    &&& pickable(pm.states@, bf, pm.num_pieces - 1)
    &&& forall|j: int| 0 <= j < pm.num_pieces - 1 ==> !pickable(pm.states@, bf, j)
}


/// A piece's length is at most the piece length.
proof fn lemma_piece_len_bound(pm: PieceManager, index: u32)
    requires
        pm_ready(pm),
        pm.piece_length_defined(index),
    ensures
        pm.piece_len_of(index) <= pm.spec_piece_len(),
{
}

/// Every block of a piece being downloaded has a defined length.
proof fn lemma_blocks_defined(a: ActivePiece, pm: PieceManager)
    requires
        pm_ready(pm),
        a.index < pm.num_pieces,
        pm.piece_length_defined(a.index),
        a.total_blocks == (pm.piece_len_of(a.index) + BLOCK_SIZE - 1) / (BLOCK_SIZE as int),
    ensures
        forall|i: int| 0 <= i < a.total_blocks && !#[trigger] a.block_mask@[i] ==> pm.block_length_defined(a.index, i as u32),
{
    lemma_piece_len_bound(pm, a.index);
    let len = pm.piece_len_of(a.index) as int;
    let pl = pm.spec_piece_len() as int;
    assert forall|i: int| 0 <= i < a.total_blocks && !#[trigger] a.block_mask@[i] implies pm.block_length_defined(a.index, i as u32) by {
        assert(i * 16384 < len) by (nonlinear_arith)
            requires
                0 <= i < (len + 16384 - 1) / 16384,
                0 <= len,
        ;
        assert(((i as u32) as int) == i);
        assert((i as u32) * BLOCK_SIZE == i * 16384);
    }
}

/// The block requests for a piece being downloaded.
fn requests_for(a: &ActivePiece, pm: &PieceManager) -> (r: Vec<(u32, u32)>)
    requires
        pm_ready(*pm),
        a.wf(),
        a.index < pm.num_pieces,
        pm.piece_length_defined(a.index),
        a.total_blocks == (pm.piece_len_of(a.index) + BLOCK_SIZE - 1) / (BLOCK_SIZE as int),
    ensures
        r@ == block_requests(*a, *pm),
{
    proof {
        lemma_blocks_defined(*a, *pm);
    }
    a.get_missing_blocks(pm, MAX_PIECE_REQUESTS)
}

/// What became of a received block.
#[derive(Debug, Clone, Copy, PartialEq, Eq, Structural)]
pub enum BlockResult {
    /// No such piece is being downloaded.
    NotActive,
    /// The block was had already, or does not fit in the piece.
    Rejected,
    Stored,
    /// Stored, and now every block of the piece is in.
    Completed,
}

/// The pieces being downloaded, by index, each known to the piece manager as downloading.
pub struct PieceDownloads {
    active: HashMap<u32, ActivePiece>,
}

impl PieceDownloads {
    /// The pieces being downloaded, by index.
    pub closed spec fn pieces(&self) -> Map<u32, ActivePiece> {
        self.active@
    }

    /// Each piece being downloaded is stored under its index, is a piece of `pm` marked
    /// downloading there, and has the blocks of its length.
    pub open spec fn fits(&self, pm: PieceManager) -> bool {
        forall|i: u32| #[trigger] self.pieces().contains_key(i) ==> {
            let a = self.pieces()[i];
            &&& a.index == i
            &&& a.wf()
            &&& i < pm.num_pieces
            &&& pm.piece_length_defined(i)
            &&& pm.states@[i as int] == PieceState::Downloading
            &&& a.total_blocks == (pm.piece_len_of(i) + BLOCK_SIZE - 1) / (BLOCK_SIZE as int)
        }
    }

    pub fn new() -> (d: Self)
        ensures
            d.pieces() == Map::<u32, ActivePiece>::empty(),
    {
        PieceDownloads { active: HashMap::new() }
    }

    /// A piece being downloaded that the peer has and that still misses blocks, if any; which
    /// one, when several are, is up to the map's walk order.
    fn find_available(&self, pm: &PieceManager, peer_bf: &[u8]) -> (r: Option<u32>)
        requires
            self.fits(*pm),
        ensures
            match r {
                Some(i) => self.pieces().contains_key(i) && available(self.pieces()[i], peer_bf@),
                None => !some_available(self.pieces(), peer_bf@),
            },
    {
        let mut found: Option<u32> = None;
        let ghost m = self.active@;
        let ghost v = spec_hash_map_iter(&self.active).remaining();
        for item in it: self.active.iter()
            invariant
                m == self.active@,
                v == spec_hash_map_iter(&self.active).remaining(),
                it.seq() == v,
                self.fits(*pm),
                found matches Some(i) ==> m.contains_key(i) && available(m[i], peer_bf@),
                found is None ==> forall|j: int| 0 <= j < it.index() ==> !available(*v[j].1, peer_bf@),
            ensures
                found matches Some(i) ==> m.contains_key(i) && available(m[i], peer_bf@),
                found is None ==> forall|j: int| 0 <= j < v.len() ==> !available(*v[j].1, peer_bf@),
        {
            let (k, a) = item;
            proof {
                assert(m.contains_key(*k) && m[*k] == *a);
                assert(self.pieces().contains_key(*k));
            }
            if found.is_none() && crate::torrent_task::peer_has(peer_bf, *k) && a.blocks_received < a.total_blocks {
                found = Some(*k);
            }
        }
        proof {
            if found is None {
                assert forall|i: u32| #[trigger] m.contains_key(i) implies !available(m[i], peer_bf@) by {
                    assert(v.contains((&i, &m[i])));
                    let j = choose|j: int| 0 <= j < v.len() && v[j] == (&i, &m[i]);
                    assert(!available(*v[j].1, peer_bf@));
                }
            }
        }
        found
    }

    /// A pick for this peer would start downloading the last piece (whose length is the
    /// remainder of the total by the piece length).
    pub fn would_start_last_piece(&self, pm: &PieceManager, peer_bf: &[u8]) -> (r: bool)
        requires
            pm.states@.len() == pm.num_pieces,
            self.fits(*pm),
        ensures
            r == starts_last_piece(self.pieces(), *pm, peer_bf@),
    {
        if self.find_available(pm, peer_bf).is_some() {
            return false;
        }
        match pm.pick_next_piece(peer_bf) {
            Some(i) => {
                proof {
                    if starts_last_piece(self.pieces(), *pm, peer_bf@) && i != pm.num_pieces - 1 {
                        assert(!pickable(pm.states@, peer_bf@, i as int));
                    }
                }
                pm.num_pieces > 0 && i == pm.num_pieces - 1
            },
            None => false,
        }
    }

    /// Picks the piece to ask an unchoking peer for, and the blocks to ask: a piece being
    /// downloaded that the peer has and that misses blocks, else the first missing piece the
    /// peer has (which starts being downloaded).
    pub fn pick_and_request(&mut self, pm: &mut PieceManager, peer_bf: &[u8]) -> (r: Option<(u32, Vec<(u32, u32)>)>)
        requires
            pm_ready(*old(pm)),
            old(self).fits(*old(pm)),
            starts_last_piece(old(self).pieces(), *old(pm), peer_bf@) ==> old(pm).spec_piece_len() > 0,
        ensures
            pm_ready(*final(pm)),
            final(self).fits(*final(pm)),
            final(pm).num_pieces == old(pm).num_pieces,
            final(pm).spec_piece_len() == old(pm).spec_piece_len(),
            final(pm).spec_total() == old(pm).spec_total(),
            final(pm).bitfield@ == old(pm).bitfield@,
            some_available(old(self).pieces(), peer_bf@) ==> final(self).pieces() == old(self).pieces()
                && final(pm).states@ == old(pm).states@ && (r matches Some((i, reqs))
                && old(self).pieces().contains_key(i) && available(old(self).pieces()[i], peer_bf@)
                && reqs@ == block_requests(old(self).pieces()[i], *final(pm))),
            !some_available(old(self).pieces(), peer_bf@) ==> match r {
                Some((i, reqs)) => i < old(pm).num_pieces && pickable(old(pm).states@, peer_bf@, i as int)
                    && (forall|j: int| 0 <= j < i ==> !pickable(old(pm).states@, peer_bf@, j))
                    && final(pm).states@ == old(pm).states@.update(i as int, PieceState::Downloading)
                    && !old(self).pieces().contains_key(i)
                    && final(self).pieces() == old(self).pieces().insert(i, final(self).pieces()[i])
                    && final(self).pieces()[i].index == i
                    && final(self).pieces()[i].blocks_received == 0
                    && reqs@ == block_requests(final(self).pieces()[i], *final(pm)),
                None => (forall|j: int| 0 <= j < old(pm).num_pieces ==> !pickable(old(pm).states@, peer_bf@, j))
                    && final(self).pieces() == old(self).pieces() && final(pm).states@ == old(pm).states@,
            },
    {
        match self.find_available(pm, peer_bf) {
            Some(i) => {
                match self.active.get(&i) {
                    Some(a) => {
                        let reqs = requests_for(a, pm);
                        return Some((i, reqs));
                    },
                    None => {
                        return None;
                    },
                }
            },
            None => {},
        }
        let idx = match pm.pick_next_piece(peer_bf) {
            Some(i) => i,
            None => return None,
        };
        let piece_len = pm.get_piece_length(idx);
        let a = ActivePiece::new(idx, piece_len);
        let ghost before = pm.states@;
        pm.states.set(idx as usize, PieceState::Downloading);
        let reqs = requests_for(&a, pm);
        let ghost fresh = a;
        proof {
            assert(!self.active@.contains_key(idx)) by {
                if self.active@.contains_key(idx) {
                    assert(before[idx as int] == PieceState::Downloading);
                }
            }
        }
        self.active.insert(idx, a);
        proof {
            assert forall|i: u32| #[trigger] self.pieces().contains_key(i) implies pm.states@[i as int]
                == PieceState::Downloading by {
                if i != idx {
                    assert(old(self).pieces().contains_key(i));
                }
            }
            assert(self.pieces()[idx] == fresh);
        }
        Some((idx, reqs))
    }

    /// The bytes gathered so far for piece `index`, when it is being downloaded.
    pub fn piece_data(&self, index: u32) -> (r: Option<&[u8]>)
        ensures
            match r {
                Some(d) => self.pieces().contains_key(index) && d@ == self.pieces()[index].data@,
                None => !self.pieces().contains_key(index),
            },
    {
        match self.active.get(&index) {
            Some(a) => Some(a.data.as_slice()),
            None => None,
        }
    }

    /// Stores a block received for piece `index`.
    pub fn on_block(&mut self, pm: &PieceManager, index: u32, begin: u32, block: &[u8]) -> (r: BlockResult)
        requires
            old(self).fits(*pm),
            begin + block@.len() <= usize::MAX,
        ensures
            final(self).fits(*pm),
            final(self).pieces().dom() == old(self).pieces().dom(),
            !old(self).pieces().contains_key(index) ==> (r is NotActive && final(self).pieces() == old(self).pieces()),
            old(self).pieces().contains_key(index) ==> {
                let a = old(self).pieces()[index];
                let b = final(self).pieces()[index];
                let stored = (begin / BLOCK_SIZE) < a.block_mask@.len() && !a.block_mask@[(begin / BLOCK_SIZE) as int]
                    && begin + block@.len() <= a.data@.len();
                &&& final(self).pieces() == old(self).pieces().insert(index, b)
                &&& b.index == a.index && b.total_blocks == a.total_blocks
                &&& if stored {
                    &&& b.block_mask@ == a.block_mask@.update((begin / BLOCK_SIZE) as int, true)
                    &&& b.blocks_received == a.blocks_received + 1
                    &&& b.data@ == a.data@.subrange(0, begin as int) + block@ + a.data@.subrange(begin + block@.len(), a.data@.len() as int)
                    &&& r == (if b.blocks_received == b.total_blocks { BlockResult::Completed } else { BlockResult::Stored })
                } else {
                    &&& b.block_mask@ == a.block_mask@ && b.blocks_received == a.blocks_received && b.data@ == a.data@
                    &&& r == BlockResult::Rejected
                }
            },
    {
        let mut a = match self.active.remove(&index) {
            Some(a) => {
                assert(old(self).pieces().contains_key(index));
                a
            },
            None => {
                assert(self.active@ =~= old(self).active@);
                assert(self.pieces() == old(self).pieces());
                return BlockResult::NotActive;
            },
        };
        let stored = a.add_block(begin, block);
        let complete = a.is_complete();
        let ghost b = a;
        self.active.insert(index, a);
        proof {
            assert(self.active@ =~= old(self).active@.insert(index, b));
            assert(self.active@.dom() =~= old(self).active@.dom());
        }
        if !stored {
            BlockResult::Rejected
        } else if complete {
            BlockResult::Completed
        } else {
            BlockResult::Stored
        }
    }

    /// A piece whose hash matched and which was written: it is verified and in our bitfield,
    /// and no longer being downloaded.
    pub fn commit_piece(&mut self, pm: &mut PieceManager, index: u32)
        requires
            old(self).fits(*old(pm)),
            pm_ready(*old(pm)),
        ensures
            final(self).fits(*final(pm)),
            pm_ready(*final(pm)),
            final(pm).num_pieces == old(pm).num_pieces,
            final(pm).spec_piece_len() == old(pm).spec_piece_len(),
            final(pm).spec_total() == old(pm).spec_total(),
            final(self).pieces() == old(self).pieces().remove(index),
            old(self).pieces().contains_key(index) ==> (
                final(pm).states@ == old(pm).states@.update(index as int, PieceState::Verified)
                && (forall|p: int| #[trigger] bit_of(final(pm).bitfield@, p) == (bit_of(old(pm).bitfield@, p)
                || (p == index && (index / 8) < old(pm).bitfield@.len())))),
            !old(self).pieces().contains_key(index) ==> (
                final(pm).states@ == old(pm).states@ && final(pm).bitfield@ == old(pm).bitfield@),
    {
        match self.active.remove(&index) {
            Some(_) => {
                assert(old(self).pieces().contains_key(index));
            },
            None => {
                assert(self.active@ =~= old(self).active@);
                assert(self.pieces() == old(self).pieces());
                assert(self.active@ =~= old(self).active@.remove(index));
                return;
            },
        }
        pm.states.set(index as usize, PieceState::Verified);
        pm.set_bit(index);
        proof {
            assert forall|i: u32| #[trigger] self.pieces().contains_key(i) implies pm.states@[i as int]
                == PieceState::Downloading by {
                assert(old(self).pieces().contains_key(i));
            }
        }
    }

    /// A piece whose hash did not match: it is missing again and no longer being downloaded.
    pub fn discard_piece(&mut self, pm: &mut PieceManager, index: u32)
        requires
            old(self).fits(*old(pm)),
            pm_ready(*old(pm)),
        ensures
            final(self).fits(*final(pm)),
            pm_ready(*final(pm)),
            final(pm).num_pieces == old(pm).num_pieces,
            final(pm).spec_piece_len() == old(pm).spec_piece_len(),
            final(pm).spec_total() == old(pm).spec_total(),
            final(pm).bitfield@ == old(pm).bitfield@,
            final(self).pieces() == old(self).pieces().remove(index),
            old(self).pieces().contains_key(index) ==> final(pm).states@ == old(pm).states@.update(
                index as int,
                PieceState::Missing,
            ),
            !old(self).pieces().contains_key(index) ==> final(pm).states@ == old(pm).states@,
    {
        match self.active.remove(&index) {
            Some(_) => {
                assert(old(self).pieces().contains_key(index));
            },
            None => {
                assert(self.active@ =~= old(self).active@);
                assert(self.pieces() == old(self).pieces());
                assert(self.active@ =~= old(self).active@.remove(index));
                return;
            },
        }
        pm.states.set(index as usize, PieceState::Missing);
        proof {
            assert forall|i: u32| #[trigger] self.pieces().contains_key(i) implies pm.states@[i as int]
                == PieceState::Downloading by {
                assert(old(self).pieces().contains_key(i));
            }
        }
    }
}

/// Once the size is known, the metadata pieces asked for are exactly those below the piece
/// count that have not come in yet.
pub proof fn law_meta_requests_missing(m: MetaView)
    requires
        m.size is Some,
    ensures
        forall|x: int| #[trigger] meta_requests(m).contains(x) <==> (0 <= x < meta_pieces(
            m.size->Some_0 as int,
        ) && !m.pieces.contains(x as usize)),
{
    let sz = m.size->Some_0 as int;
    assert(meta_pieces(sz) <= usize::MAX);
    lemma_missing_meta(m.pieces, meta_pieces(sz));
}

} // verus!
