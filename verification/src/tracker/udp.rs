//! UDP trackers (BEP 15): a connect exchange for a connection id, then the announce.
use vstd::prelude::*;
use crate::decimal::{nat_string, nat_text};
use crate::endian::{be32, be32_bytes, be64, be64_bytes, be16_bytes, lemma_be16_roundtrip, lemma_be32_roundtrip, lemma_be64_roundtrip, be16, push_be16, push_be32, push_be64, read_be32, read_be64};
use crate::error::CoreError;
use crate::random::random_u32;
use crate::text::{ascii_chars_of, chars_of, string_of_chars};
use crate::tracker::http::{answered_as, compact_peer_list, compact_peers, AnnounceFault};
use crate::tracker::{AnnounceEvent, AnnounceRequest, AnnounceResponse, ResponseView};

verus! {

broadcast use vstd::seq_lib::group_seq_properties;

/// The protocol id that opens every connect request.
pub const CONNECT_MAGIC: u64 = 0x41727101980;

pub const ACTION_CONNECT: u32 = 0;

pub const ACTION_ANNOUNCE: u32 = 1;

/// A UDP tracker, known by its `udp://host:port` URL.
pub struct UdpTracker {
    url: String,
}

impl View for UdpTracker {
    type V = Seq<char>;

    /// The tracker's URL.
    closed spec fn view(&self) -> Seq<char> {
        self.url@
    }
}

/// `s` with every leading copy of `p` removed.
pub open spec fn strip_all_prefix(s: Seq<char>, p: Seq<char>) -> Seq<char>
    decreases s.len(),
{
    if p.len() > 0 && s.len() >= p.len() && s.take(p.len() as int) == p {
        strip_all_prefix(s.skip(p.len() as int), p)
    } else {
        s
    }
}

impl UdpTracker {
    pub fn from_url(url: &str) -> (r: Result<Self, CoreError>)
        ensures
            r matches Ok(t) && t@ == url@,
    {
        Ok(UdpTracker { url: String::from_str(url) })
    }

    /// The tracker's URL.
    pub fn url(&self) -> (r: &str)
        ensures
            r@ == self@,
    {
        self.url.as_str()
    }

    /// The `host:port` to send to: the URL without its leading `udp://`.
    pub fn host(&self) -> (r: String)
        ensures
            r@ == strip_all_prefix(self@, "udp://"@),
    {
        let cs = chars_of(self.url.as_str());
        let p = ['u', 'd', 'p', ':', '/', '/'];
        proof {
            reveal_strlit("udp://");
            assert(p@ =~= "udp://"@);
            assert(p@ =~= seq!['u', 'd', 'p', ':', '/', '/']);
        }
        let mut i: usize = 0;
        assert(cs@.skip(0) =~= cs@);
        while cs.len() - i >= 6 && cs[i] == 'u' && cs[i + 1] == 'd' && cs[i + 2] == 'p' && cs[i + 3]
            == ':' && cs[i + 4] == '/' && cs[i + 5] == '/'
            invariant
                0 <= i <= cs@.len(),
                strip_all_prefix(cs@, p@) == strip_all_prefix(cs@.skip(i as int), p@),
                p@ == seq!['u', 'd', 'p', ':', '/', '/'],
            decreases cs@.len() - i,
        {
            assert(cs@.skip(i as int).take(6) =~= p@);
            assert(cs@.skip(i as int).skip(6) =~= cs@.skip(i + 6));
            i = i + 6;
        }
        proof {
            let t = cs@.skip(i as int);
            if t.len() >= 6 && t.take(6) == p@ {
                assert(t[0] == p@[0] && t[1] == p@[1] && t[2] == p@[2]);
                assert(t[3] == p@[3] && t[4] == p@[4] && t[5] == p@[5]);
            }
        }
        let rest = &cs.as_slice()[i..cs.len()];
        assert(rest@ =~= cs@.skip(i as int));
        string_of_chars(rest)
    }
}

// ─── Connect ─────────────────────────────────────────────────────────────────
/// A connect request: the protocol id, the connect action, the transaction id.
pub open spec fn connect_bytes(transaction_id: u32) -> Seq<u8> {
    be64_bytes(CONNECT_MAGIC) + be32_bytes(ACTION_CONNECT) + be32_bytes(transaction_id)
}

/// The connect request for `transaction_id`.
pub fn connect_request(transaction_id: u32) -> (r: Vec<u8>)
    ensures
        r@ == connect_bytes(transaction_id),
{
    let mut buf: Vec<u8> = Vec::new();
    push_be64(&mut buf, CONNECT_MAGIC);
    push_be32(&mut buf, ACTION_CONNECT);
    push_be32(&mut buf, transaction_id);
    assert(buf@ =~= connect_bytes(transaction_id));
    buf
}

/// A connect request with a fresh random transaction id, and that id.
pub fn connect_packet() -> (r: (u32, Vec<u8>))
    ensures
        r.1@ == connect_bytes(r.0),
{
    let transaction_id = random_u32();
    (transaction_id, connect_request(transaction_id))
}

/// What a 16-byte connect answer says to a request with `transaction_id`: the connection id.
pub open spec fn spec_connect_response(resp: Seq<u8>, transaction_id: u32) -> Result<u64, Seq<char>> {
    let action = be32(resp.subrange(0, 4));
    let tid = be32(resp.subrange(4, 8));
    if action != ACTION_CONNECT {
        Err("expected action 0, got "@ + ascii_chars_of(nat_text(action)))
    } else if tid != transaction_id {
        Err(
            "connect: transaction ID mismatch (sent "@ + ascii_chars_of(nat_text(transaction_id as nat))
                + ", got "@ + ascii_chars_of(nat_text(tid)) + ")"@,
        )
    } else {
        Ok(be64(resp.subrange(8, 16)) as u64)
    }
}

/// Reads a connect answer to a request with `transaction_id`.
pub fn parse_connect_response(resp: &[u8; 16], transaction_id: u32) -> (r: Result<u64, CoreError>)
    ensures
        match spec_connect_response(resp@, transaction_id) {
            Ok(id) => r == Ok::<u64, CoreError>(id),
            Err(m) => r matches Err(CoreError::TrackerUdp(s)) && s@ == m,
        },
{
    let b = resp.as_slice();
    let action = read_be32(b, 0);
    let resp_tid = read_be32(b, 4);
    if action != ACTION_CONNECT {
        let mut m = String::from_str("expected action 0, got ");
        let t = nat_string(action as u64);
        m.append(t.as_str());
        return Err(CoreError::TrackerUdp(m));
    }
    if resp_tid != transaction_id {
        let mut m = String::from_str("connect: transaction ID mismatch (sent ");
        let t = nat_string(transaction_id as u64);
        m.append(t.as_str());
        m.append(", got ");
        let t = nat_string(resp_tid as u64);
        m.append(t.as_str());
        m.append(")");
        return Err(CoreError::TrackerUdp(m));
    }
    Ok(read_be64(b, 8))
}

/// A connect request carries its transaction id in its last four bytes, and a tracker's answer
/// that echoes that id under the connect action gives the connection id it carries.
pub proof fn law_connect_exchange(transaction_id: u32, connection_id: u64)
    ensures
        connect_bytes(transaction_id).len() == 16,
        be32(connect_bytes(transaction_id).subrange(12, 16)) == transaction_id,
        spec_connect_response(
            be32_bytes(ACTION_CONNECT) + be32_bytes(transaction_id) + be64_bytes(connection_id),
            transaction_id,
        ) == Ok::<u64, Seq<char>>(connection_id),
{
    lemma_be32_roundtrip(transaction_id);
    lemma_be32_roundtrip(ACTION_CONNECT);
    lemma_be64_roundtrip(CONNECT_MAGIC);
    lemma_be64_roundtrip(connection_id);
    let req = connect_bytes(transaction_id);
    assert(req.subrange(12, 16) =~= be32_bytes(transaction_id));
    let resp = be32_bytes(ACTION_CONNECT) + be32_bytes(transaction_id) + be64_bytes(connection_id);
    assert(resp.subrange(0, 4) =~= be32_bytes(ACTION_CONNECT));
    assert(resp.subrange(4, 8) =~= be32_bytes(transaction_id));
    assert(resp.subrange(8, 16) =~= be64_bytes(connection_id));
}

// ─── Announce ────────────────────────────────────────────────────────────────
/// The number an event is announced with.
pub open spec fn event_code(e: AnnounceEvent) -> u32 {
    match e {
        AnnounceEvent::Empty => 0,
        AnnounceEvent::Completed => 1,
        AnnounceEvent::Started => 2,
        AnnounceEvent::Stopped => 3,
    }
}

/// An announce request, 98 bytes: connection id, action, transaction id, info hash, peer id,
/// downloaded, left, uploaded, event, address (0: the sender's), key, peers wanted, port.
pub open spec fn announce_bytes(connection_id: u64, transaction_id: u32, key: u32, req: AnnounceRequest) -> Seq<u8> {
    be64_bytes(connection_id) + be32_bytes(ACTION_ANNOUNCE) + be32_bytes(transaction_id)
        + req.info_hash@ + req.peer_id@ + be64_bytes(req.downloaded) + be64_bytes(req.left)
        + be64_bytes(req.uploaded) + be32_bytes(event_code(req.event)) + be32_bytes(0) + be32_bytes(key)
        + be32_bytes(req.num_want as u32) + be16_bytes(req.port)
}

/// The layout of a UDP announce request (BEP 15): 98 bytes, with the connection id at 0, the
/// announce action (1) at 8, the transaction id at 12, the info hash at 16, the peer id at 36,
/// the downloaded, left and uploaded counts at 56, 64 and 72, the event at 80 (0 none,
/// 1 completed, 2 started, 3 stopped), address 0 at 84, the key at 88, the peers wanted at 92
/// and the port at 96, all big-endian.
pub proof fn law_udp_announce_layout(connection_id: u64, transaction_id: u32, key: u32, req: AnnounceRequest)
    ensures
        ({
            let b = announce_bytes(connection_id, transaction_id, key, req);
            &&& b.len() == 98
            &&& be64(b.subrange(0, 8)) == connection_id
            &&& be32(b.subrange(8, 12)) == 1
            &&& be32(b.subrange(12, 16)) == transaction_id
            &&& b.subrange(16, 36) == req.info_hash@
            &&& b.subrange(36, 56) == req.peer_id@
            &&& be64(b.subrange(56, 64)) == req.downloaded
            &&& be64(b.subrange(64, 72)) == req.left
            &&& be64(b.subrange(72, 80)) == req.uploaded
            &&& be32(b.subrange(80, 84)) == (match req.event {
                AnnounceEvent::Empty => 0nat,
                AnnounceEvent::Completed => 1nat,
                AnnounceEvent::Started => 2nat,
                AnnounceEvent::Stopped => 3nat,
            })
            &&& be32(b.subrange(84, 88)) == 0
            &&& be32(b.subrange(88, 92)) == key
            &&& be32(b.subrange(92, 96)) == (req.num_want as u32)
            &&& be16(b.subrange(96, 98)) == req.port
        }),
{
    let b = announce_bytes(connection_id, transaction_id, key, req);
    lemma_be64_roundtrip(connection_id);
    lemma_be32_roundtrip(ACTION_ANNOUNCE);
    lemma_be32_roundtrip(transaction_id);
    lemma_be64_roundtrip(req.downloaded);
    lemma_be64_roundtrip(req.left);
    lemma_be64_roundtrip(req.uploaded);
    lemma_be32_roundtrip(event_code(req.event));
    lemma_be32_roundtrip(0);
    lemma_be32_roundtrip(key);
    lemma_be32_roundtrip(req.num_want as u32);
    lemma_be16_roundtrip(req.port);
    assert(b.subrange(0, 8) =~= be64_bytes(connection_id));
    assert(b.subrange(8, 12) =~= be32_bytes(ACTION_ANNOUNCE));
    assert(b.subrange(12, 16) =~= be32_bytes(transaction_id));
    assert(b.subrange(16, 36) =~= req.info_hash@);
    assert(b.subrange(36, 56) =~= req.peer_id@);
    assert(b.subrange(56, 64) =~= be64_bytes(req.downloaded));
    assert(b.subrange(64, 72) =~= be64_bytes(req.left));
    assert(b.subrange(72, 80) =~= be64_bytes(req.uploaded));
    assert(b.subrange(80, 84) =~= be32_bytes(event_code(req.event)));
    assert(b.subrange(84, 88) =~= be32_bytes(0));
    assert(b.subrange(88, 92) =~= be32_bytes(key));
    assert(b.subrange(92, 96) =~= be32_bytes(req.num_want as u32));
    assert(b.subrange(96, 98) =~= be16_bytes(req.port));
}

fn push_all(out: &mut Vec<u8>, b: &[u8])
    ensures
        final(out)@ == old(out)@ + b@,
{
    let mut i: usize = 0;
    while i < b.len()
        invariant
            0 <= i <= b@.len(),
            out@ == old(out)@ + b@.take(i as int),
        decreases b@.len() - i,
    {
        out.push(b[i]);
        assert(b@.take(i + 1) =~= b@.take(i as int).push(b@[i as int]));
        i = i + 1;
    }
    assert(b@.take(i as int) =~= b@);
}

/// The announce request for `req` on `connection_id`.
pub fn announce_request(connection_id: u64, transaction_id: u32, key: u32, req: &AnnounceRequest) -> (r: Vec<u8>)
    ensures
        r@ == announce_bytes(connection_id, transaction_id, key, *req),
{
    let mut buf: Vec<u8> = Vec::new();
    push_be64(&mut buf, connection_id);
    push_be32(&mut buf, ACTION_ANNOUNCE);
    push_be32(&mut buf, transaction_id);
    push_all(&mut buf, &req.info_hash);
    push_all(&mut buf, &req.peer_id);
    push_be64(&mut buf, req.downloaded);
    push_be64(&mut buf, req.left);
    push_be64(&mut buf, req.uploaded);
    let event_code: u32 = match req.event {
        AnnounceEvent::Empty => 0,
        AnnounceEvent::Completed => 1,
        AnnounceEvent::Started => 2,
        AnnounceEvent::Stopped => 3,
    };
    push_be32(&mut buf, event_code);
    push_be32(&mut buf, 0);
    push_be32(&mut buf, key);
    push_be32(&mut buf, #[verifier::truncate] (req.num_want as u32));
    push_be16(&mut buf, req.port);
    assert(buf@ =~= announce_bytes(connection_id, transaction_id, key, *req));
    buf
}

/// An announce request with a fresh random transaction id and key, and that transaction id.
pub fn announce_packet(connection_id: u64, req: &AnnounceRequest) -> (r: (u32, Vec<u8>))
    ensures
        exists|key: u32| r.1@ == #[trigger] announce_bytes(connection_id, r.0, key, *req),
{
    let transaction_id = random_u32();
    let key = random_u32();
    let buf = announce_request(connection_id, transaction_id, key, req);
    let r = (transaction_id, buf);
    assert(r.1@ == announce_bytes(connection_id, r.0, key, *req));
    r
}

/// What a UDP announce answer says.
pub open spec fn spec_udp_response(resp: Seq<u8>) -> Result<ResponseView, AnnounceFault> {
    if resp.len() < 20 {
        Err(AnnounceFault::Udp("announce response too short"@))
    } else if be32(resp.subrange(0, 4)) != ACTION_ANNOUNCE {
        Err(
            AnnounceFault::Udp(
                "expected action 1, got "@ + ascii_chars_of(nat_text(be32(resp.subrange(0, 4)))),
            ),
        )
    } else {
        Ok(
            ResponseView {
                interval: be32(resp.subrange(8, 12)) as u32,
                leechers: be32(resp.subrange(12, 16)) as u32,
                seeders: be32(resp.subrange(16, 20)) as u32,
                peers: compact_peers(resp.skip(20)),
            },
        )
    }
}

/// Reads a UDP tracker's answer to an announce (the bytes received).
pub fn parse_announce_response(resp: &[u8]) -> (r: Result<AnnounceResponse, CoreError>)
    ensures
        answered_as(r, spec_udp_response(resp@)),
{
    if resp.len() < 20 {
        return Err(CoreError::TrackerUdp(String::from_str("announce response too short")));
    }
    let action = read_be32(resp, 0);
    if action != ACTION_ANNOUNCE {
        let mut m = String::from_str("expected action 1, got ");
        let t = nat_string(action as u64);
        m.append(t.as_str());
        return Err(CoreError::TrackerUdp(m));
    }
    let interval = read_be32(resp, 8);
    let leechers = read_be32(resp, 12);
    let seeders = read_be32(resp, 16);
    let rest = &resp[20..resp.len()];
    assert(rest@ =~= resp@.skip(20));
    let peers = compact_peer_list(rest);
    Ok(AnnounceResponse { interval, seeders, leechers, peers })
}

} // verus!
