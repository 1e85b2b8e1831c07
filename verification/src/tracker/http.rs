//! HTTP trackers (BEP 3): the announce URL, and the bencoded answer.
use vstd::prelude::*;
use vstd::utf8::*;
use crate::bencode::{decode, reports_fault, spec_decode, BVal, BValue, DecodeFault};
use crate::decimal::{int_string, int_text, nat_string, nat_text};
use crate::endian::{be16, copy_into, read_be16};
use crate::error::CoreError;
use crate::text::{ascii_chars_of, chars_of};
use crate::torrent::{field, opt_int, opt_text, text_of};
use crate::tracker::{event_name, peers_view, AnnounceEvent, AnnounceRequest, AnnounceResponse, HostView, PeerHost, PeerView, ResponseView, TrackerPeer};
use crate::urlcode::{percent_encode, url_encode_bytes};

verus! {

broadcast use vstd::seq_lib::group_seq_properties;

// ─── The announce URL ────────────────────────────────────────────────────────
/// The decimal text of a number.
pub open spec fn dec(n: nat) -> Seq<char> {
    ascii_chars_of(nat_text(n))
}

/// The announce URL for `req` at tracker URL `base`: the query follows a `?`, or a `&` when
/// the URL has a query already; the hashes are percent-encoded as raw bytes.
pub open spec fn announce_url(base: Seq<char>, req: AnnounceRequest) -> Seq<char> {
    base + seq![
        if base.contains('?') {
            '&'
        } else {
            '?'
        },
    ] + "info_hash="@ + percent_encode(req.info_hash@) + "&peer_id="@ + percent_encode(
        req.peer_id@,
    ) + "&port="@ + dec(req.port as nat) + "&uploaded="@ + dec(req.uploaded as nat)
        + "&downloaded="@ + dec(req.downloaded as nat) + "&left="@ + dec(req.left as nat)
        + "&compact=1&numwant="@ + ascii_chars_of(int_text(req.num_want as int)) + if req.event
        != AnnounceEvent::Empty {
        "&event="@ + event_name(req.event)
    } else {
        Seq::empty()
    }
}

/// `c` occurs in `s`.
fn has_char(s: &str, c: char) -> (r: bool)
    ensures
        r == s@.contains(c),
{
    let cs = chars_of(s);
    let mut i: usize = 0;
    while i < cs.len()
        invariant
            0 <= i <= cs@.len(),
            cs@ == s@,
            forall|k: int| 0 <= k < i ==> cs@[k] != c,
        decreases cs@.len() - i,
    {
        if cs[i] == c {
            return true;
        }
        i = i + 1;
    }
    false
}

/// Builds the announce URL for `req` at tracker URL `url`.
pub fn build_url(url: &str, req: &AnnounceRequest) -> (r: String)
    ensures
        r@ == announce_url(url@, *req),
{
    let info_hash = url_encode_bytes(&req.info_hash);
    let peer_id = url_encode_bytes(&req.peer_id);
    let mut u = String::from_str(url);
    if has_char(url, '?') {
        u.append("&");
    } else {
        u.append("?");
    }
    proof {
        reveal_strlit("&");
        reveal_strlit("?");
    }
    u.append("info_hash=");
    u.append(info_hash.as_str());
    u.append("&peer_id=");
    u.append(peer_id.as_str());
    u.append("&port=");
    let t = nat_string(req.port as u64);
    u.append(t.as_str());
    u.append("&uploaded=");
    let t = nat_string(req.uploaded);
    u.append(t.as_str());
    u.append("&downloaded=");
    let t = nat_string(req.downloaded);
    u.append(t.as_str());
    u.append("&left=");
    let t = nat_string(req.left);
    u.append(t.as_str());
    u.append("&compact=1&numwant=");
    let t = int_string(req.num_want as i64);
    u.append(t.as_str());
    if req.event != AnnounceEvent::Empty {
        u.append("&event=");
        u.append(req.event.as_str());
    }
    assert(u@ =~= announce_url(url@, *req));
    u
}

// ─── The answer ──────────────────────────────────────────────────────────────
/// Why an announce answer is refused.
pub enum AnnounceFault {
    Decode(DecodeFault),
    Http(Seq<char>),
    Failure(Seq<char>),
    Udp(Seq<char>),
}

/// `e` is the error that reports `f`.
pub open spec fn reports_announce_fault(e: CoreError, f: AnnounceFault) -> bool {
    match f {
        AnnounceFault::Decode(d) => reports_fault(e, d),
        AnnounceFault::Http(m) => e matches CoreError::TrackerHttp(s) && s@ == m,
        AnnounceFault::Failure(m) => e matches CoreError::TrackerFailure(s) && s@ == m,
        AnnounceFault::Udp(m) => e matches CoreError::TrackerUdp(s) && s@ == m,
    }
}

/// An executable result agrees with a result of the model.
pub open spec fn answered_as(r: Result<AnnounceResponse, CoreError>, s: Result<ResponseView, AnnounceFault>) -> bool {
    match (r, s) {
        (Ok(a), Ok(v)) => a@ == v,
        (Err(e), Err(f)) => reports_announce_fault(e, f),
        _ => false,
    }
}

/// Peers in compact form: six bytes each, four of address and two of port, big-endian; a
/// short tail is ignored.
pub open spec fn compact_peers(c: Seq<u8>) -> Seq<PeerView> {
    Seq::new(
        c.len() / 6,
        |i: int|
            PeerView {
                host: HostView::V4(c.subrange(6 * i, 6 * i + 4)),
                port: be16(c.subrange(6 * i + 4, 6 * i + 6)) as u16,
            },
    )
}

/// Peers as dictionaries: each one with a text `ip` and an integer `port`; others are skipped.
/// The `ip` text is handed on as given: whether it is an IP address is decided where peers are
/// dialled (`std::net` is not available to this library), and entries whose text is not one
/// are dropped there.
pub open spec fn dict_peers(l: Seq<BVal>) -> Seq<PeerView>
    decreases l.len(),
{
    if l.len() == 0 {
        Seq::empty()
    } else {
        let ps = dict_peers(l.drop_last());
        match l.last() {
            BVal::Dict(d) => match (opt_text(field(d, "ip"@)), opt_int(field(d, "port"@))) {
                (Some(ip), Some(p)) => ps.push(PeerView { host: HostView::Named(ip), port: p as u16 }),
                _ => ps,
            },
            _ => ps,
        }
    }
}

/// The peers of an answer, compact or as a list; none when the field is absent or of another
/// kind.
pub open spec fn response_peers(v: Option<BVal>) -> Seq<PeerView> {
    match v {
        Some(BVal::Bytes(c)) => compact_peers(c),
        Some(BVal::List(l)) => dict_peers(l),
        _ => Seq::empty(),
    }
}

/// An integer field, or a default without one, cut to 32 bits.
pub open spec fn int_or(v: Option<BVal>, default: int) -> u32 {
    match opt_int(v) {
        Some(n) => n as u32,
        None => default as u32,
    }
}

/// What an HTTP tracker's answer says.
pub open spec fn spec_http_response(data: Seq<u8>) -> Result<ResponseView, AnnounceFault> {
    match spec_decode(data) {
        Err(f) => Err(AnnounceFault::Decode(f)),
        Ok(BVal::Dict(d)) => match field(d, "failure reason"@) {
            Some(reason) => Err(
                AnnounceFault::Failure(
                    match text_of(reason) {
                        Some(t) => t,
                        None => "unknown"@,
                    },
                ),
            ),
            None => Ok(
                ResponseView {
                    interval: int_or(field(d, "interval"@), 1800),
                    seeders: int_or(field(d, "complete"@), 0),
                    leechers: int_or(field(d, "incomplete"@), 0),
                    peers: response_peers(field(d, "peers"@)),
                },
            ),
        },
        Ok(_) => Err(AnnounceFault::Http("response not a dict"@)),
    }
}

/// Reads peers in compact form.
pub fn compact_peer_list(c: &[u8]) -> (r: Vec<TrackerPeer>)
    ensures
        peers_view(r@) == compact_peers(c@),
{
    let mut peers: Vec<TrackerPeer> = Vec::new();
    let mut k: usize = 0;
    while k < c.len() / 6
        invariant
            0 <= k <= c@.len() / 6,
            peers_view(peers@) == compact_peers(c@).take(k as int),
        decreases c@.len() / 6 - k,
    {
        let mut ip = [0u8; 4];
        copy_into(&mut ip, c, 6 * k);
        let port = read_be16(c, 6 * k + 4);
        let ghost before = peers@;
        peers.push(TrackerPeer { ip: PeerHost::V4(ip), port });
        proof {
            assert(peers_view(peers@) =~= peers_view(before).push(peers@[k as int]@));
            assert(compact_peers(c@).take(k + 1) =~= compact_peers(c@).take(k as int).push(
                compact_peers(c@)[k as int],
            ));
        }
        k = k + 1;
    }
    assert(compact_peers(c@).take(k as int) =~= compact_peers(c@));
    peers
}

/// Reads peers given as dictionaries.
fn dict_peer_list(list: &[BValue]) -> (r: Vec<TrackerPeer>)
    ensures
        peers_view(r@) == dict_peers(list@.map_values(|v: BValue| v@)),
{
    let ghost l = list@.map_values(|v: BValue| v@);
    let mut peers: Vec<TrackerPeer> = Vec::new();
    let mut i: usize = 0;
    assert(l.take(0) =~= Seq::<BVal>::empty());
    while i < list.len()
        invariant
            0 <= i <= list@.len(),
            l == list@.map_values(|v: BValue| v@),
            peers_view(peers@) == dict_peers(l.take(i as int)),
        decreases list@.len() - i,
    {
        assert(l.take(i + 1).drop_last() =~= l.take(i as int));
        assert(l.take(i + 1).last() == list@[i as int]@);
        match list[i].as_dict() {
            Some(d) => {
                let ip = match d.get("ip".as_bytes()) {
                    Some(v) => v.as_str(),
                    None => None,
                };
                let port = match d.get("port".as_bytes()) {
                    Some(v) => v.as_int(),
                    None => None,
                };
                match (ip, port) {
                    (Some(ip), Some(p)) => {
                        let ghost before = peers@;
                        let peer = TrackerPeer {
                            ip: PeerHost::Named(String::from_str(ip)),
                            port: #[verifier::truncate] (p as u16),
                        };
                        peers.push(peer);
                        assert(peers_view(peers@) =~= peers_view(before).push(peers@[before.len() as int]@));
                    },
                    _ => {},
                }
            },
            None => {},
        }
        i = i + 1;
    }
    assert(l.take(i as int) =~= l);
    peers
}

/// An integer field of a dictionary, or `default` without one, cut to 32 bits.
fn int_field_or(d: &crate::bencode::BDict, key: &str, default: i64) -> (r: u32)
    ensures
        r == int_or(crate::bencode::dict_lookup(d@, encode_utf8(key@)), default as int),
{
    let n = match d.get(key.as_bytes()) {
        Some(v) => match v.as_int() {
            Some(n) => n,
            None => default,
        },
        None => default,
    };
    #[verifier::truncate]
    (n as u32)
}

/// Reads an HTTP tracker's bencoded answer.
pub fn parse_response(data: &[u8]) -> (r: Result<AnnounceResponse, CoreError>)
    ensures
        answered_as(r, spec_http_response(data@)),
{
    let root = match decode(data) {
        Ok(v) => v,
        Err(e) => return Err(e),
    };
    let dict = match root.as_dict() {
        Some(d) => d,
        None => return Err(CoreError::TrackerHttp(String::from_str("response not a dict"))),
    };
    match dict.get("failure reason".as_bytes()) {
        Some(reason) => {
            let msg = match reason.as_str() {
                Some(t) => String::from_str(t),
                None => String::from_str("unknown"),
            };
            return Err(CoreError::TrackerFailure(msg));
        },
        None => {},
    }
    let interval = int_field_or(dict, "interval", 1800);
    let seeders = int_field_or(dict, "complete", 0);
    let leechers = int_field_or(dict, "incomplete", 0);
    let peers = match dict.get("peers".as_bytes()) {
        Some(v) => match v.as_bytes() {
            Some(c) => compact_peer_list(c),
            None => match v.as_list() {
                Some(l) => {
                    proof {
                        let m = match v@ {
                            BVal::List(m) => m,
                            _ => Seq::empty(),
                        };
                        assert(l@.map_values(|v: BValue| v@) =~= m);
                    }
                    dict_peer_list(l)
                },
                None => {
                    let e: Vec<TrackerPeer> = Vec::new();
                    assert(peers_view(e@) =~= Seq::<PeerView>::empty());
                    e
                },
            },
        },
        None => {
            let e: Vec<TrackerPeer> = Vec::new();
            assert(peers_view(e@) =~= Seq::<PeerView>::empty());
            e
        },
    };
    Ok(AnnounceResponse { interval, seeders, leechers, peers })
}

} // verus!
