use fetorrent_core::error::CoreError;
use fetorrent_core::tracker::http::{build_url, parse_response};
use fetorrent_core::tracker::udp::{
    announce_request, connect_request, parse_announce_response, parse_connect_response, UdpTracker,
};
use fetorrent_core::tracker::{AnnounceEvent, AnnounceRequest, PeerHost};
use fetorrent_core::urlcode::url_encode_bytes;

fn request(event: AnnounceEvent) -> AnnounceRequest {
    AnnounceRequest {
        info_hash: [0x12; 20],
        peer_id: *b"-FT0001-abcdefghijkl",
        port: 6881,
        uploaded: 1,
        downloaded: 2,
        left: 3,
        event,
        num_want: -1,
    }
}

#[test]
fn announce_url_has_every_field() {
    let url = build_url("http://t/announce", &request(AnnounceEvent::Started));
    assert_eq!(
        url,
        format!(
            "http://t/announce?info_hash={}&peer_id=-FT0001-abcdefghijkl&port=6881&uploaded=1&downloaded=2&left=3&compact=1&numwant=-1&event=started",
            "%12".repeat(20)
        )
    );
    let url = build_url("http://t/a?k=v", &request(AnnounceEvent::Empty));
    assert!(url.starts_with("http://t/a?k=v&info_hash="));
    assert!(url.ends_with("numwant=-1"));
    assert_eq!(AnnounceEvent::Completed.as_str(), "completed");
    assert_eq!(url_encode_bytes(b"a b~"), "a%20b~");
}

#[test]
fn http_answers_are_read() {
    let r = parse_response(b"d8:intervali900e8:completei5e10:incompletei2e5:peers12:\x7f\x00\x00\x01\x1a\xe1\x0a\x00\x00\x02\x00\x50e").unwrap();
    assert_eq!((r.interval, r.seeders, r.leechers), (900, 5, 2));
    assert_eq!(r.peers.len(), 2);
    assert!(matches!(r.peers[0].ip, PeerHost::V4([127, 0, 0, 1])));
    assert_eq!(r.peers[0].port, 6881);
    assert_eq!(r.peers[1].port, 80);
    let r = parse_response(b"d5:peersld2:ip9:127.0.0.14:porti6881eed4:porti1eeee").unwrap();
    assert_eq!(r.interval, 1800);
    assert_eq!(r.peers.len(), 1);
    assert!(matches!(&r.peers[0].ip, PeerHost::Named(s) if s == "127.0.0.1"));
    match parse_response(b"d14:failure reason6:no wayee") {
        Err(CoreError::TrackerFailure(m)) => assert_eq!(m, "no way"),
        other => panic!("unexpected {:?}", other),
    }
    match parse_response(b"i1e") {
        Err(CoreError::TrackerHttp(m)) => assert_eq!(m, "response not a dict"),
        other => panic!("unexpected {:?}", other),
    }
}

#[test]
fn udp_packets() {
    let c = connect_request(7);
    assert_eq!(c, vec![0, 0, 4, 0x17, 0x27, 0x10, 0x19, 0x80, 0, 0, 0, 0, 0, 0, 0, 7]);
    let mut resp = [0u8; 16];
    resp[7] = 7;
    resp[15] = 42;
    assert_eq!(parse_connect_response(&resp, 7).unwrap(), 42);
    match parse_connect_response(&resp, 8) {
        Err(CoreError::TrackerUdp(m)) => assert_eq!(m, "connect: transaction ID mismatch (sent 8, got 7)"),
        other => panic!("unexpected {:?}", other),
    }
    resp[3] = 3;
    match parse_connect_response(&resp, 7) {
        Err(CoreError::TrackerUdp(m)) => assert_eq!(m, "expected action 0, got 3"),
        other => panic!("unexpected {:?}", other),
    }
    let a = announce_request(42, 9, 5, &request(AnnounceEvent::Stopped));
    assert_eq!(a.len(), 98);
    assert_eq!(&a[36..56], b"-FT0001-abcdefghijkl");
    assert_eq!(&a[80..84], &[0, 0, 0, 3]);
    assert_eq!(&a[92..96], &[0xff, 0xff, 0xff, 0xff]);
    assert_eq!(&a[96..98], &[0x1a, 0xe1]);
    let mut ans = vec![0, 0, 0, 1, 0, 0, 0, 9, 0, 0, 7, 8, 0, 0, 0, 3, 0, 0, 0, 4];
    ans.extend_from_slice(&[10, 0, 0, 1, 0, 80, 1]);
    let r = parse_announce_response(&ans).unwrap();
    assert_eq!((r.interval, r.leechers, r.seeders), (0x708, 3, 4));
    assert_eq!(r.peers.len(), 1);
    match parse_announce_response(&ans[..10]) {
        Err(CoreError::TrackerUdp(m)) => assert_eq!(m, "announce response too short"),
        other => panic!("unexpected {:?}", other),
    }
    let t = UdpTracker::from_url("udp://udp://tracker:80").unwrap();
    assert_eq!(t.host(), "tracker:80");
    assert_eq!(t.url(), "udp://udp://tracker:80");
}
