use fetorrent_core::error::CoreError;
use fetorrent_core::peer::handshake::{Handshake, HANDSHAKE_LEN};
use fetorrent_core::peer::manager::{PeerAddr, PeerManager};
use fetorrent_core::peer::message::{encode_message, Message, MessageCodec};
use fetorrent_core::peer::session::{CommandAction, PeerCommand, PeerState, SessionReport};

#[test]
fn handshake_roundtrip_and_checks() {
    let h = Handshake::new([1u8; 20], [2u8; 20]);
    let bytes = h.to_bytes();
    assert_eq!(bytes.len(), HANDSHAKE_LEN);
    assert_eq!(bytes[0], 19);
    assert_eq!(&bytes[1..20], b"BitTorrent protocol");
    assert_eq!(bytes[25], 0x10);
    let back = Handshake::from_bytes(&bytes).unwrap();
    assert_eq!(back.info_hash, [1u8; 20]);
    assert_eq!(back.peer_id, [2u8; 20]);
    assert!(h.check_reply(&bytes).is_ok());
    let other = Handshake::new([3u8; 20], [2u8; 20]).to_bytes();
    match h.check_reply(&other) {
        Err(CoreError::PeerHandshake(m)) => assert!(m.starts_with("info_hash mismatch! expected 0101")),
        r => panic!("unexpected {:?}", r),
    }
    let mut bad = bytes;
    bad[0] = 7;
    match Handshake::from_bytes(&bad) {
        Err(CoreError::PeerHandshake(m)) => assert_eq!(m, "invalid pstrlen: 7"),
        r => panic!("unexpected {:?}", r),
    }
    match Handshake::from_bytes(&bytes[..10]) {
        Err(CoreError::PeerHandshake(m)) => assert_eq!(m, "buffer too small"),
        r => panic!("unexpected {:?}", r),
    }
}

#[test]
fn message_frames_roundtrip() {
    let msgs = vec![
        Message::KeepAlive,
        Message::Choke,
        Message::Have { piece_index: 258 },
        Message::Bitfield(vec![0xff, 0x80]),
        Message::Request { index: 1, begin: 16384, length: 16384 },
        Message::Piece { index: 2, begin: 0, block: vec![9, 8, 7] },
        Message::Port { listen_port: 6881 },
        Message::Extended { msg_id: 1, payload: b"d1:ai1ee".to_vec() },
    ];
    let mut codec = MessageCodec::new();
    for m in msgs {
        let mut buf = Vec::new();
        codec.encode(m.clone(), &mut buf).unwrap();
        let (back, used) = codec.decode(&buf).unwrap().unwrap();
        assert_eq!(back, m);
        assert_eq!(used, buf.len());
    }
    let mut have = Vec::new();
    encode_message(&Message::Have { piece_index: 1 }, &mut have);
    assert_eq!(have, vec![0, 0, 0, 5, 4, 0, 0, 0, 1]);
    // too short for a frame yet, and a frame that is too long
    assert_eq!(codec.decode(&[0, 0]).unwrap(), None);
    assert_eq!(codec.decode(&[0, 0, 0, 5, 4]).unwrap(), None);
    assert_eq!(codec.decode(&[0, 0x20, 0, 0]).unwrap_err().reason, "frame too large");
    assert_eq!(codec.decode(&[0, 0, 0, 2, 0, 1]).unwrap_err().reason, "Choke payload must be 0");
}

#[test]
fn session_commands_and_messages() {
    let mut s = PeerState::new();
    assert!(s.am_choking && s.peer_choking && !s.am_interested && !s.peer_interested);
    match s.handle_command(PeerCommand::Unchoke) {
        CommandAction::Send(Message::Unchoke) => {}
        other => panic!("unexpected {:?}", other),
    }
    assert!(!s.am_choking);
    assert!(matches!(s.handle_command(PeerCommand::Disconnect), CommandAction::Disconnect));
    assert!(matches!(s.handle_message(Message::Unchoke), Some(SessionReport::Unchoked)));
    assert!(!s.peer_choking);
    // requests are passed on only while unchoked and of a sane length
    assert!(matches!(
        s.handle_message(Message::Request { index: 1, begin: 0, length: 16384 }),
        Some(SessionReport::RequestReceived { index: 1, begin: 0, length: 16384 })
    ));
    assert!(s.handle_message(Message::Request { index: 1, begin: 0, length: 0 }).is_none());
    s.handle_command(PeerCommand::Choke);
    assert!(s.handle_message(Message::Request { index: 1, begin: 0, length: 16 }).is_none());
    assert!(matches!(
        s.handle_message(Message::Extended { msg_id: 0, payload: vec![1] }),
        Some(SessionReport::ExtendedHandshakeReceived { .. })
    ));
    assert!(s.handle_message(Message::KeepAlive).is_none());
    let d = PeerState::default();
    assert!(!d.am_choking && !d.peer_choking);
}

#[test]
fn peer_pool_dials_each_peer_once() {
    let a = PeerAddr { ip: 1, port: 10 };
    let b = PeerAddr { ip: 2, port: 10 };
    let c = PeerAddr { ip: 3, port: 10 };
    let mut pm = PeerManager::new([0; 20], [1; 20], 2);
    pm.add_candidates(vec![a, b, a, c]);
    assert_eq!(pm.tick(), vec![a, b]);
    // active peers and waiting peers are not queued again
    pm.add_candidates(vec![a, c, b]);
    assert_eq!(pm.tick(), Vec::<PeerAddr>::new());
    pm.remove_peer(a);
    assert_eq!(pm.tick(), vec![c]);
    assert_eq!(pm.info_hash(), [0; 20]);
}
