use fetorrent_core::peer::session::PeerCommand;
use fetorrent_core::cli::{byte_unit, can_auto_start_daemon, daemon_endpoint_from_api_url, format_eta, format_small_bytes, truncate};
use fetorrent_core::config::FeConfig;
use fetorrent_core::dht::{DhtNode, KrpcMessage};
use fetorrent_core::engine::{admit_torrent, already_added, generate_peer_id, global_totals, resumed_status, AddMode, TorrentStats};
use fetorrent_core::error::CoreError;
use fetorrent_core::models::{info_hash_from_hex, torrent_is_complete, TorrentStatus};
use fetorrent_core::storage::{block_segments, piece_read_len, FileSpan, Segment};
use fetorrent_core::torrent_task::{
    greeting_commands, reannounce_secs, BlockResult, PieceDownloads,
    extended_handshake_payload, make_update, mark_have, metadata_request_payload, peer_has, MetadataState, TrackerKind,
};
use fetorrent_core::pieces::{ActivePiece, PieceManager};

#[test]
fn add_modes_give_metadata() {
    let m = AddMode::Magnet("magnet:?xt=urn:btih:dd8255ecdc7ca55fb0bbf81323d87062db1f6d1c&tr=udp%3A%2F%2Fx".to_string())
        .metadata()
        .unwrap();
    assert_eq!(m.name, "Unknown");
    assert_eq!(m.info_hash, "dd8255ecdc7ca55fb0bbf81323d87062db1f6d1c");
    assert_eq!(m.trackers.len(), 1);
    assert_eq!(m.trackers[0].url, "udp://x");
    assert_eq!(m.trackers[0].status, "pending");
    assert_eq!(m.total_size, 0);
    let bytes = b"d4:infod4:name4:test12:piece lengthi16384e6:pieces20:000000000000000000006:lengthi1024eee";
    let t = AddMode::TorrentFile(bytes.to_vec()).metadata().unwrap();
    assert_eq!(t.name, "test");
    assert_eq!((t.total_size, t.num_pieces, t.piece_length), (1024, 1, 16384));
    assert_eq!(t.files.len(), 1);
    assert!(t.magnet.is_none());
    assert!(matches!(AddMode::Magnet("nope".to_string()).metadata(), Err(CoreError::MagnetInvalid(_))));
    assert!(already_added(&vec!["a".to_string(), t.info_hash.clone()], &t.info_hash));
    assert!(!already_added(&vec!["a".to_string()], &t.info_hash));
}

#[test]
fn stats_follow_updates() {
    let mut s = TorrentStats {
        total_size: 0,
        piece_length: 0,
        num_pieces: 0,
        downloaded: 100,
        uploaded: 0,
        dl_speed: 0,
        ul_speed: 0,
        eta_secs: None,
        num_peers: 0,
        num_seeds: 0,
        num_leechers: 0,
        status: TorrentStatus::Queued,
    };
    let pm = PieceManager::new(16384, 1000, vec![[0u8; 20]]);
    let u = make_update(1, 300, 5, 700, 3, &[vec![0x80], vec![0x00]], 0, 7, Some(&pm));
    assert_eq!(u.num_seeds, 1);
    assert_eq!(u.num_leechers, 7);
    assert_eq!(u.status, TorrentStatus::Downloading);
    assert_eq!(u.total_size, Some(1000));
    s.apply_update(u);
    assert_eq!(s.dl_speed, 200);
    assert_eq!(s.eta_secs, Some(3));
    assert_eq!(s.total_size, 1000);
    let g = global_totals(&[s.clone(), s]);
    assert_eq!(g.total_downloaded, 600);
    assert_eq!(g.active_torrents, 2);
    let seeding = make_update(1, 0, 0, 0, 0, &[], 0, 0, Some(&pm));
    assert_eq!(seeding.status, TorrentStatus::Seeding);
    let meta = make_update(1, 0, 0, 0, 0, &[], 0, 0, None);
    assert_eq!(meta.status, TorrentStatus::DownloadingMetadata);
    assert!(matches!(resumed_status(&TorrentStatus::Paused), Some(TorrentStatus::Downloading)));
    assert!(resumed_status(&TorrentStatus::Seeding).is_none());
    let id = generate_peer_id();
    assert_eq!(&id[..8], b"-FT0001-");
    assert!(id[8..].iter().all(|b| (33..126).contains(b)));
}

#[test]
fn storage_plans_blocks_across_files() {
    let files = [
        FileSpan { size: 10, offset_in_torrent: 0 },
        FileSpan { size: 5, offset_in_torrent: 10 },
    ];
    let segs = block_segments(&files, 15, 8, 4, false).unwrap();
    assert_eq!(
        segs,
        vec![
            Segment { file_index: 0, offset_in_file: 8, buf_pos: 0, len: 2 },
            Segment { file_index: 1, offset_in_file: 0, buf_pos: 2, len: 2 },
        ]
    );
    match block_segments(&files, 15, 14, 2, true) {
        Err(CoreError::StorageIo(m)) => assert_eq!(m, "write out of bounds"),
        other => panic!("unexpected {:?}", other),
    }
    assert_eq!(piece_read_len(15, 1, 8), 7);
    assert_eq!(piece_read_len(15, 2, 8), 0);
}

#[test]
fn metadata_is_assembled_from_pieces() {
    assert_eq!(extended_handshake_payload(), b"d1:md11:ut_metadatai1eee".to_vec());
    assert_eq!(metadata_request_payload(3), b"d8:msg_typei0e5:piecei3ee".to_vec());
    let mut st = MetadataState::new();
    assert_eq!(st.requests(), vec![b"d8:msg_typei0e5:piecei0ee".to_vec()]);
    assert_eq!(st.on_extended_handshake(b"d1:md11:ut_metadatai3ee13:metadata_sizei5ee"), Some(3));
    assert_eq!(st.size(), Some(5));
    let mut msg = b"d8:msg_typei1e5:piecei0e10:total_sizei5ee".to_vec();
    msg.extend_from_slice(b"hello");
    assert!(!st.message_overruns(&msg));
    assert!(st.handle_metadata_message(&msg));
    assert_eq!(st.buffer(), b"hello");
    assert!(st.requests().is_empty());
    st.clear_pieces();
    assert_eq!(st.requests().len(), 1);
    // size learnt from the first data message
    let mut fresh = MetadataState::new();
    let mut first = b"d8:msg_typei1e5:piecei0e10:total_sizei3ee".to_vec();
    first.extend_from_slice(b"abcd");
    assert!(fresh.message_overruns(&first));
    assert_eq!(fresh.on_extended_handshake(b"d1:md1:xi1eee"), None);
}

#[test]
fn availability_and_trackers() {
    let mut bf = vec![0u8, 0];
    mark_have(&mut bf, 9);
    assert_eq!(bf, vec![0, 0x40]);
    mark_have(&mut bf, 99);
    assert_eq!(bf, vec![0, 0x40]);
    assert!(peer_has(&bf, 9));
    assert!(!peer_has(&bf, 8));
    assert!(!peer_has(&bf, 100));
    assert_eq!(TrackerKind::of("https://t"), Some(TrackerKind::Http));
    assert_eq!(TrackerKind::of("udp://t:1"), Some(TrackerKind::Udp));
    assert_eq!(TrackerKind::of("wss://t"), None);
}

#[test]
fn cli_text() {
    assert_eq!(format_eta(None), "∞");
    assert_eq!(format_eta(Some(0)), "Done");
    assert_eq!(format_eta(Some(90000)), "1d");
    assert_eq!(format_eta(Some(3700)), "1h 1m");
    assert_eq!(format_eta(Some(61)), "1m 1s");
    assert_eq!(format_eta(Some(60)), "60s");
    assert_eq!(truncate("abcdefgh", 5), "ab...");
    assert_eq!(truncate("abc", 5), "abc");
    assert_eq!(byte_unit(1023), 0);
    assert_eq!(byte_unit(1024), 1);
    assert_eq!(byte_unit(u64::MAX), 4);
    assert_eq!(format_small_bytes(512), "512 B");
    assert!(can_auto_start_daemon("http://127.0.0.1:6977"));
    assert_eq!(
        daemon_endpoint_from_api_url("http://localhost"),
        Some(("localhost".to_string(), 80))
    );
    assert!(!can_auto_start_daemon("http://example.com:6977"));
    assert!(!can_auto_start_daemon("not a url"));
}

#[test]
fn models_config_errors_dht() {
    assert_eq!(TorrentStatus::DownloadingMetadata.text(), "Downloading Metadata");
    assert_eq!(TorrentStatus::Error("x".to_string()).text(), "Error: x");
    assert!(torrent_is_complete(10, 10));
    assert!(!torrent_is_complete(0, 0));
    assert_eq!(info_hash_from_hex("dd8255ecdc7ca55fb0bbf81323d87062db1f6d1c").unwrap()[0], 0xdd);
    assert!(matches!(info_hash_from_hex("abc"), Err(CoreError::TorrentInvalidField("info_hash", _))));
    match info_hash_from_hex("zz8255ecdc7ca55fb0bbf81323d87062db1f6d1c") {
        Err(CoreError::TorrentInvalidField(_, m)) => assert_eq!(m, "Invalid character 'z' at position 0"),
        other => panic!("unexpected {:?}", other),
    }
    let c = FeConfig::default();
    assert_eq!(c.server.port, 6977);
    assert_eq!(c.downloads.directory, "~/Downloads/FeTorrent");
    assert_eq!(CoreError::TorrentNotFound(4).message(), "engine: torrent 4 not found");
    assert_eq!(CoreError::TorrentMissingField("info").message(), "torrent: missing field 'info'");
    assert_eq!(DhtNode::parse_krpc(b"d1:y1:qe").unwrap(), KrpcMessage::Query);
    assert_eq!(DhtNode::parse_krpc(b"d1:y1:re").unwrap(), KrpcMessage::Response);
    match DhtNode::parse_krpc(b"d1:y1:xe") {
        Err(CoreError::Other(m)) => assert_eq!(m, "DHT unknown type"),
        other => panic!("unexpected {:?}", other),
    }
    assert_eq!(DhtNode::new(7).port, 7);
}

#[test]
fn missing_blocks_respect_the_limit() {
    let ap = ActivePiece::new(0, 40000);
    let pm = PieceManager::new(40000, 40000, vec![[0u8; 20]]);
    assert_eq!(ap.get_missing_blocks(&pm, 0), vec![]);
    assert_eq!(ap.get_missing_blocks(&pm, 1), vec![(0, 16384)]);
    assert_eq!(ap.get_missing_blocks(&pm, 5), vec![(0, 16384), (16384, 16384), (32768, 7232)]);
}

#[test]
fn torrents_are_admitted_once_under_fresh_ids() {
    let known = vec!["aa".to_string(), "bb".to_string()];
    assert!(matches!(admit_torrent(&known, &"bb".to_string(), 7), Err(CoreError::TorrentAlreadyExists)));
    assert_eq!(admit_torrent(&known, &"cc".to_string(), 7).unwrap(), (7, 8));
    assert_eq!(admit_torrent(&known, &"cc".to_string(), usize::MAX).unwrap(), (usize::MAX, 0));
}

#[test]
fn new_peers_are_greeted_and_announces_paced() {
    let cmds = greeting_commands();
    assert_eq!(cmds.len(), 2);
    match &cmds[0] {
        PeerCommand::SendExtended { msg_id, payload } => {
            assert_eq!(*msg_id, 0);
            assert_eq!(payload, &b"d1:md11:ut_metadatai1eee".to_vec());
        }
        other => panic!("unexpected {:?}", other),
    }
    assert!(matches!(cmds[1], PeerCommand::Interested));
    assert_eq!(reannounce_secs(0), 30);
    assert_eq!(reannounce_secs(3), 1800);
}

#[test]
fn pieces_are_picked_filled_and_committed() {
    let mut pm = PieceManager::new(16384, 40000, vec![[0u8; 20]; 3]);
    let mut dl = PieceDownloads::new();
    let bf = vec![0b1110_0000u8];
    assert!(!dl.would_start_last_piece(&pm, &bf));
    let (i, reqs) = dl.pick_and_request(&mut pm, &bf).unwrap();
    assert_eq!((i, reqs), (0, vec![(0, 16384)]));
    // the piece being downloaded is offered again while it misses blocks
    assert_eq!(dl.pick_and_request(&mut pm, &bf).unwrap().0, 0);
    assert_eq!(dl.on_block(&pm, 0, 0, &[7u8; 16384]), BlockResult::Completed);
    assert_eq!(dl.on_block(&pm, 2, 0, &[7u8; 10]), BlockResult::NotActive);
    assert_eq!(dl.piece_data(0).unwrap(), &[7u8; 16384][..]);
    dl.commit_piece(&mut pm, 0);
    assert!(pm.has_bit(0));
    assert!(dl.piece_data(0).is_none());
    let (i, _) = dl.pick_and_request(&mut pm, &bf).unwrap();
    assert_eq!(i, 1);
    dl.discard_piece(&mut pm, 1);
    assert_eq!(dl.pick_and_request(&mut pm, &bf).unwrap().0, 1);
    // a peer with only the last piece
    let last = vec![0b0010_0000u8];
    assert!(dl.would_start_last_piece(&pm, &last));
    assert_eq!(dl.pick_and_request(&mut pm, &last).unwrap(), (2, vec![(0, 7232)]));
    // with a piece length of 0 the last piece has no length to take
    let zero = PieceManager::new(0, 10, vec![[0u8; 20]]);
    assert!(PieceDownloads::new().would_start_last_piece(&zero, &[0x80u8]));
}
