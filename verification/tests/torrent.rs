use fetorrent_core::error::CoreError;
use fetorrent_core::models::FilePriority;
use fetorrent_core::torrent::{compute_info_hash, find_and_hash_info_dict, TorrentFile};
use sha1::{Digest, Sha1};

fn sha1_of(data: &[u8]) -> [u8; 20] {
    let mut hasher = Sha1::new();
    hasher.update(data);
    hasher.finalize().into()
}

#[test]
fn test_info_hash_computation() {
    // Basic sanity: encode a fake info dict and hash it
    let info_bytes = b"d6:lengthi1024e4:name4:teste";
    let torrent = format!(
        "d8:announce18:http://tracker.test4:info{}e",
        std::str::from_utf8(info_bytes).unwrap()
    );
    let mut hasher = Sha1::new();
    hasher.update(info_bytes);
    let expected: [u8; 20] = hasher.finalize().into();
    let result = find_and_hash_info_dict(torrent.as_bytes());
    assert!(result.is_ok());
    assert_eq!(result.unwrap(), expected);
}

const SINGLE: &[u8] = b"d8:announce19:http://tracker.test13:announce-listll19:http://tracker.test13:udp://other:1ee7:comment2:hi4:infod6:lengthi1024e4:name4:test12:piece lengthi16384e6:pieces20:00000000000000000000ee";

#[test]
fn single_file_torrent_is_read() {
    let t = TorrentFile::from_bytes(SINGLE).unwrap();
    assert_eq!(t.name, "test");
    assert_eq!(t.piece_length, 16384);
    assert_eq!(t.total_size, 1024);
    assert_eq!(t.num_pieces(), 1);
    assert_eq!(t.pieces[0], *b"00000000000000000000");
    assert_eq!(t.files.len(), 1);
    assert_eq!(t.files[0].path, "test");
    assert_eq!(t.files[0].offset, 0);
    // announce first, then announce-list URLs not seen before
    assert_eq!(t.trackers, vec!["http://tracker.test".to_string(), "udp://other:1".to_string()]);
    assert_eq!(t.comment.as_deref(), Some("hi"));
    assert_eq!(t.created_by, None);
    let info = b"d6:lengthi1024e4:name4:test12:piece lengthi16384e6:pieces20:00000000000000000000e";
    assert_eq!(t.info_hash, sha1_of(info));
    assert_eq!(t.info_hash_hex(), hex::encode(sha1_of(info)));
    assert_eq!(compute_info_hash(SINGLE).unwrap(), sha1_of(info));
}

#[test]
fn multi_file_offsets_accumulate() {
    let data = b"d4:infod5:filesld6:lengthi10e4:pathl1:a1:beed6:lengthi5e4:pathl1:ceee4:name3:top12:piece lengthi8e6:pieces40:0000000000000000000011111111111111111111ee";
    let t = TorrentFile::from_bytes(data).unwrap();
    assert_eq!(t.files.len(), 2);
    assert_eq!(t.files[0].path, "top/a/b");
    assert_eq!((t.files[0].size, t.files[0].offset), (10, 0));
    assert_eq!(t.files[1].path, "top/c");
    assert_eq!((t.files[1].size, t.files[1].offset), (5, 10));
    assert_eq!(t.total_size, 15);
    assert_eq!(t.num_pieces(), 2);
    let infos = t.into_file_infos();
    assert_eq!(infos[1].index, 1);
    assert_eq!(infos[1].path, "top/c");
    assert_eq!(infos[1].downloaded, 0);
    assert_eq!(infos[1].priority, FilePriority::Normal);
    assert!(t.into_tracker_infos().is_empty());
}

#[test]
fn torrent_errors_name_the_field() {
    let missing = |data: &[u8]| match TorrentFile::from_bytes(data) {
        Err(CoreError::TorrentMissingField(f)) => f,
        other => panic!("unexpected {:?}", other),
    };
    assert_eq!(missing(b"i1e"), "root dict");
    assert_eq!(missing(b"d3:fooi1ee"), "info key");
    assert_eq!(missing(b"d4:infod4:name1:xee"), "piece length");
    assert_eq!(missing(b"d4:infod12:piece lengthi1eee"), "pieces");
    assert_eq!(missing(b"d4:infod12:piece lengthi1e6:pieces0:ee"), "length");
    match TorrentFile::from_bytes(b"d4:infod12:piece lengthi1e6:pieces3:abcee") {
        Err(CoreError::TorrentInvalidField(f, m)) => {
            assert_eq!(f, "pieces");
            assert_eq!(m, "length not multiple of 20");
        }
        other => panic!("unexpected {:?}", other),
    }
    match TorrentFile::from_bytes(b"d4:infod5:filesi1e12:piece lengthi1e6:pieces0:ee") {
        Err(CoreError::TorrentInvalidField(f, m)) => {
            assert_eq!(f, "files");
            assert_eq!(m, "not a list");
        }
        other => panic!("unexpected {:?}", other),
    }
    assert!(matches!(TorrentFile::from_bytes(b"d4:info"), Err(CoreError::BencodePrematureEnd)));
}

#[test]
fn info_dict_alone_is_hashed_whole() {
    let info = b"d6:lengthi7e4:name1:x12:piece lengthi4e6:pieces20:abcdefghijabcdefghije";
    let t = TorrentFile::from_info_dict(info).unwrap();
    assert_eq!(t.info_hash, sha1_of(info));
    assert_eq!(t.total_size, 7);
    assert_eq!(t.name, "x");
    let d = TorrentFile::default();
    assert_eq!(d.name, "Unknown");
    assert_eq!(d.info_hash, [0u8; 20]);
}

#[test]
fn info_hash_is_taken_from_the_info_value() {
    // the text `4:info` inside an earlier string value is not the info key
    let data = b"d1:c6:4:info4:infodee";
    assert_eq!(compute_info_hash(data).unwrap(), sha1_of(b"de"));
    assert_eq!(find_and_hash_info_dict(data).unwrap(), sha1_of(b"de"));
    match find_and_hash_info_dict(b"d1:c6:4:infoe") {
        Err(CoreError::TorrentMissingField(f)) => assert_eq!(f, "info key"),
        other => panic!("unexpected {:?}", other),
    }
    assert!(find_and_hash_info_dict(b"d4:info").is_err());
}
