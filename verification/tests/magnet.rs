use fetorrent_core::error::CoreError;
use fetorrent_core::magnet::MagnetLink;

const SAMPLE_MAGNET: &str = "magnet:?xt=urn:btih:dd8255ecdc7ca55fb0bbf81323d87062db1f6d1c&dn=Big+Buck+Bunny&tr=udp%3A%2F%2Fexplodie.org%3A6969";

#[test]
fn test_parse_magnet() {
    let m = MagnetLink::parse(SAMPLE_MAGNET).unwrap();
    assert_eq!(
        m.info_hash_hex(),
        "dd8255ecdc7ca55fb0bbf81323d87062db1f6d1c"
    );
    assert_eq!(m.display_name.as_deref(), Some("Big+Buck+Bunny"));
    assert_eq!(m.trackers.len(), 1);
}

#[test]
fn magnet_test_roundtrip() {
    let m = MagnetLink::parse(SAMPLE_MAGNET).unwrap();
    let uri = m.to_uri();
    let m2 = MagnetLink::parse(&uri).unwrap();
    assert_eq!(m.info_hash, m2.info_hash);
}

#[test]
fn test_bad_magnet() {
    assert!(MagnetLink::parse("http://not-a-magnet").is_err());
    assert!(MagnetLink::parse("magnet:?dn=noxt").is_err());
}

#[test]
fn magnet_error_messages() {
    let msg = |r: Result<MagnetLink, CoreError>| match r {
        Err(CoreError::MagnetInvalid(m)) => m,
        other => panic!("unexpected {:?}", other),
    };
    assert_eq!(msg(MagnetLink::parse("http://x")), "must start with 'magnet:?'");
    assert_eq!(msg(MagnetLink::parse("magnet:?dn=noxt")), "missing xt parameter");
    assert_eq!(msg(MagnetLink::parse("magnet:?xt=urn:sha1:abc")), "unsupported xt: urn:sha1:abc");
    assert_eq!(
        msg(MagnetLink::parse("magnet:?xt=urn:btih:abc")),
        "hash length 3 invalid (expected 40 or 32)"
    );
    assert_eq!(
        msg(MagnetLink::parse("magnet:?xt=urn:btih:zz8255ecdc7ca55fb0bbf81323d87062db1f6d1c")),
        "invalid hex hash: zz8255ecdc7ca55fb0bbf81323d87062db1f6d1c"
    );
    assert_eq!(
        msg(MagnetLink::parse("magnet:?xt=urn:btih:1BCDEFGHIJKLMNOPQRSTUVWXYZ234567")),
        "invalid base32 char: 1"
    );
}

#[test]
fn magnet_base32_hash_and_fields() {
    // 32 base32 letters decode to the same 20 bytes as the hex form
    let m = MagnetLink::parse(
        "  magnet:?xt=urn:btih:3WBFL3G4PSSV7MF37AJSHWDQMLNR63I4&xl=1234&tr=a&tr=b%20c  ",
    )
    .unwrap();
    assert_eq!(m.info_hash_hex(), "dd8255ecdc7ca55fb0bbf81323d87062db1f6d1c");
    assert_eq!(m.exact_length, Some(1234));
    assert_eq!(m.trackers, vec!["a".to_string(), "b c".to_string()]);
    assert_eq!(m.name(), "Unknown");
    // lowercase base32 is accepted too
    let lower = MagnetLink::parse("magnet:?xt=urn:btih:3wbfl3g4pssv7mf37ajshwdqmlnr63i4").unwrap();
    assert_eq!(lower.info_hash, m.info_hash);
}

#[test]
fn magnet_uri_is_written_in_order_and_encoded() {
    let m = MagnetLink {
        info_hash: [0xab; 20],
        display_name: Some("a b&c".to_string()),
        trackers: vec!["udp://t:1".to_string()],
        exact_length: Some(5),
    };
    let uri = m.to_uri();
    assert_eq!(
        uri,
        "magnet:?xt=urn:btih:abababababababababababababababababababab&dn=a%20b%26c&tr=udp%3A%2F%2Ft%3A1"
    );
    let back = MagnetLink::parse(&uri).unwrap();
    assert_eq!(back.info_hash, m.info_hash);
    assert_eq!(back.display_name.as_deref(), Some("a b&c"));
    assert_eq!(back.trackers, m.trackers);
    assert_eq!(back.exact_length, None);
}
