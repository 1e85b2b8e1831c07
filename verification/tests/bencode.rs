use fetorrent_core::bencode::{decode, decode_with_range, dict_value_range, encode, BDict, BValue, Decoder};
use fetorrent_core::error::CoreError;

#[test]
fn test_int() {
    assert_eq!(decode(b"i42e").unwrap(), BValue::Int(42));
    assert_eq!(decode(b"i-7e").unwrap(), BValue::Int(-7));
}

#[test]
fn test_bytes() {
    assert_eq!(decode(b"4:spam").unwrap(), BValue::Bytes(b"spam".to_vec()));
}

#[test]
fn test_list() {
    let v = decode(b"l4:spami42ee").unwrap();
    assert_eq!(
        v,
        BValue::List(vec![BValue::Bytes(b"spam".to_vec()), BValue::Int(42)])
    );
}

#[test]
fn test_dict() {
    let v = decode(b"d3:cow3:moo4:spam4:eggse").unwrap();
    let d = v.as_dict().unwrap();
    assert_eq!(*d.get(b"cow").unwrap(), BValue::Bytes(b"moo".to_vec()));
    assert_eq!(*d.get(b"spam").unwrap(), BValue::Bytes(b"eggs".to_vec()));
}

#[test]
fn bencode_test_roundtrip() {
    let input = b"d3:bari42e3:fool4:spame4:name4:teste";
    let v = decode(input).unwrap();
    let re = encode(&v);
    assert_eq!(decode(&re).unwrap(), v);
}

#[test]
fn test_recursion_limit() {
    let mut deep = String::new();
    for _ in 0..110 {
        deep.push('l');
    }
    for _ in 0..110 {
        deep.push('e');
    }
    let result = decode(deep.as_bytes());
    assert!(result.is_err());
    assert!(format!("{:?}", result.err()).contains("Depth limit exceeded"));
}

#[test]
fn test_allocation_limit() {
    // 100MB + 1 byte
    let huge = format!("{}:", 100 * 1024 * 1024 + 1);
    let result = decode(huge.as_bytes());
    assert!(result.is_err());
    assert!(format!("{:?}", result.err()).contains("allocation too large"));
}

#[test]
fn encode_sorts_and_writes_canonically() {
    let mut d = BDict::new();
    d.insert(b"zeta".to_vec(), BValue::Int(1));
    d.insert(b"alpha".to_vec(), BValue::Bytes(b"x".to_vec()));
    d.insert(b"zeta".to_vec(), BValue::Int(-2));
    assert_eq!(d.len(), 2);
    let out = encode(&BValue::Dict(d));
    assert_eq!(out, b"d5:alpha1:x4:zetai-2ee".to_vec());
}

#[test]
fn decode_reencode_is_identity_on_canonical_input() {
    let input = b"d4:infod6:lengthi1024e4:name4:teste4:listli0ei-5e0:ee";
    let v = decode(input).unwrap();
    assert_eq!(encode(&v), input.to_vec());
}

#[test]
fn decode_errors_are_reported() {
    assert!(matches!(decode(b""), Err(CoreError::BencodePrematureEnd)));
    assert!(matches!(decode(b"i42"), Err(CoreError::BencodePrematureEnd)));
    match decode(b"x") {
        Err(CoreError::BencodeInvalid(m)) => assert_eq!(m, "unexpected byte: x"),
        other => panic!("unexpected {:?}", other),
    }
    match decode(b"i4x2e") {
        Err(CoreError::BencodeInvalid(m)) => assert_eq!(m, "bad int: 4x2"),
        other => panic!("unexpected {:?}", other),
    }
    // a dictionary cut short after a value: the next key has no length
    match decode(b"d1:ai1e") {
        Err(CoreError::BencodeInvalid(m)) => assert_eq!(m, "bad decimal: "),
        other => panic!("unexpected {:?}", other),
    }
}

#[test]
fn decode_ignores_trailing_bytes_and_reports_range() {
    let (v, start, end) = decode_with_range(b"i7etrailing").unwrap();
    assert_eq!(v, BValue::Int(7));
    assert_eq!((start, end), (0, 3));
    let mut d = Decoder::new(b"4:spamrest");
    let start = d.position();
    d.decode().unwrap();
    assert_eq!(d.raw_value_at(start), b"4:spam");
}

#[test]
fn accessors_pick_the_right_variant() {
    let v = decode(b"d4:name5:hello3:numi3e4:listli1eee").unwrap();
    assert_eq!(v.dict_get("name").unwrap().as_str(), Some("hello"));
    assert_eq!(v.dict_get("num").unwrap().as_int(), Some(3));
    assert_eq!(v.dict_get("list").unwrap().as_list().unwrap().len(), 1);
    assert!(v.dict_get("missing").is_none());
    assert!(v.dict_get("num").unwrap().as_bytes().is_none());
    assert_eq!(BValue::Bytes(vec![0xff]).as_str(), None);
}

#[test]
fn decoder_reads_exactly_one_value() {
    let buf = b"i1e4:spam";
    let mut d = Decoder::new(buf);
    let v = d.decode().unwrap();
    assert_eq!(d.position(), 3);
    assert_eq!(decode(&buf[0..3]).unwrap(), v);
    let w = d.decode().unwrap();
    assert_eq!(d.position(), 9);
    assert_eq!(decode(&buf[3..9]).unwrap(), w);
}

#[test]
fn dictionary_value_spans() {
    let buf = b"d1:c6:4:info4:infodee";
    assert_eq!(dict_value_range(buf, b"info").unwrap(), Some((18, 20)));
    assert_eq!(dict_value_range(buf, b"c").unwrap(), Some((4, 12)));
    assert_eq!(dict_value_range(buf, b"x").unwrap(), None);
    assert_eq!(dict_value_range(b"le", b"info").unwrap(), None);
    // a later entry with the same key is the one kept
    assert_eq!(dict_value_range(b"d1:ai1e1:ai2ee", b"a").unwrap(), Some((10, 13)));
    assert!(dict_value_range(b"d1:a", b"a").is_err());
}

#[test]
fn nested_dictionaries_roundtrip() {
    let mut inner = BDict::new();
    inner.insert(b"z".to_vec(), BValue::Int(-5));
    inner.insert(b"a".to_vec(), BValue::Bytes(b"x".to_vec()));
    let mut outer = BDict::new();
    outer.insert(b"k".to_vec(), BValue::Dict(inner));
    outer.insert(b"b".to_vec(), BValue::List(vec![BValue::Int(0)]));
    let v = BValue::Dict(outer);
    let e = encode(&v);
    assert_eq!(e, b"d1:bli0ee1:kd1:a1:x1:zi-5eee".to_vec());
    assert_eq!(decode(&e).unwrap(), v);
}
