use kvs::codec::text_from_bytes;
use kvs::json::read_string;
use kvs::{decode_ops, encode_ops, Ops};

fn set_parts(op: Ops) -> (String, String) {
    match op {
        Ops::Put { key, val } => (key, val),
        Ops::Rm { .. } => panic!("expected a set record"),
    }
}

#[test]
fn set_record_bytes() {
    let rec = encode_ops(&Ops::set("a".to_owned(), "1".to_owned()));
    assert_eq!(rec, br#"{"Set":{"key":"a","val":"1"}}"#.to_vec());
}

#[test]
fn remove_record_bytes() {
    let rec = encode_ops(&Ops::rm("key1".to_owned()));
    assert_eq!(rec, br#"{"Rm":{"key":"key1"}}"#.to_vec());
}

#[test]
fn escapes_in_record() {
    let rec = encode_ops(&Ops::set("q\"b\\".to_owned(), "l\n\t\u{1}".to_owned()));
    assert_eq!(rec, br#"{"Set":{"key":"q\"b\\","val":"l\n\t\u0001"}}"#.to_vec());
}

#[test]
fn record_round_trip_with_suffix() {
    let key = "clé ✓ \"x\"".to_owned();
    let val = "line1\nline2\r\u{8}\u{c}\u{1f}".to_owned();
    let mut buf = encode_ops(&Ops::set(key.clone(), val.clone()));
    let first = buf.len();
    buf.extend_from_slice(&encode_ops(&Ops::rm(key.clone())));
    let (op, end) = decode_ops(&buf, 0).unwrap();
    assert_eq!(end, first);
    assert_eq!(set_parts(op), (key.clone(), val));
    let (op, end) = decode_ops(&buf, first).unwrap();
    assert_eq!(end, buf.len());
    match op {
        Ops::Rm { key: k } => assert_eq!(k, key),
        Ops::Put { .. } => panic!("expected a tombstone"),
    }
}

#[test]
fn decodes_other_escapes() {
    let buf = br#"{"Set":{"key":"a\/b","val":"A\u000a"}}"#;
    let (op, end) = decode_ops(buf, 0).unwrap();
    assert_eq!(end, buf.len());
    assert_eq!(set_parts(op), ("a/b".to_owned(), "A\n".to_owned()));
}

#[test]
fn rejects_malformed_records() {
    assert!(decode_ops(br#"{"Set":{"key":"a"}}"#, 0).is_none());
    assert!(decode_ops(br#"{"Get":{"key":"a"}}"#, 0).is_none());
    assert!(decode_ops(br#"{"Set":{"key":"a","val":"1"}"#, 0).is_none());
    assert!(decode_ops(b"{\"Rm\":{\"key\":\"a\nb\"}}", 0).is_none());
    assert!(decode_ops("{\"Rm\":{\"key\":\"é\"}}".as_bytes(), 0).is_some());
    assert!(decode_ops(b"", 0).is_none());
    assert!(decode_ops(b"{\"Rm\":{\"key\":\"\xff\"}}", 0).is_none());
}

#[test]
fn string_body_reading() {
    let (v, end) = read_string(br#"ab\"c"rest"#, 0).unwrap();
    assert_eq!(v, b"ab\"c".to_vec());
    assert_eq!(end, 6);
    assert!(read_string(b"abc", 0).is_none());
}

#[test]
fn utf8_conversion() {
    assert_eq!(text_from_bytes("héllo".as_bytes().to_vec()), Some("héllo".to_owned()));
    assert_eq!(text_from_bytes(vec![0xc3]), None);
}
