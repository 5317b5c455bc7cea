use kvs::protocol::{decode_command, decode_response, encode_command, encode_response, frame, frame_header, header_length, unframe};
use kvs::{Command, KVError, KVErrorKind, Response};

#[test]
fn command_bytes() {
    let get = encode_command(&Command::Get { key: "a".to_owned() });
    assert_eq!(get, br#"{"Get":{"key":"a"}}"#.to_vec());
    let set = encode_command(&Command::Put { key: "a".to_owned(), val: "1".to_owned() });
    assert_eq!(set, br#"{"Set":{"key":"a","val":"1"}}"#.to_vec());
    let rm = encode_command(&Command::Remove { key: "b".to_owned() });
    assert_eq!(rm, br#"{"Remove":{"key":"b"}}"#.to_vec());
}

#[test]
fn command_round_trip() {
    for cmd in [
        Command::Get { key: "k\"1".to_owned() },
        Command::Put { key: "k".to_owned(), val: "v\n".to_owned() },
        Command::Remove { key: "é".to_owned() },
    ] {
        let bytes = encode_command(&cmd);
        let back = decode_command(&bytes).unwrap();
        assert_eq!(format!("{:?}", back), format!("{:?}", cmd));
    }
    assert!(decode_command(br#"{"Get":{"key":"a"}} "#).is_none());
    assert!(decode_command(br#"{"Put":{"key":"a","val":"b"}}"#).is_none());
}

#[test]
fn response_bytes() {
    let ok = encode_response(&Response::success("1".to_owned()));
    assert_eq!(ok, br#"{"success":true,"message":"1"}"#.to_vec());
    let failed = encode_response(&Response::failure("Key not found".to_owned()));
    assert_eq!(failed, br#"{"success":false,"message":"Key not found"}"#.to_vec());
    let back = decode_response(&failed).unwrap();
    assert!(!back.success);
    assert_eq!(back.message, "Key not found");
    assert!(decode_response(br#"{"success":maybe,"message":""}"#).is_none());
}

#[test]
fn frames() {
    assert_eq!(frame_header(5), [0, 0, 0, 0, 0, 0, 0, 5]);
    assert_eq!(frame_header(0x0102030405060708), [1, 2, 3, 4, 5, 6, 7, 8]);
    assert_eq!(header_length(&[0, 0, 0, 0, 0, 0, 1, 0]), 256);
    let f = frame(b"hello");
    assert_eq!(f, b"\0\0\0\0\0\0\0\x05hello".to_vec());
    let (body, end) = unframe(&f).unwrap();
    assert_eq!(body, b"hello".to_vec());
    assert_eq!(end, 13);
    assert!(unframe(&f[..12]).is_none());
    assert!(unframe(&f[..7]).is_none());
}

#[test]
fn responses_for_outcomes() {
    let hit = Response::for_get(Ok(Some("1".to_owned())));
    assert!(hit.success);
    assert_eq!(hit.message, "1");
    let miss = Response::for_get(Ok(None));
    assert!(miss.success);
    assert_eq!(miss.message, "");
    let err = Response::for_update(Err(KVError::new(KVErrorKind::KeyNotFound)));
    assert!(!err.success);
    assert_eq!(err.message, "Key not found");
    assert!(Response::for_update(Ok(())).success);
}
