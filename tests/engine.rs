use kvs::protocol::{decode_command, decode_response, encode_command, encode_response, frame, unframe};
use kvs::{handle_command, Command, Engine, KVError, KVErrorKind, KvsEngine, Response};
use std::cell::RefCell;
use std::collections::BTreeMap;

struct MapEngine(RefCell<BTreeMap<String, String>>);

impl KvsEngine for MapEngine {
    fn get(&self, key: String) -> Result<Option<String>, KVError> {
        Ok(self.0.borrow().get(&key).cloned())
    }

    fn set(&self, key: String, val: String) -> Result<(), KVError> {
        self.0.borrow_mut().insert(key, val);
        Ok(())
    }

    fn remove(&self, key: String) -> Result<(), KVError> {
        match self.0.borrow_mut().remove(&key) {
            Some(_) => Ok(()),
            None => Err(KVError::new(KVErrorKind::KeyNotFound)),
        }
    }
}

fn exchange(engine: &MapEngine, cmd: Command) -> Response {
    let request = frame(&encode_command(&cmd));
    let (body, _) = unframe(&request).unwrap();
    let cmd = decode_command(&body).unwrap();
    let response = frame(&encode_response(&handle_command(engine, cmd)));
    let (body, _) = unframe(&response).unwrap();
    decode_response(&body).unwrap()
}

#[test]
fn wire_round_trip() {
    let engine = MapEngine(RefCell::new(BTreeMap::new()));
    let r = exchange(&engine, Command::Put { key: "a".to_owned(), val: "1".to_owned() });
    assert!(r.success);
    assert_eq!(r.message, "");
    let r = exchange(&engine, Command::Get { key: "a".to_owned() });
    assert!(r.success);
    assert_eq!(r.message, "1");
    let r = exchange(&engine, Command::Get { key: "b".to_owned() });
    assert!(r.success);
    assert_eq!(r.message, "");
    let r = exchange(&engine, Command::Remove { key: "b".to_owned() });
    assert!(!r.success);
    assert_eq!(r.message, "Key not found");
}

#[test]
fn engine_metadata() {
    assert_eq!(Engine::parse(String::new()), Ok(None));
    assert_eq!(Engine::parse("kvs".to_owned()), Ok(Some(Engine::Kvs)));
    assert_eq!(Engine::parse("sled".to_owned()), Ok(Some(Engine::Sled)));
    assert_eq!(Engine::parse("other".to_owned()), Err("Unknown engine type".to_owned()));
    assert_eq!(Engine::Kvs.to_bytes(), b"kvs".to_vec());
    assert_eq!(Engine::Sled.to_bytes(), b"sled".to_vec());
    assert_eq!(Engine::from_name("sled"), Some(Engine::Sled));
    assert_eq!(Engine::from_name("Sled"), None);
}

#[test]
fn engine_selection() {
    assert_eq!(Engine::select(None, None), Some(Engine::Kvs));
    assert_eq!(Engine::select(None, Some(Engine::Sled)), Some(Engine::Sled));
    assert_eq!(Engine::select(Some(Engine::Sled), None), Some(Engine::Sled));
    assert_eq!(Engine::select(Some(Engine::Kvs), Some(Engine::Kvs)), Some(Engine::Kvs));
    assert_eq!(Engine::select(Some(Engine::Kvs), Some(Engine::Sled)), None);
}

#[test]
fn error_texts() {
    assert_eq!(KVErrorKind::KeyNotFound.message(), "Key not found");
    assert_eq!(KVErrorKind::UnexpectedCommandType.message(), "Unexpected Command Type for key");
    let e: KVError = KVErrorKind::IoError.into();
    assert_eq!(e.kind(), KVErrorKind::IoError);
    assert_eq!(e.message(), "Io Error");
}

#[test]
fn serving_request_bodies() {
    let engine = MapEngine(RefCell::new(BTreeMap::new()));
    let reply = kvs::serve_request(&engine, br#"{"Set":{"key":"a","val":"1"}}"#);
    assert_eq!(reply, br#"{"success":true,"message":""}"#.to_vec());
    let reply = kvs::serve_request(&engine, br#"{"Get":{"key":"a"}}"#);
    assert_eq!(reply, br#"{"success":true,"message":"1"}"#.to_vec());
    let reply = kvs::serve_request(&engine, b"not a command");
    assert_eq!(reply, br#"{"success":false,"message":"Json parsing error"}"#.to_vec());
}
