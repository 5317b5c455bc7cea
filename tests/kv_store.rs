use kvs::{
    encode_ops, log_file_name, sorted_gen_list, value_from_record, KVError, KVErrorKind, LogCore,
    Ops, COMPACTION_THRESHOLD,
};
use std::collections::BTreeMap;

/// A directory of segment files kept in memory: file name to bytes.
#[derive(Default)]
struct Dir {
    files: BTreeMap<String, Vec<u8>>,
}

impl Dir {
    fn size(&self) -> usize {
        self.files.values().map(|f| f.len()).sum()
    }
}

struct Store<'a> {
    dir: &'a mut Dir,
    core: LogCore,
}

impl<'a> Store<'a> {
    fn open(dir: &'a mut Dir) -> Result<Store<'a>, KVError> {
        let names: Vec<String> = dir.files.keys().cloned().collect();
        let gens = sorted_gen_list(&names);
        let segments: Vec<(u64, Vec<u8>)> = gens
            .iter()
            .map(|g| (*g, dir.files[&log_file_name(*g)].clone()))
            .collect();
        let core = LogCore::recover(&segments)?;
        dir.files.insert(log_file_name(core.current_gen()), Vec::new());
        Ok(Store { dir, core })
    }

    fn append(&mut self, rec: &[u8]) {
        let name = log_file_name(self.core.current_gen());
        self.dir.files.get_mut(&name).unwrap().extend_from_slice(rec);
    }

    fn set(&mut self, key: String, val: String) {
        let rec = encode_ops(&Ops::set(key.clone(), val.clone()));
        self.append(&rec);
        if self.core.commit_set(key, &val, &rec) {
            self.compact();
        }
    }

    fn remove(&mut self, key: String) -> Result<(), KVError> {
        let rec = self.core.begin_remove(&key)?;
        self.append(&rec);
        if self.core.commit_remove(&key, &rec) {
            self.compact();
        }
        Ok(())
    }

    fn get(&self, key: String) -> Result<Option<String>, KVError> {
        match self.core.locate(&key) {
            None => Ok(None),
            Some(loc) => {
                let file = &self.dir.files[&log_file_name(loc.gen)];
                let bytes = &file[loc.pos as usize..(loc.pos + loc.len) as usize];
                value_from_record(bytes).map(Some)
            }
        }
    }

    fn compact(&mut self) {
        let plan = self.core.compaction_plan().unwrap();
        let mut seg = Vec::new();
        for src in plan.sources() {
            let file = &self.dir.files[&log_file_name(src.gen)];
            seg.extend_from_slice(&file[src.pos as usize..(src.pos + src.len) as usize]);
        }
        self.dir.files.insert(log_file_name(plan.gen()), seg);
        for gen in self.core.finish_compaction(&plan) {
            self.dir.files.remove(&log_file_name(gen));
        }
    }
}

#[test]
fn get_stored_value() {
    let mut dir = Dir::default();
    let mut store = Store::open(&mut dir).unwrap();
    store.set("key1".to_owned(), "value1".to_owned());
    store.set("key2".to_owned(), "value2".to_owned());
    assert_eq!(store.get("key1".to_owned()).unwrap(), Some("value1".to_owned()));
    assert_eq!(store.get("key2".to_owned()).unwrap(), Some("value2".to_owned()));

    drop(store);
    let store = Store::open(&mut dir).unwrap();
    assert_eq!(store.get("key1".to_owned()).unwrap(), Some("value1".to_owned()));
    assert_eq!(store.get("key2".to_owned()).unwrap(), Some("value2".to_owned()));
}

#[test]
fn overwrite_value() {
    let mut dir = Dir::default();
    let mut store = Store::open(&mut dir).unwrap();
    store.set("key1".to_owned(), "value1".to_owned());
    assert_eq!(store.get("key1".to_owned()).unwrap(), Some("value1".to_owned()));
    store.set("key1".to_owned(), "value2".to_owned());
    assert_eq!(store.get("key1".to_owned()).unwrap(), Some("value2".to_owned()));

    drop(store);
    let mut store = Store::open(&mut dir).unwrap();
    assert_eq!(store.get("key1".to_owned()).unwrap(), Some("value2".to_owned()));
    store.set("key1".to_owned(), "value3".to_owned());
    assert_eq!(store.get("key1".to_owned()).unwrap(), Some("value3".to_owned()));
}

#[test]
fn get_non_existent_value() {
    let mut dir = Dir::default();
    let mut store = Store::open(&mut dir).unwrap();
    store.set("key1".to_owned(), "value1".to_owned());
    assert_eq!(store.get("key2".to_owned()).unwrap(), None);

    drop(store);
    let store = Store::open(&mut dir).unwrap();
    assert_eq!(store.get("key2".to_owned()).unwrap(), None);
}

#[test]
fn remove_non_existent_key() {
    let mut dir = Dir::default();
    let mut store = Store::open(&mut dir).unwrap();
    assert!(store.remove("key1".to_owned()).is_err());
}

#[test]
fn remove_key() {
    let mut dir = Dir::default();
    let mut store = Store::open(&mut dir).unwrap();
    store.set("key1".to_owned(), "value1".to_owned());
    assert!(store.remove("key1".to_owned()).is_ok());
    assert_eq!(store.get("key1".to_owned()).unwrap(), None);
}

#[test]
fn compaction() {
    let mut dir = Dir::default();
    let mut current_size = dir.size();
    let mut store = Store::open(&mut dir).unwrap();
    for iter in 0..1000 {
        for key_id in 0..1000 {
            let key = format!("key{}", key_id);
            let value = format!("{}", iter);
            store.set(key, value);
        }

        let new_size = store.dir.size();
        if new_size > current_size {
            current_size = new_size;
            continue;
        }
        // Compaction triggered

        drop(store);
        // reopen and check content
        let store = Store::open(&mut dir).unwrap();
        for key_id in 0..1000 {
            let key = format!("key{}", key_id);
            assert_eq!(store.get(key).unwrap(), Some(format!("{}", iter)));
        }
        return;
    }

    panic!("No compaction detected");
}

#[test]
fn absent_key_on_fresh_store() {
    let mut dir = Dir::default();
    let mut store = Store::open(&mut dir).unwrap();
    assert_eq!(store.get("absent".to_owned()).unwrap(), None);
    let err = store.remove("absent".to_owned()).unwrap_err();
    assert_eq!(err.kind(), KVErrorKind::KeyNotFound);
    assert_eq!(err.message(), "Key not found");
}

#[test]
fn remove_survives_restart() {
    let mut dir = Dir::default();
    let mut store = Store::open(&mut dir).unwrap();
    store.set("k".to_owned(), "v".to_owned());
    store.remove("k".to_owned()).unwrap();
    drop(store);
    let store = Store::open(&mut dir).unwrap();
    assert_eq!(store.get("k".to_owned()).unwrap(), None);
    assert_eq!(store.core.generations(), vec![1, 2]);
}

#[test]
fn many_keys_survive_restart() {
    let mut dir = Dir::default();
    let mut store = Store::open(&mut dir).unwrap();
    for i in 0..2000 {
        store.set(format!("key{}", i), format!("value{}", i));
    }
    drop(store);
    let store = Store::open(&mut dir).unwrap();
    for i in 0..2000 {
        assert_eq!(store.get(format!("key{}", i)).unwrap(), Some(format!("value{}", i)));
    }
}

#[test]
fn record_locations_and_stale_bytes() {
    let mut dir = Dir::default();
    let mut store = Store::open(&mut dir).unwrap();
    assert_eq!(store.core.current_gen(), 1);
    store.set("a".to_owned(), "1".to_owned());
    // {"Set":{"key":"a","val":"1"}} is 29 bytes long
    let loc = store.core.locate(&"a".to_owned()).unwrap();
    assert_eq!((loc.gen, loc.pos, loc.len), (1, 0, 29));
    assert_eq!(store.core.writer_pos(), 29);
    assert_eq!(store.core.uncompacted(), 0);
    store.set("a".to_owned(), "2".to_owned());
    assert_eq!(store.core.uncompacted(), 29);
    store.remove("a".to_owned()).unwrap();
    assert_eq!(store.core.uncompacted(), 58);
    assert!(!store.core.compaction_due());

    // reopening counts the tombstone too: {"Rm":{"key":"a"}} is 18 bytes
    drop(store);
    let store = Store::open(&mut dir).unwrap();
    assert_eq!(store.core.uncompacted(), 76);
    assert_eq!(store.core.current_gen(), 2);
}

#[test]
fn compaction_keeps_values_and_shrinks_the_log() {
    let mut dir = Dir::default();
    let mut store = Store::open(&mut dir).unwrap();
    let big = "x".repeat(1000);
    let mut compacted = false;
    let mut last_size = 0;
    for i in 0..3000 {
        store.set(format!("k{}", i % 10), format!("{}{}", big, i));
        let size = store.dir.size();
        if size < last_size {
            compacted = true;
            assert!(store.core.stale_gen() >= 1);
            assert_eq!(store.core.uncompacted(), 0);
            assert_eq!(store.core.generations().len(), 1);
        }
        last_size = size;
    }
    assert!(compacted);
    assert!(store.core.uncompacted() <= COMPACTION_THRESHOLD);
    for j in 0..10 {
        assert_eq!(
            store.get(format!("k{}", j)).unwrap(),
            Some(format!("{}{}", big, 2990 + j))
        );
    }
}

#[test]
fn corrupt_segment_is_refused() {
    let mut dir = Dir::default();
    dir.files.insert("1.log".to_owned(), b"{\"Set\":{\"key\":\"a\"".to_vec());
    let err = Store::open(&mut dir).err().unwrap();
    assert_eq!(err.kind(), KVErrorKind::JsonError);
}

#[test]
fn unrelated_files_are_ignored() {
    let mut dir = Dir::default();
    dir.files.insert("metadata".to_owned(), b"kvs".to_vec());
    dir.files.insert("3.log".to_owned(), encode_ops(&Ops::set("a".to_owned(), "1".to_owned())));
    let store = Store::open(&mut dir).unwrap();
    assert_eq!(store.core.current_gen(), 4);
    assert_eq!(store.get("a".to_owned()).unwrap(), Some("1".to_owned()));
}

#[test]
fn reading_located_records() {
    let set = encode_ops(&Ops::set("k".to_owned(), "v".to_owned()));
    assert_eq!(value_from_record(&set).unwrap(), "v");
    let tomb = encode_ops(&Ops::rm("k".to_owned()));
    assert_eq!(value_from_record(&tomb).unwrap_err().kind(), KVErrorKind::UnexpectedCommandType);
    let mut longer = set.clone();
    longer.push(b' ');
    assert_eq!(value_from_record(&longer).unwrap_err().kind(), KVErrorKind::JsonError);
    assert_eq!(value_from_record(&set[..10]).unwrap_err().kind(), KVErrorKind::JsonError);
}

#[test]
fn stale_handles_at_or_below_watermark() {
    let mut stale = kvs::store::stale_handles(&vec![1, 5, 3, 7], 5);
    stale.sort();
    assert_eq!(stale, vec![1, 3, 5]);
    assert!(kvs::store::stale_handles(&vec![4, 6], 3).is_empty());
}

#[test]
fn compaction_plan_lists_live_records() {
    let mut dir = Dir::default();
    let mut store = Store::open(&mut dir).unwrap();
    store.set("a".to_owned(), "1".to_owned());
    store.set("b".to_owned(), "2".to_owned());
    store.set("a".to_owned(), "3".to_owned());
    store.remove("b".to_owned()).unwrap();
    let plan = store.core.compaction_plan().unwrap();
    assert_eq!(plan.gen(), 2);
    let sources: Vec<(u64, u64, u64)> = plan.sources().iter().map(|l| (l.gen, l.pos, l.len)).collect();
    assert_eq!(sources, vec![(1, 58, 29)]);
    store.compact();
    assert_eq!(store.core.generations(), vec![2]);
    assert_eq!(store.core.stale_gen(), 1);
    assert_eq!(store.core.writer_pos(), 29);
    assert_eq!(store.dir.files.keys().cloned().collect::<Vec<_>>(), vec!["2.log".to_owned()]);
    assert_eq!(store.get("a".to_owned()).unwrap(), Some("3".to_owned()));
    assert_eq!(store.get("b".to_owned()).unwrap(), None);
    let a = store.core.locate(&"a".to_owned()).unwrap();
    assert_eq!((a.gen, a.pos, a.len), (2, 0, 29));
    store.set("c".to_owned(), "4".to_owned());
    let c = store.core.locate(&"c".to_owned()).unwrap();
    assert_eq!((c.gen, c.pos, c.len), (2, 29, 29));
    drop(store);
    let store = Store::open(&mut dir).unwrap();
    assert_eq!(store.get("a".to_owned()).unwrap(), Some("3".to_owned()));
    assert_eq!(store.get("c".to_owned()).unwrap(), Some("4".to_owned()));
}

#[test]
fn reopening_points_keys_at_their_last_set() {
    let mut dir = Dir::default();
    let mut store = Store::open(&mut dir).unwrap();
    store.set("a".to_owned(), "1".to_owned());
    store.set("b".to_owned(), "2".to_owned());
    store.set("a".to_owned(), "3".to_owned());
    drop(store);
    let store = Store::open(&mut dir).unwrap();
    let a = store.core.locate(&"a".to_owned()).unwrap();
    assert_eq!((a.gen, a.pos, a.len), (1, 58, 29));
    let b = store.core.locate(&"b".to_owned()).unwrap();
    assert_eq!((b.gen, b.pos, b.len), (1, 29, 29));
    assert_eq!(store.core.uncompacted(), 29);
    assert_eq!(store.core.stale_gen(), 0);
}
