use kvs::{Entry, KvStore, KvsError, LogFile, COMPACTION_THRESHOLD};

fn text(s: &str) -> String {
    s.to_string()
}

fn fresh() -> KvStore {
    KvStore::open(Vec::new()).unwrap()
}

fn stored_bytes(store: &KvStore) -> usize {
    store.files().iter().map(|f| f.bytes.len()).sum()
}

#[test]
fn get_stored_value() {
    let mut store = fresh();
    store.set(text("foo"), text("bar")).unwrap();
    assert_eq!(store.get(text("foo")).unwrap(), Some(text("bar")));
    assert_eq!(store.get(text("baz")).unwrap(), None);
}

#[test]
fn overwrite_value() {
    let mut store = fresh();
    store.set(text("k"), text("1")).unwrap();
    store.set(text("k"), text("2")).unwrap();
    assert_eq!(store.get(text("k")).unwrap(), Some(text("2")));
}

#[test]
fn remove_non_existent_key() {
    let mut store = fresh();
    assert_eq!(store.remove(text("x")), Err(KvsError::KeyNotFound));
    assert_eq!(stored_bytes(&store), 0);
}

#[test]
fn remove_key() {
    let mut store = fresh();
    store.set(text("k"), text("v")).unwrap();
    assert_eq!(store.remove(text("k")), Ok(()));
    assert_eq!(store.get(text("k")).unwrap(), None);
    assert_eq!(store.remove(text("k")), Err(KvsError::KeyNotFound));
}

#[test]
fn set_leaves_other_keys() {
    let mut store = fresh();
    store.set(text("a"), text("1")).unwrap();
    store.set(text("b"), text("2")).unwrap();
    store.set(text("a"), text("3")).unwrap();
    store.remove(text("b")).unwrap();
    store.set(text("c"), text("4")).unwrap();
    assert_eq!(store.get(text("a")).unwrap(), Some(text("3")));
    assert_eq!(store.get(text("b")).unwrap(), None);
    assert_eq!(store.get(text("c")).unwrap(), Some(text("4")));
}

#[test]
fn empty_key_or_value_is_rejected() {
    let mut store = fresh();
    assert_eq!(store.set(text(""), text("v")), Err(KvsError::InvalidArgument));
    assert_eq!(store.set(text("k"), text("")), Err(KvsError::InvalidArgument));
    assert_eq!(store.set(text(""), text("")), Err(KvsError::InvalidArgument));
    assert_eq!(stored_bytes(&store), 0);
    assert_eq!(store.get(text("k")).unwrap(), None);
    assert_eq!(store.get(text("")).unwrap(), None);
    assert_eq!(store.remove(text("")), Err(KvsError::KeyNotFound));
}

#[test]
fn a_fresh_store_starts_at_generation_one() {
    let store = fresh();
    assert_eq!(store.current_gen(), 1);
    assert_eq!(store.uncompacted(), 0);
    assert_eq!(store.files(), &vec![LogFile { gen: 1, bytes: Vec::new() }]);
}

#[test]
fn records_are_appended_to_the_current_log() {
    let mut store = fresh();
    store.set(text("foo"), text("bar")).unwrap();
    store.remove(text("foo")).unwrap();
    let mut expected = Entry::set(text("foo"), text("bar")).as_durable_bytes();
    expected.extend(Entry::remove(text("foo")).as_durable_bytes());
    assert_eq!(store.files(), &vec![LogFile { gen: 1, bytes: expected }]);
}

#[test]
fn dead_bytes_are_counted() {
    let mut store = fresh();
    store.set(text("k"), text("1")).unwrap();
    assert_eq!(store.uncompacted(), 0);
    store.set(text("k"), text("2")).unwrap();
    assert_eq!(store.uncompacted(), 14);
    store.set(text("other"), text("x")).unwrap();
    assert_eq!(store.uncompacted(), 14);
    store.remove(text("k")).unwrap();
    assert_eq!(store.uncompacted(), 14 + 14 + 13);
}

#[test]
fn reopen_keeps_values() {
    let mut store = fresh();
    for i in 1..=4096 {
        store.set(format!("key{}", i), text("value")).unwrap();
    }
    let files: Vec<LogFile> = store.into_files();
    let reopened = KvStore::open(files).unwrap();
    assert_eq!(reopened.get(text("key1234")).unwrap(), Some(text("value")));
    assert_eq!(reopened.get(text("key1")).unwrap(), Some(text("value")));
    assert_eq!(reopened.get(text("key4096")).unwrap(), Some(text("value")));
    assert_eq!(reopened.get(text("key4097")).unwrap(), None);
    assert_eq!(reopened.current_gen(), 2);
}

#[test]
fn reopen_replays_overwrites_and_removes() {
    let mut store = fresh();
    store.set(text("a"), text("1")).unwrap();
    store.set(text("b"), text("2")).unwrap();
    store.set(text("a"), text("3")).unwrap();
    store.remove(text("b")).unwrap();
    let dead = store.uncompacted();
    let mut reopened = KvStore::open(store.into_files()).unwrap();
    assert_eq!(reopened.uncompacted(), dead);
    assert_eq!(reopened.get(text("a")).unwrap(), Some(text("3")));
    assert_eq!(reopened.get(text("b")).unwrap(), None);
    reopened.set(text("b"), text("4")).unwrap();
    let again = KvStore::open(reopened.into_files()).unwrap();
    assert_eq!(again.get(text("a")).unwrap(), Some(text("3")));
    assert_eq!(again.get(text("b")).unwrap(), Some(text("4")));
    assert_eq!(again.current_gen(), 3);
    assert_eq!(again.files().len(), 3);
}

#[test]
fn compaction_keeps_the_latest_values() {
    let mut store = fresh();
    let mut round = 0;
    while store.current_gen() == 1 {
        round += 1;
        for key in 0..128 {
            let value = format!("{}-{}-", round, key).repeat(1024);
            store.set(format!("key{}", key), value).unwrap();
        }
        assert!(round < 100);
    }
    assert!(round >= 2);
    assert_eq!(store.current_gen(), 3);
    let gens: Vec<u64> = store.files().iter().map(|f| f.gen).collect();
    assert_eq!(gens, vec![2, 3]);
    assert!(store.uncompacted() <= COMPACTION_THRESHOLD);
    for key in 0..128 {
        let value = format!("{}-{}-", round, key).repeat(1024);
        assert_eq!(store.get(format!("key{}", key)).unwrap(), Some(value));
    }
    let reopened = KvStore::open(store.into_files()).unwrap();
    for key in 0..128 {
        let value = format!("{}-{}-", round, key).repeat(1024);
        assert_eq!(reopened.get(format!("key{}", key)).unwrap(), Some(value));
    }
}

#[test]
fn compaction_starts_when_dead_bytes_pass_the_threshold() {
    let mut store = fresh();
    let big = "v".repeat(COMPACTION_THRESHOLD as usize - 13);
    store.set(text("k"), big.clone()).unwrap();
    assert_eq!(store.uncompacted(), 0);
    store.set(text("k"), big.clone()).unwrap();
    assert_eq!(store.uncompacted(), COMPACTION_THRESHOLD);
    assert_eq!(store.current_gen(), 1);
    store.set(text("j"), text("1")).unwrap();
    store.set(text("j"), text("2")).unwrap();
    assert_eq!(store.current_gen(), 3);
    assert_eq!(store.uncompacted(), 0);
    assert_eq!(store.get(text("k")).unwrap(), Some(big));
    assert_eq!(store.get(text("j")).unwrap(), Some(text("2")));
}

#[test]
fn compaction_leaves_the_live_records_only() {
    let mut store = fresh();
    store.set(text("a"), text("1")).unwrap();
    store.set(text("b"), text("2")).unwrap();
    store.set(text("a"), text("3")).unwrap();
    store.set(text("c"), text("4")).unwrap();
    store.remove(text("c")).unwrap();
    assert_eq!(stored_bytes(&store), 14 * 4 + 13);
    assert_eq!(store.compact(), Ok(()));
    assert_eq!(stored_bytes(&store), 14 * 2);
    assert_eq!(store.uncompacted(), 0);
    assert_eq!(store.current_gen(), 3);
    let files = store.files();
    assert_eq!(files.len(), 2);
    assert_eq!(files[0].gen, 2);
    assert_eq!(files[1], LogFile { gen: 3, bytes: Vec::new() });
    assert_eq!(store.get(text("a")).unwrap(), Some(text("3")));
    assert_eq!(store.get(text("b")).unwrap(), Some(text("2")));
    assert_eq!(store.get(text("c")).unwrap(), None);
    store.set(text("d"), text("5")).unwrap();
    assert_eq!(store.files()[0].bytes.len(), 28);
    assert_eq!(store.files()[1].bytes.len(), 14);
}

#[test]
fn compaction_of_an_empty_store() {
    let mut store = fresh();
    assert_eq!(store.compact(), Ok(()));
    assert_eq!(store.current_gen(), 3);
    assert_eq!(stored_bytes(&store), 0);
}

#[test]
fn open_reads_logs_in_the_order_of_their_generations() {
    let first = Entry::set(text("k"), text("1")).as_durable_bytes();
    let mut second = Entry::set(text("k"), text("2")).as_durable_bytes();
    second.extend(Entry::set(text("j"), text("9")).as_durable_bytes());
    let files = vec![LogFile { gen: 3, bytes: first }, LogFile { gen: 8, bytes: second }];
    let store = KvStore::open(files).unwrap();
    assert_eq!(store.get(text("k")).unwrap(), Some(text("2")));
    assert_eq!(store.get(text("j")).unwrap(), Some(text("9")));
    assert_eq!(store.uncompacted(), 14);
    assert_eq!(store.current_gen(), 9);
    assert_eq!(store.files().len(), 3);
}

#[test]
fn open_refuses_logs_out_of_order() {
    let files = vec![LogFile { gen: 2, bytes: Vec::new() }, LogFile { gen: 1, bytes: Vec::new() }];
    assert_eq!(KvStore::open(files).err(), Some(KvsError::InvalidArgument));
    let files = vec![LogFile { gen: 1, bytes: Vec::new() }, LogFile { gen: 1, bytes: Vec::new() }];
    assert_eq!(KvStore::open(files).err(), Some(KvsError::InvalidArgument));
}

#[test]
fn open_refuses_a_corrupt_log() {
    let mut bytes = Entry::set(text("k"), text("1")).as_durable_bytes();
    bytes.extend(Entry::set(text("j"), text("2")).as_durable_bytes());
    let mut damaged = bytes.clone();
    damaged[20] ^= 0x40;
    let files = vec![LogFile { gen: 1, bytes: damaged }];
    assert_eq!(KvStore::open(files).err(), Some(KvsError::CorruptRecord));
    bytes.pop();
    let files = vec![LogFile { gen: 1, bytes }];
    assert_eq!(KvStore::open(files).err(), Some(KvsError::CorruptRecord));
}

#[test]
fn open_fails_when_generations_are_used_up() {
    let files = vec![LogFile { gen: u64::MAX, bytes: Vec::new() }];
    assert_eq!(KvStore::open(files).err(), Some(KvsError::StorageExhausted));
}

#[test]
fn compaction_fails_when_generations_are_used_up() {
    let files = vec![LogFile { gen: u64::MAX - 2, bytes: Vec::new() }];
    let mut store = KvStore::open(files).unwrap();
    assert_eq!(store.current_gen(), u64::MAX - 1);
    store.set(text("k"), text("v")).unwrap();
    assert_eq!(store.compact(), Err(KvsError::StorageExhausted));
    assert_eq!(store.get(text("k")).unwrap(), Some(text("v")));
    assert_eq!(store.current_gen(), u64::MAX - 1);
}
