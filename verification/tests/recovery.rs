use kvs::{load, Entry, EntryPos, KeyDir, KvsError, LogReader};

fn word(s: &str) -> String {
    s.to_string()
}

fn log_of(entries: &[Entry]) -> Vec<u8> {
    let mut bytes = Vec::new();
    for entry in entries {
        bytes.extend(entry.as_durable_bytes());
    }
    bytes
}

#[test]
fn load_indexes_the_newest_record_of_each_key() {
    let bytes = log_of(&[
        Entry::set(word("a"), word("1")),
        Entry::set(word("bb"), word("22")),
        Entry::set(word("a"), word("333")),
    ]);
    let mut keydir = KeyDir::new();
    let mut reader = LogReader::new(&bytes);
    assert_eq!(load(5, &mut reader, &mut keydir), Ok(14));
    assert_eq!(keydir.len(), 2);
    assert_eq!(keydir.get(&word("a")), Some(EntryPos { gen: 5, pos: 30, len: 16 }));
    assert_eq!(keydir.get(&word("bb")), Some(EntryPos { gen: 5, pos: 14, len: 16 }));
    assert_eq!(keydir.get(&word("c")), None);
    assert!(reader.is_at_end());
}

#[test]
fn load_counts_tombstones_as_dead() {
    let bytes = log_of(&[
        Entry::set(word("a"), word("1")),
        Entry::remove(word("a")),
        Entry::remove(word("never")),
    ]);
    let mut keydir = KeyDir::new();
    let mut reader = LogReader::new(&bytes);
    assert_eq!(load(1, &mut reader, &mut keydir), Ok(14 + 13 + 17));
    assert_eq!(keydir.len(), 0);
    assert!(!keydir.contains_key(&word("a")));
}

#[test]
fn load_goes_on_from_an_earlier_log() {
    let mut keydir = KeyDir::new();
    let first = log_of(&[Entry::set(word("a"), word("1")), Entry::set(word("b"), word("2"))]);
    let second = log_of(&[Entry::set(word("a"), word("3")), Entry::remove(word("b"))]);
    assert_eq!(load(1, &mut LogReader::new(&first), &mut keydir), Ok(0));
    assert_eq!(load(2, &mut LogReader::new(&second), &mut keydir), Ok(14 + 14 + 13));
    assert_eq!(keydir.get(&word("a")), Some(EntryPos { gen: 2, pos: 0, len: 14 }));
    assert_eq!(keydir.get(&word("b")), None);
}

#[test]
fn load_of_an_empty_log() {
    let mut keydir = KeyDir::new();
    assert_eq!(load(1, &mut LogReader::new(&[]), &mut keydir), Ok(0));
    assert_eq!(keydir.len(), 0);
}

#[test]
fn load_stops_at_a_record_that_cannot_be_read() {
    let mut bytes = log_of(&[Entry::set(word("a"), word("1")), Entry::set(word("b"), word("2"))]);
    bytes.truncate(20);
    let mut keydir = KeyDir::new();
    assert_eq!(load(1, &mut LogReader::new(&bytes), &mut keydir), Err(KvsError::CorruptRecord));
}

#[test]
fn entry_pos_of_a_range() {
    assert_eq!(EntryPos::from((4, 10..25)), EntryPos { gen: 4, pos: 10, len: 15 });
    assert_eq!(EntryPos::from((0, 7..7)), EntryPos { gen: 0, pos: 7, len: 0 });
}

#[test]
fn keydir_insert_get_remove() {
    let mut keydir = KeyDir::new();
    let one = EntryPos { gen: 1, pos: 0, len: 14 };
    let two = EntryPos { gen: 1, pos: 14, len: 20 };
    assert_eq!(keydir.insert(word("a"), one), None);
    assert_eq!(keydir.insert(word("b"), two), None);
    assert_eq!(keydir.insert(word("a"), two), Some(one));
    assert_eq!(keydir.len(), 2);
    assert_eq!(keydir.get(&word("a")), Some(two));
    assert_eq!(keydir.remove(&word("a")), Some(two));
    assert_eq!(keydir.remove(&word("a")), None);
    assert_eq!(keydir.key_at(0), "b");
    assert_eq!(keydir.place_at(0), two);
    keydir.relocate(0, one);
    assert_eq!(keydir.get(&word("b")), Some(one));
}

#[test]
fn keydir_with_many_keys() {
    let mut keydir = KeyDir::new();
    let place = |i: u64| EntryPos { gen: 1, pos: i * 20, len: 20 };
    for i in 0..20000u64 {
        assert_eq!(keydir.insert(format!("key{}", i), place(i)), None);
    }
    assert_eq!(keydir.len(), 20000);
    for i in 0..20000u64 {
        assert_eq!(keydir.get(&format!("key{}", i)), Some(place(i)));
    }
    for i in (0..20000u64).filter(|i| i % 3 != 0) {
        assert_eq!(keydir.remove(&format!("key{}", i)), Some(place(i)));
    }
    assert_eq!(keydir.len(), 6667);
    for i in 0..20000u64 {
        let held = if i % 3 == 0 { Some(place(i)) } else { None };
        assert_eq!(keydir.get(&format!("key{}", i)), held);
        assert_eq!(keydir.contains_key(&format!("key{}", i)), i % 3 == 0);
    }
    for i in (0..20000u64).filter(|i| i % 3 == 0) {
        assert_eq!(keydir.insert(format!("key{}", i), place(i + 1)), Some(place(i)));
    }
    let mut seen: Vec<String> = (0..keydir.len()).map(|i| keydir.key_at(i).clone()).collect();
    seen.sort();
    seen.dedup();
    assert_eq!(seen.len(), 6667);
}
