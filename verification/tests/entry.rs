use kvs::entry::PREFIX_SIZE;
use kvs::{from_reader, to_writer, Entry, KvsError, LogReader};

fn owned(s: &str) -> String {
    s.to_string()
}

const FOO_BAR: [u8; 18] = [105, 217, 89, 41, 3, 0, 0, 0, 3, 0, 0, 0, 102, 111, 111, 98, 97, 114];

const FOO_GONE: [u8; 15] = [129, 87, 107, 222, 3, 0, 0, 0, 0, 0, 0, 0, 102, 111, 111];

#[test]
fn prefix_is_twelve_bytes() {
    assert_eq!(PREFIX_SIZE, 12);
}

#[test]
fn set_entry_encodes_to_known_bytes() {
    let entry = Entry::set(owned("foo"), owned("bar"));
    assert_eq!(entry.as_durable_bytes(), FOO_BAR.to_vec());
    assert_eq!(entry.durable_len(), 18);
}

#[test]
fn remove_entry_encodes_to_known_bytes() {
    let entry = Entry::remove(owned("foo"));
    assert_eq!(entry.as_durable_bytes(), FOO_GONE.to_vec());
    assert_eq!(entry.durable_len(), 15);
    assert_eq!(entry.value(), &None);
}

#[test]
fn checksum_is_crc32_of_sizes_key_and_value() {
    let bytes = Entry::set(owned("k"), owned("1")).as_durable_bytes();
    let sum = crc32fast::hash(&bytes[4..]);
    assert_eq!(&bytes[..4], &sum.to_be_bytes());
    assert_eq!(bytes, vec![16, 195, 98, 187, 1, 0, 0, 0, 1, 0, 0, 0, 107, 49]);
}

#[test]
fn sizes_count_bytes_not_characters() {
    let bytes = Entry::set(owned("é"), owned("ü")).as_durable_bytes();
    assert_eq!(bytes, vec![69, 154, 3, 160, 2, 0, 0, 0, 2, 0, 0, 0, 195, 169, 195, 188]);
}

#[test]
fn entry_accessors() {
    let entry = Entry::set(owned("foo"), owned("bar"));
    assert_eq!(entry.key(), "foo");
    assert_eq!(entry.value(), &Some(owned("bar")));
    let copy = entry.clone();
    assert_eq!(copy.as_durable_bytes(), entry.as_durable_bytes());
    assert_eq!(entry.into_parts(), (owned("foo"), Some(owned("bar"))));
}

#[test]
fn decode_reads_back_what_was_encoded() {
    let bytes = Entry::set(owned("foo"), owned("bar")).as_durable_bytes();
    let mut reader = LogReader::new(&bytes);
    let entry = from_reader(&mut reader).unwrap();
    assert_eq!(entry.key(), "foo");
    assert_eq!(entry.value(), &Some(owned("bar")));
    assert_eq!(reader.pos(), 18);
    assert!(reader.is_at_end());
}

#[test]
fn decode_reads_a_tombstone() {
    let mut reader = LogReader::new(&FOO_GONE);
    let entry = from_reader(&mut reader).unwrap();
    assert_eq!(entry.key(), "foo");
    assert_eq!(entry.value(), &None);
}

#[test]
fn empty_value_reads_back_as_tombstone() {
    let bytes = Entry::set(owned("foo"), owned("")).as_durable_bytes();
    assert_eq!(bytes, FOO_GONE.to_vec());
    let mut reader = LogReader::new(&bytes);
    assert_eq!(from_reader(&mut reader).unwrap().value(), &None);
}

#[test]
fn empty_key_is_legal_for_the_codec() {
    let bytes = Entry::remove(owned("")).as_durable_bytes();
    assert_eq!(bytes, vec![101, 34, 223, 105, 0, 0, 0, 0, 0, 0, 0, 0]);
    let mut reader = LogReader::new(&bytes);
    assert_eq!(from_reader(&mut reader).unwrap().key(), "");
}

#[test]
fn decode_reads_records_one_after_another() {
    let mut log = Vec::new();
    to_writer(&mut log, &Entry::set(owned("foo"), owned("bar"))).unwrap();
    to_writer(&mut log, &Entry::remove(owned("foo"))).unwrap();
    assert_eq!(log.len(), 33);
    assert_eq!(&log[..18], &FOO_BAR);
    assert_eq!(&log[18..], &FOO_GONE);
    let mut reader = LogReader::new(&log);
    assert_eq!(from_reader(&mut reader).unwrap().value(), &Some(owned("bar")));
    assert_eq!(reader.pos(), 18);
    assert!(!reader.is_at_end());
    assert_eq!(from_reader(&mut reader).unwrap().value(), &None);
    assert_eq!(reader.pos(), 33);
    assert!(reader.is_at_end());
}

#[test]
fn truncated_record_is_corrupt() {
    for cut in 0..FOO_BAR.len() {
        let mut reader = LogReader::new(&FOO_BAR[..cut]);
        assert_eq!(from_reader(&mut reader).err(), Some(KvsError::CorruptRecord));
        assert_eq!(reader.pos(), 0);
    }
}

#[test]
fn changed_byte_is_corrupt() {
    for at in 0..FOO_BAR.len() {
        let mut bytes = FOO_BAR.to_vec();
        bytes[at] ^= 0x01;
        let mut reader = LogReader::new(&bytes);
        assert_eq!(from_reader(&mut reader).err(), Some(KvsError::CorruptRecord));
    }
}

#[test]
fn payload_that_is_not_utf8_is_corrupt() {
    let mut body = vec![1, 0, 0, 0, 1, 0, 0, 0, 0xff, b'v'];
    let mut bytes = crc32fast::hash(&body).to_be_bytes().to_vec();
    bytes.append(&mut body);
    let mut reader = LogReader::new(&bytes);
    assert_eq!(from_reader(&mut reader).err(), Some(KvsError::CorruptRecord));

    let mut body = vec![1, 0, 0, 0, 1, 0, 0, 0, b'k', 0xc3];
    let mut bytes = crc32fast::hash(&body).to_be_bytes().to_vec();
    bytes.append(&mut body);
    let mut reader = LogReader::new(&bytes);
    assert_eq!(from_reader(&mut reader).err(), Some(KvsError::CorruptRecord));
}

#[test]
fn error_messages() {
    assert_eq!(KvsError::KeyNotFound.message(), "Key not found");
    assert_eq!(KvsError::CorruptRecord.message(), "Corrupt record");
    assert_eq!(KvsError::InvalidArgument.message(), "Invalid argument");
    assert_eq!(KvsError::StorageExhausted.message(), "Storage exhausted");
    assert_eq!(KvsError::Io(owned("disk gone")).message(), "disk gone");
    assert_eq!(KvsError::Protocol(owned("Malformed request")).message(), "Malformed request");
    assert_eq!(KvsError::Backend(owned("tree closed")).message(), "Backend error: tree closed");
}
