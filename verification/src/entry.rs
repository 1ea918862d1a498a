//! The record codec: one log record is a checksum, two sizes, a key and a
//! value.

use vstd::prelude::*;
use vstd::slice::{slice_subrange, slice_to_vec};
use vstd::utf8::{decode_utf8, encode_utf8, valid_utf8};

use crate::error::KvsError;

verus! {

/// The size of the entry's prefix in bytes.
pub const PREFIX_SIZE: usize = 12;

/// The CRC-32 (IEEE) checksum of a byte sequence.
pub uninterp spec fn crc32_checksum(data: Seq<u8>) -> u32;

/// Calls `crc32fast::hash`, which computes the CRC-32 (IEEE) checksum of the
/// slice; the result depends on the bytes alone.
#[verifier::external_body]
pub(crate) fn checksum(data: &[u8]) -> (sum: u32)
    ensures
        sum == crc32_checksum(data@),
{
    crc32fast::hash(data)
}

/// The error of `String::from_utf8`, of which nothing is said.
#[verifier::external_type_specification]
#[verifier::external_body]
pub struct ExFromUtf8Error(std::string::FromUtf8Error);

/// `String::from_utf8` accepts exactly the byte vectors that are valid UTF-8
/// and returns the text that they encode.
pub assume_specification[ String::from_utf8 ](vec: Vec<u8>) -> (r: Result<
    String,
    std::string::FromUtf8Error,
>)
    ensures
        r is Ok <==> valid_utf8(vec@),
        r matches Ok(s) ==> s@ == decode_utf8(vec@),
;

/// The four bytes of `x`, most significant first.
#[verifier::opaque]
pub open spec fn u32_be(x: u32) -> Seq<u8> {
    seq![
        (x / 0x100_0000) as u8,
        (x / 0x1_0000 % 0x100) as u8,
        (x / 0x100 % 0x100) as u8,
        (x % 0x100) as u8,
    ]
}

/// The four bytes of `x`, least significant first.
#[verifier::opaque]
pub open spec fn u32_le(x: u32) -> Seq<u8> {
    seq![
        (x % 0x100) as u8,
        (x / 0x100 % 0x100) as u8,
        (x / 0x1_0000 % 0x100) as u8,
        (x / 0x100_0000) as u8,
    ]
}

/// The number that four bytes spell, most significant first.
#[verifier::opaque]
pub open spec fn be_u32(b: Seq<u8>) -> u32
    recommends
        b.len() == 4,
{
    (b[0] * 0x100_0000 + b[1] * 0x1_0000 + b[2] * 0x100 + b[3]) as u32
}

/// The number that four bytes spell, least significant first.
#[verifier::opaque]
pub open spec fn le_u32(b: Seq<u8>) -> u32
    recommends
        b.len() == 4,
{
    (b[3] * 0x100_0000 + b[2] * 0x1_0000 + b[1] * 0x100 + b[0]) as u32
}

/// What a log record says: write `value` under `key`, or, without a value,
/// delete `key`.
pub ghost struct Record {
    pub key: Seq<char>,
    pub value: Option<Seq<char>>,
}

/// The bytes of a value; a tombstone has none.
pub open spec fn value_bytes(value: Option<Seq<char>>) -> Seq<u8> {
    match value {
        Some(v) => encode_utf8(v),
        None => Seq::empty(),
    }
}

/// Whether both sizes of the record fit their 32-bit fields.
pub open spec fn encodable(r: Record) -> bool {
    &&& encode_utf8(r.key).len() <= u32::MAX
    &&& value_bytes(r.value).len() <= u32::MAX
}

/// The part of an encoded record that the checksum covers: both sizes, then
/// key and value.
pub open spec fn body_bytes(r: Record) -> Seq<u8> {
    u32_le(encode_utf8(r.key).len() as u32) + u32_le(value_bytes(r.value).len() as u32)
        + encode_utf8(r.key) + value_bytes(r.value)
}

/// A record as it stands in a log: the checksum of the body, then the body.
pub open spec fn record_bytes(r: Record) -> Seq<u8> {
    u32_be(crc32_checksum(body_bytes(r))) + body_bytes(r)
}

/// The length that the prefix at the start of `bytes` announces for the
/// whole record.
pub open spec fn announced_len(bytes: Seq<u8>) -> int
    recommends
        bytes.len() >= PREFIX_SIZE,
{
    PREFIX_SIZE + le_u32(bytes.subrange(4, 8)) + le_u32(bytes.subrange(8, 12))
}

/// Reads one record from the start of `bytes`: the record and its length, or
/// `None` where the bytes are cut short, the checksum differs or key or
/// value is not UTF-8.
pub open spec fn parse_record(bytes: Seq<u8>) -> Option<(Record, int)> {
    if bytes.len() < PREFIX_SIZE {
        None
    } else {
        let key_size = le_u32(bytes.subrange(4, 8));
        let total = announced_len(bytes);
        let key = bytes.subrange(12, 12 + key_size);
        let value = bytes.subrange(12 + key_size, total);
        if bytes.len() < total {
            None
        } else if be_u32(bytes.subrange(0, 4)) != crc32_checksum(bytes.subrange(4, total)) {
            None
        } else if !valid_utf8(key) || !valid_utf8(value) {
            None
        } else {
            Some(
                (
                    Record {
                        key: decode_utf8(key),
                        value: if value.len() == 0 {
                            None
                        } else {
                            Some(decode_utf8(value))
                        },
                    },
                    total,
                ),
            )
        }
    }
}

/// A record as decoding returns it: an empty value reads back as a
/// tombstone.
pub open spec fn normalized(r: Record) -> Record {
    Record {
        key: r.key,
        value: if value_bytes(r.value).len() == 0 {
            None
        } else {
            r.value
        },
    }
}

/// The base-256 digits of the number that four digits spell are those
/// digits.
proof fn lemma_digits(d3: u32, d2: u32, d1: u32, d0: u32)
    requires
        d0 < 0x100,
        d1 < 0x100,
        d2 < 0x100,
        d3 < 0x100,
    ensures
        ({
            let x = d3 * 0x100_0000 + d2 * 0x1_0000 + d1 * 0x100 + d0;
            &&& 0 <= x <= u32::MAX
            &&& x % 0x100 == d0
            &&& x / 0x100 % 0x100 == d1
            &&& x / 0x1_0000 % 0x100 == d2
            &&& x / 0x100_0000 == d3
        }),
{
    let x = d3 * 0x100_0000 + d2 * 0x1_0000 + d1 * 0x100 + d0;
    assert(0 <= x <= u32::MAX);
    let y = x as u32;
    assert(y == (d3 << 24) | (d2 << 16) | (d1 << 8) | d0) by (bit_vector)
        requires
            d0 < 0x100,
            d1 < 0x100,
            d2 < 0x100,
            d3 < 0x100,
            y == d3 * 0x100_0000 + d2 * 0x1_0000 + d1 * 0x100 + d0,
    ;
    assert(y % 0x100 == d0 && y / 0x100 % 0x100 == d1 && y / 0x1_0000 % 0x100 == d2 && y
        / 0x100_0000 == d3) by (bit_vector)
        requires
            d0 < 0x100,
            d1 < 0x100,
            d2 < 0x100,
            d3 < 0x100,
            y == (d3 << 24) | (d2 << 16) | (d1 << 8) | d0,
    ;
}

/// A number is what its base-256 digits spell.
proof fn lemma_spelled(x: u32)
    ensures
        x == (x / 0x100_0000) * 0x100_0000 + (x / 0x1_0000 % 0x100) * 0x1_0000 + (x / 0x100
            % 0x100) * 0x100 + x % 0x100,
        x / 0x100_0000 < 0x100,
{
    let d3 = x / 0x100_0000;
    let d2 = x / 0x1_0000 % 0x100;
    let d1 = x / 0x100 % 0x100;
    let d0 = x % 0x100;
    assert(x == (d3 << 24) | (d2 << 16) | (d1 << 8) | d0 && d3 < 0x100) by (bit_vector)
        requires
            d3 == x / 0x100_0000,
            d2 == x / 0x1_0000 % 0x100,
            d1 == x / 0x100 % 0x100,
            d0 == x % 0x100,
    ;
    let y = (d3 * 0x100_0000 + d2 * 0x1_0000 + d1 * 0x100 + d0) as u32;
    assert(y == (d3 << 24) | (d2 << 16) | (d1 << 8) | d0) by (bit_vector)
        requires
            d0 < 0x100,
            d1 < 0x100,
            d2 < 0x100,
            d3 < 0x100,
            y == d3 * 0x100_0000 + d2 * 0x1_0000 + d1 * 0x100 + d0,
    ;
}

proof fn lemma_u32_be_round_trip(x: u32)
    ensures
        u32_be(x).len() == 4,
        be_u32(u32_be(x)) == x,
{
    reveal(u32_be);
    reveal(be_u32);
    lemma_spelled(x);
}

proof fn lemma_u32_le_round_trip(x: u32)
    ensures
        u32_le(x).len() == 4,
        le_u32(u32_le(x)) == x,
{
    reveal(u32_le);
    reveal(le_u32);
    lemma_spelled(x);
}

/// An entry in the log which represents adding or removing keys and values.
///
/// Entries hold onto a CRC32 of their contents. This is important because
/// during deserialization we must check for data corruption. To do so, we
/// first read the CRC prefix and later use this to verify the read data.
#[derive(Debug)]
pub struct Entry {
    key: String,
    value: Option<String>,
    crc32: u32,
    key_size: u32,
    value_size: u32,
}

impl View for Entry {
    type V = Record;

    closed spec fn view(&self) -> Record {
        Record {
            key: self.key@,
            value: match self.value {
                Some(v) => Some(v@),
                None => None,
            },
        }
    }
}

impl Clone for Entry {
    fn clone(&self) -> (copy: Self)
        ensures
            copy@ == self@,
    {
        proof {
            use_type_invariant(self);
        }
        let value = match &self.value {
            Some(v) => Some(v.clone()),
            None => None,
        };
        Entry {
            key: self.key.clone(),
            value,
            crc32: self.crc32,
            key_size: self.key_size,
            value_size: self.value_size,
        }
    }
}

/// The view of an optional string.
pub open spec fn value_view(value: Option<String>) -> Option<Seq<char>> {
    match value {
        Some(v) => Some(v@),
        None => None,
    }
}

impl Entry {
    /// The sizes and the checksum that an entry holds are those of its key
    /// and value.
    #[verifier::type_invariant]
    spec fn inv(self) -> bool {
        &&& self.key_size == encode_utf8(self.key@).len()
        &&& self.value_size == value_bytes(self@.value).len()
        &&& self.crc32 == crc32_checksum(body_bytes(self@))
    }

    /// Create an set entry for a key-value pair.
    pub fn set(key: String, value: String) -> (entry: Entry)
        requires
            encode_utf8(key@).len() <= u32::MAX,
            encode_utf8(value@).len() <= u32::MAX,
        ensures
            entry@ == (Record { key: key@, value: Some(value@) }),
    {
        Entry::new(key, Some(value))
    }

    /// Create an removal entry for a key.
    pub fn remove(key: String) -> (entry: Entry)
        requires
            encode_utf8(key@).len() <= u32::MAX,
        ensures
            entry@ == (Record { key: key@, value: None }),
    {
        // `None` serves as our tombstone value.
        Entry::new(key, None)
    }

    /// The key of the entry.
    pub fn key(&self) -> (key: &String)
        ensures
            key@ == self@.key,
    {
        &self.key
    }

    /// The value of the entry; a tombstone has none.
    pub fn value(&self) -> (value: &Option<String>)
        ensures
            value_view(*value) == self@.value,
    {
        &self.value
    }

    /// Takes the entry apart into its key and its value.
    pub fn into_parts(self) -> (parts: (String, Option<String>))
        ensures
            parts.0@ == self@.key,
            value_view(parts.1) == self@.value,
    {
        (self.key, self.value)
    }

    /// The number of bytes that the entry takes in a log.
    pub fn durable_len(&self) -> (len: u64)
        ensures
            len == record_bytes(self@).len(),
            encodable(self@),
    {
        proof {
            use_type_invariant(self);
            lemma_record_len(self@);
        }
        PREFIX_SIZE as u64 + self.key_size as u64 + self.value_size as u64
    }

    /// Returns a byte buffer of the entry's properties, with the CRC32
    /// occupying the first 4 bytes.
    pub fn as_durable_bytes(&self) -> (bytes: Vec<u8>)
        ensures
            bytes@ == record_bytes(self@),
            encodable(self@),
    {
        proof {
            use_type_invariant(self);
        }
        let mut byte_buf: Vec<u8> = Vec::new();
        push_u32_be(&mut byte_buf, self.crc32);
        let body = self.as_bytes();
        append_bytes(&mut byte_buf, body.as_slice());
        byte_buf
    }

    /// Returns a byte buffer of the entry's properties, without the CRC32.
    fn as_bytes(&self) -> (bytes: Vec<u8>)
        ensures
            bytes@ == body_bytes(self@),
            encodable(self@),
    {
        proof {
            use_type_invariant(self);
        }
        as_bytes(self.key_size, self.value_size, self.key.as_str(), &self.value)
    }

    fn new(key: String, value: Option<String>) -> (entry: Entry)
        requires
            encode_utf8(key@).len() <= u32::MAX,
            value_bytes(value_view(value)).len() <= u32::MAX,
        ensures
            entry@ == (Record { key: key@, value: value_view(value) }),
    {
        let key_size = key.as_str().len() as u32;

        let mut value_size: u32 = 0;
        if let Some(v) = &value {
            value_size = v.as_str().len() as u32;
        }

        let crc32 = generate_crc32(key_size, value_size, key.as_str(), &value);

        Entry { key, value, crc32, key_size, value_size }
    }
}

fn generate_crc32(key_size: u32, value_size: u32, key: &str, value: &Option<String>) -> (crc: u32)
    ensures
        crc == crc32_checksum(
            u32_le(key_size) + u32_le(value_size) + encode_utf8(key@) + value_bytes(
                value_view(*value),
            ),
        ),
{
    let bytes = as_bytes(key_size, value_size, key, value);
    checksum(bytes.as_slice())
}

fn as_bytes(key_size: u32, value_size: u32, key: &str, value: &Option<String>) -> (bytes: Vec<u8>)
    ensures
        bytes@ == u32_le(key_size) + u32_le(value_size) + encode_utf8(key@) + value_bytes(
            value_view(*value),
        ),
{
    let mut byte_buf: Vec<u8> = Vec::new();

    push_u32_le(&mut byte_buf, key_size);
    push_u32_le(&mut byte_buf, value_size);
    append_bytes(&mut byte_buf, key.as_bytes());

    if let Some(v) = value {
        append_bytes(&mut byte_buf, v.as_str().as_bytes());
    }
    assert(byte_buf@ =~= u32_le(key_size) + u32_le(value_size) + encode_utf8(key@) + value_bytes(
        value_view(*value),
    ));

    byte_buf
}

/// Appends the bytes of a slice to a buffer.
pub(crate) fn append_bytes(buf: &mut Vec<u8>, bytes: &[u8])
    ensures
        final(buf)@ == old(buf)@ + bytes@,
{
    buf.extend_from_slice(bytes);
    assert(buf@ =~= old(buf)@ + bytes@);
}

/// Appends the four bytes of `x`, most significant first.
fn push_u32_be(buf: &mut Vec<u8>, x: u32)
    ensures
        final(buf)@ == old(buf)@ + u32_be(x),
{
    proof {
        reveal(u32_be);
    }
    buf.push((x / 0x100_0000) as u8);
    buf.push((x / 0x1_0000 % 0x100) as u8);
    buf.push((x / 0x100 % 0x100) as u8);
    buf.push((x % 0x100) as u8);
    assert(buf@ =~= old(buf)@ + u32_be(x));
}

/// Appends the four bytes of `x`, least significant first.
fn push_u32_le(buf: &mut Vec<u8>, x: u32)
    ensures
        final(buf)@ == old(buf)@ + u32_le(x),
{
    proof {
        reveal(u32_le);
    }
    buf.push((x % 0x100) as u8);
    buf.push((x / 0x100 % 0x100) as u8);
    buf.push((x / 0x1_0000 % 0x100) as u8);
    buf.push((x / 0x100_0000) as u8);
    assert(buf@ =~= old(buf)@ + u32_le(x));
}

/// Write Entry to given writer.
pub fn to_writer(writer: &mut Vec<u8>, entry: &Entry) -> (r: Result<(), KvsError>)
    ensures
        r is Ok,
        final(writer)@ == old(writer)@ + record_bytes(entry@),
        encodable(entry@),
{
    let bytes = entry.as_durable_bytes();
    append_bytes(writer, bytes.as_slice());
    Ok(())
}


/// A cursor over the bytes of a log, which reads records one after another.
pub struct LogReader<'a> {
    data: &'a [u8],
    pos: usize,
}

impl<'a> LogReader<'a> {
    #[verifier::type_invariant]
    spec fn inv(self) -> bool {
        self.pos <= self.data@.len()
    }

    /// All the bytes that the reader was made over.
    pub closed spec fn source(&self) -> Seq<u8> {
        self.data@
    }

    /// The number of bytes that have been read.
    pub closed spec fn position(&self) -> nat {
        self.pos as nat
    }

    /// The bytes that are still to be read.
    pub open spec fn remaining(&self) -> Seq<u8> {
        self.source().skip(self.position() as int)
    }

    /// A reader at the start of `data`.
    pub fn new(data: &'a [u8]) -> (reader: Self)
        ensures
            reader.source() == data@,
            reader.position() == 0,
    {
        LogReader { data, pos: 0 }
    }

    /// The offset of the next byte to read.
    pub fn pos(&self) -> (pos: u64)
        ensures
            pos == self.position(),
            self.position() <= self.source().len(),
    {
        proof {
            use_type_invariant(self);
        }
        self.pos as u64
    }

    /// Whether every byte has been read.
    pub fn is_at_end(&self) -> (done: bool)
        ensures
            done == (self.position() >= self.source().len()),
            self.position() <= self.source().len(),
    {
        proof {
            use_type_invariant(self);
        }
        self.pos >= self.data.len()
    }
}

/// Reads the four bytes at `at`, most significant first.
fn read_u32_be(data: &[u8], at: usize) -> (x: u32)
    requires
        at + 4 <= data.len(),
    ensures
        x == be_u32(data@.subrange(at as int, at + 4)),
{
    proof {
        reveal(be_u32);
    }
    data[at] as u32 * 0x100_0000 + data[at + 1] as u32 * 0x1_0000 + data[at + 2] as u32 * 0x100
        + data[at + 3] as u32
}

/// Reads the four bytes at `at`, least significant first.
fn read_u32_le(data: &[u8], at: usize) -> (x: u32)
    requires
        at + 4 <= data.len(),
    ensures
        x == le_u32(data@.subrange(at as int, at + 4)),
{
    proof {
        reveal(le_u32);
    }
    data[at + 3] as u32 * 0x100_0000 + data[at + 2] as u32 * 0x1_0000 + data[at + 1] as u32 * 0x100
        + data[at] as u32
}

/// Read to a new Entry from given reader.
///
/// On success the reader stands behind the record; on failure it has not
/// moved.
pub fn from_reader(reader: &mut LogReader) -> (r: Result<Entry, KvsError>)
    ensures
        final(reader).source() == old(reader).source(),
        match parse_record(old(reader).remaining()) {
            Some((record, len)) => {
                &&& r matches Ok(entry)
                &&& entry@ == record
                &&& final(reader).position() == old(reader).position() + len
            },
            None => {
                &&& r == Err::<Entry, KvsError>(KvsError::CorruptRecord)
                &&& final(reader).position() == old(reader).position()
            },
        },
{
    proof {
        use_type_invariant(&*reader);
    }
    let data = reader.data;
    let start = reader.pos;
    let available = data.len() - start;
    let ghost rest = reader.remaining();
    if available < PREFIX_SIZE {
        return Err(KvsError::CorruptRecord);
    }
    let crc32 = read_u32_be(data, start);
    let key_size = read_u32_le(data, start + 4);
    let value_size = read_u32_le(data, start + 8);
    proof {
        assert(rest.subrange(0, 4) =~= data@.subrange(start as int, start + 4));
        assert(rest.subrange(4, 8) =~= data@.subrange(start + 4, start + 8));
        assert(rest.subrange(8, 12) =~= data@.subrange(start + 8, start + 12));
    }
    if ((available - PREFIX_SIZE) as u64) < key_size as u64 + value_size as u64 {
        return Err(KvsError::CorruptRecord);
    }
    let key_start = start + PREFIX_SIZE;
    let value_start = key_start + key_size as usize;
    let end = value_start + value_size as usize;
    let ghost total = announced_len(rest);
    proof {
        assert(total == end - start);
        assert(rest.subrange(4, total) =~= data@.subrange(start + 4, end as int));
        assert(rest.subrange(12, 12 + key_size) =~= data@.subrange(
            key_start as int,
            value_start as int,
        ));
        assert(rest.subrange(12 + key_size, total) =~= data@.subrange(
            value_start as int,
            end as int,
        ));
    }
    if checksum(slice_subrange(data, start + 4, end)) != crc32 {
        return Err(KvsError::CorruptRecord);
    }
    let key = match String::from_utf8(slice_to_vec(slice_subrange(data, key_start, value_start))) {
        Ok(key) => key,
        Err(_) => {
            return Err(KvsError::CorruptRecord);
        },
    };
    let text = match String::from_utf8(slice_to_vec(slice_subrange(data, value_start, end))) {
        Ok(text) => text,
        Err(_) => {
            return Err(KvsError::CorruptRecord);
        },
    };
    let value = if value_size == 0 {
        None
    } else {
        Some(text)
    };
    proof {
        let key_bytes = rest.subrange(12, 12 + key_size);
        let text_bytes = rest.subrange(12 + key_size, total);
        vstd::utf8::decode_utf8_encode_utf8(key_bytes);
        vstd::utf8::decode_utf8_encode_utf8(text_bytes);
        lemma_u32_le_of_bytes(rest.subrange(4, 8));
        lemma_u32_le_of_bytes(rest.subrange(8, 12));
        let record = Record { key: key@, value: value_view(value) };
        assert(value_bytes(record.value) =~= text_bytes);
        assert(body_bytes(record) =~= rest.subrange(4, total));
    }
    reader.pos = end;
    Ok(Entry { key, value, crc32, key_size, value_size })
}

/// Four bytes are the little-endian bytes of the number that they spell.
proof fn lemma_u32_le_of_bytes(b: Seq<u8>)
    requires
        b.len() == 4,
    ensures
        u32_le(le_u32(b)) == b,
{
    reveal(u32_le);
    reveal(le_u32);
    lemma_digits(b[3] as u32, b[2] as u32, b[1] as u32, b[0] as u32);
    assert(u32_le(le_u32(b)) =~= b);
}

/// Four bytes are the big-endian bytes of the number that they spell.
proof fn lemma_u32_be_of_bytes(b: Seq<u8>)
    requires
        b.len() == 4,
    ensures
        u32_be(be_u32(b)) == b,
{
    reveal(u32_be);
    reveal(be_u32);
    lemma_digits(b[0] as u32, b[1] as u32, b[2] as u32, b[3] as u32);
    assert(u32_be(be_u32(b)) =~= b);
}

/// Text that is not empty has bytes.
pub proof fn lemma_text_has_bytes(text: Seq<char>)
    ensures
        encode_utf8(text).len() == 0 <==> text.len() == 0,
{
    if text.len() > 0 {
        vstd::utf8::encode_utf8_first_scalar(text);
        assert(encode_utf8(text).len() > 0);
    }
}

/// An encoded record is its prefix, its key and its value.
pub proof fn lemma_record_len(r: Record)
    ensures
        record_bytes(r).len() == PREFIX_SIZE + encode_utf8(r.key).len() + value_bytes(
            r.value,
        ).len(),
{
    lemma_u32_be_round_trip(crc32_checksum(body_bytes(r)));
    lemma_u32_le_round_trip(encode_utf8(r.key).len() as u32);
    lemma_u32_le_round_trip(value_bytes(r.value).len() as u32);
}

/// Decoding undoes encoding: the bytes of a record, whatever follows them,
/// read back as the record, an empty value as a tombstone.
pub proof fn lemma_parse_encoded(r: Record, rest: Seq<u8>)
    requires
        encodable(r),
    ensures
        parse_record(record_bytes(r) + rest) == Some((normalized(r), record_bytes(r).len() as int)),
        record_bytes(r).len() == PREFIX_SIZE + encode_utf8(r.key).len() + value_bytes(
            r.value,
        ).len(),
{
    let bytes = record_bytes(r) + rest;
    let body = body_bytes(r);
    let key = encode_utf8(r.key);
    let value = value_bytes(r.value);
    let crc = crc32_checksum(body);
    lemma_u32_be_round_trip(crc);
    lemma_u32_le_round_trip(key.len() as u32);
    lemma_u32_le_round_trip(value.len() as u32);
    assert(bytes.subrange(0, 4) =~= u32_be(crc));
    assert(bytes.subrange(4, 8) =~= u32_le(key.len() as u32));
    assert(bytes.subrange(8, 12) =~= u32_le(value.len() as u32));
    let total = announced_len(bytes);
    assert(total == 12 + key.len() + value.len());
    assert(bytes.subrange(4, total) =~= body);
    assert(bytes.subrange(12, 12 + key.len() as int) =~= key);
    assert(bytes.subrange(12 + key.len() as int, total) =~= value);
    vstd::utf8::encode_utf8_valid_utf8(r.key);
    vstd::utf8::encode_utf8_decode_utf8(r.key);
    match r.value {
        Some(v) => {
            vstd::utf8::encode_utf8_valid_utf8(v);
            vstd::utf8::encode_utf8_decode_utf8(v);
        },
        None => {
            vstd::utf8::encode_utf8_valid_utf8(Seq::<char>::empty());
            assert(encode_utf8(Seq::<char>::empty()) =~= Seq::<u8>::empty());
        },
    }
}

/// Encoding undoes decoding: what was read from the start of `bytes` is a
/// record whose encoding is exactly the bytes that were read.
pub proof fn lemma_parsed_is_encoded(bytes: Seq<u8>)
    requires
        parse_record(bytes) is Some,
    ensures
        ({
            let (record, len) = parse_record(bytes)->Some_0;
            &&& encodable(record)
            &&& normalized(record) == record
            &&& PREFIX_SIZE <= len <= bytes.len()
            &&& record_bytes(record) == bytes.subrange(0, len)
        }),
{
    let (record, len) = parse_record(bytes)->Some_0;
    let key = bytes.subrange(12, 12 + le_u32(bytes.subrange(4, 8)));
    let value = bytes.subrange(12 + le_u32(bytes.subrange(4, 8)), len);
    vstd::utf8::decode_utf8_encode_utf8(key);
    vstd::utf8::decode_utf8_encode_utf8(value);
    lemma_u32_le_of_bytes(bytes.subrange(4, 8));
    lemma_u32_le_of_bytes(bytes.subrange(8, 12));
    lemma_u32_be_of_bytes(bytes.subrange(0, 4));
    assert(value_bytes(record.value) =~= value);
    assert(body_bytes(record) =~= bytes.subrange(4, len));
    assert(record_bytes(record) =~= bytes.subrange(0, len));
}

/// What is read from the start of a byte sequence does not depend on what
/// follows the record.
pub proof fn lemma_parse_extended(bytes: Seq<u8>, more: Seq<u8>)
    requires
        parse_record(bytes) is Some,
    ensures
        parse_record(bytes + more) == parse_record(bytes),
{
    let (record, len) = parse_record(bytes)->Some_0;
    lemma_parsed_is_encoded(bytes);
    lemma_parse_encoded(record, bytes.skip(len) + more);
    assert(bytes + more =~= record_bytes(record) + (bytes.skip(len) + more));
}


/// The checksum guards a record: where one byte of an encoded record is
/// changed, the record is read back only if the changed byte lies behind
/// the checksum and the checksum of the changed body is still the one that
/// the record holds.
pub proof fn law_changed_byte(bytes: Seq<u8>, at: int, byte: u8)
    requires
        parse_record(bytes) is Some,
        0 <= at < parse_record(bytes)->Some_0.1,
        byte != bytes[at],
    ensures
        ({
            let changed = bytes.update(at, byte);
            let len = parse_record(bytes)->Some_0.1;
            parse_record(changed) is Some ==> 4 <= at && crc32_checksum(
                changed.subrange(4, announced_len(changed)),
            ) == crc32_checksum(bytes.subrange(4, len))
        }),
{
    let changed = bytes.update(at, byte);
    if at < 4 {
        let was = bytes.subrange(0, 4);
        let now = changed.subrange(0, 4);
        assert(now[at] != was[at]);
        lemma_u32_be_of_bytes(was);
        lemma_u32_be_of_bytes(now);
        assert(changed.subrange(4, 8) =~= bytes.subrange(4, 8));
        assert(changed.subrange(8, 12) =~= bytes.subrange(8, 12));
        assert(changed.subrange(4, announced_len(changed)) =~= bytes.subrange(
            4,
            announced_len(bytes),
        ));
    } else {
        assert(changed.subrange(0, 4) =~= bytes.subrange(0, 4));
    }
}

} // verus!
