//! Recovery: what the logs of a store say, and the scan that rebuilds the
//! keydir from them.

use vstd::prelude::*;

use crate::entry::{from_reader, parse_record, LogReader, Record};
use crate::entry::{lemma_parse_encoded, lemma_parse_extended, lemma_parsed_is_encoded};
use crate::error::KvsError;
use crate::keydir::{lemma_live_len_insert, lemma_live_len_remove, live_len};
use crate::keydir::{EntryPos, KeyDir};

verus! {

/// One generation: an append-only log of records.
#[derive(Debug, Clone, PartialEq, Eq)]
pub struct LogFile {
    /// The number that orders the log among the logs of a store.
    pub gen: u64,
    /// The records of the log, one after another.
    pub bytes: Vec<u8>,
}

/// The mathematical model of a log.
pub ghost struct Log {
    pub gen: u64,
    pub bytes: Seq<u8>,
}

impl View for LogFile {
    type V = Log;

    open spec fn view(&self) -> Log {
        Log { gen: self.gen, bytes: self.bytes@ }
    }
}

/// The models of a vector of logs.
pub open spec fn log_views(files: Seq<LogFile>) -> Seq<Log> {
    files.map_values(|f: LogFile| f@)
}

/// What a scan of logs has found: the place of the newest record of every
/// live key, and the number of bytes that no key needs any more.
pub ghost struct Index {
    pub dir: Map<Seq<char>, EntryPos>,
    pub dead: nat,
}

/// The index of a store without records.
pub open spec fn empty_index() -> Index {
    Index { dir: Map::empty(), dead: 0 }
}

/// The length of the record that `key` has in the keydir, which a new record
/// of `key` makes dead weight.
pub open spec fn freed(dir: Map<Seq<char>, EntryPos>, key: Seq<char>) -> nat {
    if dir.contains_key(key) {
        dir[key].len as nat
    } else {
        0
    }
}

/// The index after one more record, which stands at `at`. A record with a
/// value takes the place of its key; a tombstone deletes its key and is dead
/// weight itself.
pub open spec fn apply(ix: Index, record: Record, at: EntryPos) -> Index {
    match record.value {
        Some(_) => Index {
            dir: ix.dir.insert(record.key, at),
            dead: ix.dead + freed(ix.dir, record.key),
        },
        None => Index {
            dir: ix.dir.remove(record.key),
            dead: ix.dead + freed(ix.dir, record.key) + at.len as nat,
        },
    }
}

/// The index after the records of one log from offset `pos` on, or `None`
/// where a record there cannot be read.
pub open spec fn replay_from(gen: u64, bytes: Seq<u8>, pos: int, ix: Index) -> Option<Index>
    decreases bytes.len() - pos,
    when 0 <= pos
{
    if pos >= bytes.len() {
        Some(ix)
    } else {
        proof {
            if parse_record(bytes.skip(pos)) is Some {
                lemma_parsed_is_encoded(bytes.skip(pos));
            }
        }
        match parse_record(bytes.skip(pos)) {
            Some((record, len)) => replay_from(
                gen,
                bytes,
                pos + len,
                apply(ix, record, EntryPos { gen, pos: pos as u64, len: len as u64 }),
            ),
            None => None,
        }
    }
}

/// The index after all the records of `logs`, log by log in the order given,
/// or `None` where a record cannot be read.
pub open spec fn replay(logs: Seq<Log>) -> Option<Index>
    decreases logs.len(),
{
    if logs.len() == 0 {
        Some(empty_index())
    } else {
        match replay(logs.drop_last()) {
            Some(ix) => replay_from(logs.last().gen, logs.last().bytes, 0, ix),
            None => None,
        }
    }
}

/// The number of bytes in all the logs.
pub open spec fn total_len(logs: Seq<Log>) -> nat
    decreases logs.len(),
{
    if logs.len() == 0 {
        0
    } else {
        total_len(logs.drop_last()) + logs.last().bytes.len()
    }
}

/// The generations grow strictly from log to log.
pub open spec fn ascending(logs: Seq<Log>) -> bool {
    forall|i: int, j: int| 0 <= i < j < logs.len() ==> logs[i].gen < logs[j].gen
}

/// Every offset in every log fits 64 bits.
pub open spec fn sized(logs: Seq<Log>) -> bool {
    forall|i: int| 0 <= i < logs.len() ==> (#[trigger] logs[i]).bytes.len() <= u64::MAX
}

/// Whether one of the logs has generation `gen`.
pub open spec fn has_gen(logs: Seq<Log>, gen: u64) -> bool {
    exists|i: int| 0 <= i < logs.len() && (#[trigger] logs[i]).gen == gen
}

/// The bytes of the log of generation `gen`; none where there is no such
/// log.
pub open spec fn log_bytes(logs: Seq<Log>, gen: u64) -> Seq<u8> {
    if has_gen(logs, gen) {
        logs[choose|i: int| 0 <= i < logs.len() && (#[trigger] logs[i]).gen == gen].bytes
    } else {
        Seq::empty()
    }
}

/// The bytes at `at` are one whole record, which gives `key` a value.
pub open spec fn placed(bytes: Seq<u8>, at: EntryPos, key: Seq<char>) -> bool {
    &&& at.pos + at.len <= bytes.len()
    &&& parse_record(bytes.subrange(at.pos as int, at.pos + at.len)) matches Some((record, len))
    &&& len == at.len
    &&& record.key == key
    &&& record.value is Some
}

/// Every key of `dir` points at a record of that key with a value.
pub open spec fn resolves(logs: Seq<Log>, dir: Map<Seq<char>, EntryPos>) -> bool {
    forall|k: Seq<char>| #[trigger]
        dir.contains_key(k) ==> placed(log_bytes(logs, dir[k].gen), dir[k], k)
}

/// The value of the record at `at`.
pub open spec fn value_at(logs: Seq<Log>, at: EntryPos) -> Seq<char> {
    parse_record(
        log_bytes(logs, at.gen).subrange(at.pos as int, at.pos + at.len),
    )->Some_0.0.value->Some_0
}

/// What a store holds: each key of `dir` with the value of the record that
/// it points at.
pub open spec fn contents(logs: Seq<Log>, dir: Map<Seq<char>, EntryPos>) -> Map<
    Seq<char>,
    Seq<char>,
> {
    Map::new(|k: Seq<char>| dir.contains_key(k), |k: Seq<char>| value_at(logs, dir[k]))
}

/// Each log of `a` is there in `b`, with the same bytes and perhaps more
/// behind them.
pub open spec fn extends(a: Seq<Log>, b: Seq<Log>) -> bool {
    forall|g: u64| #[trigger] log_bytes(a, g).is_prefix_of(log_bytes(b, g))
}

/// Among logs of distinct generations, the bytes of a generation are those
/// of the log that has it.
pub proof fn lemma_log_bytes(logs: Seq<Log>, i: int)
    requires
        ascending(logs),
        0 <= i < logs.len(),
    ensures
        has_gen(logs, logs[i].gen),
        log_bytes(logs, logs[i].gen) == logs[i].bytes,
{
    let g = logs[i].gen;
    assert(has_gen(logs, g));
    let j = choose|j: int| 0 <= j < logs.len() && (#[trigger] logs[j]).gen == g;
    if j < i {
        assert(logs[j].gen < logs[i].gen);
    } else if i < j {
        assert(logs[i].gen < logs[j].gen);
    }
}

/// What a keydir resolves to stays what it was when the logs grow at
/// their ends or new logs come.
pub proof fn lemma_resolves_extends(a: Seq<Log>, b: Seq<Log>, dir: Map<Seq<char>, EntryPos>)
    requires
        resolves(a, dir),
        extends(a, b),
    ensures
        resolves(b, dir),
        contents(b, dir) == contents(a, dir),
{
    assert forall|k: Seq<char>| #[trigger] dir.contains_key(k) implies placed(
        log_bytes(b, dir[k].gen),
        dir[k],
        k,
    ) && value_at(b, dir[k]) == value_at(a, dir[k]) by {
        let at = dir[k];
        let old_bytes = log_bytes(a, at.gen);
        let new_bytes = log_bytes(b, at.gen);
        assert(old_bytes.is_prefix_of(new_bytes));
        assert(placed(old_bytes, at, k));
        assert(new_bytes.subrange(at.pos as int, at.pos + at.len) =~= old_bytes.subrange(
            at.pos as int,
            at.pos + at.len,
        ));
    }
    assert(contents(b, dir) =~= contents(a, dir));
}

/// Dead bytes that were counted before a scan add to those that it counts.
pub proof fn lemma_replay_from_dead(gen: u64, bytes: Seq<u8>, pos: int, ix: Index, more: nat)
    requires
        0 <= pos,
    ensures
        replay_from(gen, bytes, pos, Index { dir: ix.dir, dead: ix.dead + more }) == (match replay_from(
            gen,
            bytes,
            pos,
            ix,
        ) {
            Some(out) => Some(Index { dir: out.dir, dead: out.dead + more }),
            None => None,
        }),
    decreases bytes.len() - pos,
{
    if pos >= bytes.len() {
    } else {
        match parse_record(bytes.skip(pos)) {
            Some((record, len)) => {
                lemma_parsed_is_encoded(bytes.skip(pos));
                let at = EntryPos { gen, pos: pos as u64, len: len as u64 };
                let shifted = Index { dir: ix.dir, dead: ix.dead + more };
                let next = apply(ix, record, at);
                assert(apply(shifted, record, at) == Index {
                    dir: next.dir,
                    dead: next.dead + more,
                });
                lemma_replay_from_dead(gen, bytes, pos + len, next, more);
            },
            None => {},
        }
    }
}

/// A scan that has read a log to its end goes on behind it when the log
/// grows.
pub proof fn lemma_replay_from_append(
    gen: u64,
    bytes: Seq<u8>,
    pos: int,
    ix: Index,
    more: Seq<u8>,
)
    requires
        0 <= pos <= bytes.len(),
        replay_from(gen, bytes, pos, ix) is Some,
    ensures
        replay_from(gen, bytes + more, pos, ix) == replay_from(
            gen,
            bytes + more,
            bytes.len() as int,
            replay_from(gen, bytes, pos, ix)->Some_0,
        ),
    decreases bytes.len() - pos,
{
    if pos >= bytes.len() {
    } else {
        let rest = bytes.skip(pos);
        let (record, len) = parse_record(rest)->Some_0;
        lemma_parsed_is_encoded(rest);
        lemma_parse_extended(rest, more);
        assert((bytes + more).skip(pos) =~= rest + more);
        let at = EntryPos { gen, pos: pos as u64, len: len as u64 };
        lemma_replay_from_append(gen, bytes, pos + len, apply(ix, record, at), more);
    }
}

/// A scan over exactly one encoded record applies that record.
pub proof fn lemma_replay_from_one(gen: u64, bytes: Seq<u8>, record: Record, ix: Index)
    requires
        crate::entry::encodable(record),
    ensures
        replay_from(
            gen,
            bytes + crate::entry::record_bytes(record),
            bytes.len() as int,
            ix,
        ) == Some(
            apply(
                ix,
                crate::entry::normalized(record),
                EntryPos {
                    gen,
                    pos: bytes.len() as u64,
                    len: crate::entry::record_bytes(record).len() as u64,
                },
            ),
        ),
{
    let encoded = crate::entry::record_bytes(record);
    let all = bytes + encoded;
    let pos = bytes.len() as int;
    lemma_parse_encoded(record, Seq::<u8>::empty());
    assert(all.skip(pos) =~= encoded + Seq::<u8>::empty());
    assert(encoded.len() > 0);
    let at = EntryPos { gen, pos: pos as u64, len: encoded.len() as u64 };
    let next = apply(ix, crate::entry::normalized(record), at);
    assert(replay_from(gen, all, pos + encoded.len(), next) == Some(next));
}

/// Every byte that a scan reads is counted once: with the live bytes or
/// with the dead bytes.
pub proof fn lemma_replay_from_counts(gen: u64, bytes: Seq<u8>, pos: int, ix: Index)
    requires
        0 <= pos <= bytes.len() <= u64::MAX,
        ix.dir.dom().finite(),
        replay_from(gen, bytes, pos, ix) is Some,
    ensures
        ({
            let out = replay_from(gen, bytes, pos, ix)->Some_0;
            &&& out.dir.dom().finite()
            &&& out.dead + live_len(out.dir) == ix.dead + live_len(ix.dir) + bytes.len() - pos
        }),
    decreases bytes.len() - pos,
{
    if pos < bytes.len() {
        let rest = bytes.skip(pos);
        let (record, len) = parse_record(rest)->Some_0;
        lemma_parsed_is_encoded(rest);
        let at = EntryPos { gen, pos: pos as u64, len: len as u64 };
        match record.value {
            Some(_) => {
                lemma_live_len_insert(ix.dir, record.key, at);
            },
            None => {
                lemma_live_len_remove(ix.dir, record.key);
            },
        }
        lemma_replay_from_counts(gen, bytes, pos + len, apply(ix, record, at));
    }
}

/// Every byte of the logs that recovery reads is counted once: the live
/// bytes and the dead bytes are all the bytes of the logs.
pub proof fn lemma_replay_counts(logs: Seq<Log>)
    requires
        sized(logs),
        replay(logs) is Some,
    ensures
        replay(logs)->Some_0.dir.dom().finite(),
        replay(logs)->Some_0.dead + live_len(replay(logs)->Some_0.dir) == total_len(logs),
    decreases logs.len(),
{
    if logs.len() > 0 {
        let head = logs.drop_last();
        assert forall|i: int| 0 <= i < head.len() implies (#[trigger] head[i]).bytes.len()
            <= u64::MAX by {
            assert(head[i] == logs[i]);
        }
        lemma_replay_counts(head);
        assert(logs.last() == logs[logs.len() - 1]);
        lemma_replay_from_counts(logs.last().gen, logs.last().bytes, 0, replay(head)->Some_0);
    }
}

/// One log keeps what the keydir resolves to: if every key that was found
/// before offset `pos` of log `i` points at a record, so does every key that
/// the scan of the rest of the log finds.
proof fn lemma_replay_from_resolves(logs: Seq<Log>, i: int, pos: int, ix: Index)
    requires
        ascending(logs),
        sized(logs),
        0 <= i < logs.len(),
        0 <= pos <= logs[i].bytes.len(),
        resolves(logs, ix.dir),
        replay_from(logs[i].gen, logs[i].bytes, pos, ix) is Some,
    ensures
        resolves(logs, replay_from(logs[i].gen, logs[i].bytes, pos, ix)->Some_0.dir),
    decreases logs[i].bytes.len() - pos,
{
    let gen = logs[i].gen;
    let bytes = logs[i].bytes;
    if pos >= bytes.len() {
    } else {
        let rest = bytes.skip(pos);
        let (record, len) = parse_record(rest)->Some_0;
        lemma_parsed_is_encoded(rest);
        lemma_parse_encoded(record, Seq::<u8>::empty());
        let at = EntryPos { gen, pos: pos as u64, len: len as u64 };
        let next = apply(ix, record, at);
        assert(bytes.subrange(pos, pos + len) =~= rest.subrange(0, len));
        assert(rest.subrange(0, len) + Seq::<u8>::empty() =~= rest.subrange(0, len));
        lemma_log_bytes(logs, i);
        assert forall|k: Seq<char>| #[trigger] next.dir.contains_key(k) implies placed(
            log_bytes(logs, next.dir[k].gen),
            next.dir[k],
            k,
        ) by {
            if record.value is Some && k == record.key {
                assert(next.dir[k] == at);
            } else {
                assert(ix.dir.contains_key(k));
                assert(next.dir[k] == ix.dir[k]);
            }
        }
        lemma_replay_from_resolves(logs, i, pos + len, next);
    }
}

/// The first `n` logs keep what the keydir resolves to.
proof fn lemma_replay_take_resolves(logs: Seq<Log>, n: int)
    requires
        ascending(logs),
        sized(logs),
        0 <= n <= logs.len(),
        replay(logs.take(n)) is Some,
    ensures
        resolves(logs, replay(logs.take(n))->Some_0.dir),
    decreases n,
{
    if n == 0 {
    } else {
        let head = logs.take(n);
        assert(head.drop_last() =~= logs.take(n - 1));
        assert(head.last() == logs[n - 1]);
        lemma_replay_take_resolves(logs, n - 1);
        lemma_replay_from_resolves(logs, n - 1, 0, replay(logs.take(n - 1))->Some_0);
    }
}

/// Every key that recovery finds points at a record of that key with a
/// value: the keydir of a recovered store can be read.
pub proof fn lemma_replay_resolves(logs: Seq<Log>)
    requires
        ascending(logs),
        sized(logs),
        replay(logs) is Some,
    ensures
        resolves(logs, replay(logs)->Some_0.dir),
{
    assert(logs.take(logs.len() as int) =~= logs);
    lemma_replay_take_resolves(logs, logs.len() as int);
}


/// Adds `more` to a count of dead bytes that may have run over already.
fn count_dead(uncompacted: &mut u64, overflow: &mut bool, more: u64)
    ensures
        !*old(overflow) && *old(uncompacted) + more <= u64::MAX ==> !*final(overflow)
            && *final(uncompacted) == *old(uncompacted) + more,
        *old(overflow) || *old(uncompacted) + more > u64::MAX ==> *final(overflow),
{
    match uncompacted.checked_add(more) {
        Some(sum) => {
            *uncompacted = sum;
        },
        None => {
            *overflow = true;
        },
    }
}

/// Scans the log of generation `gen` from where `reader` stands to its end
/// and brings `keydir` up to date with every record: a record with a value
/// takes the place of its key, a tombstone deletes its key. Returns the
/// number of bytes of the log that no key needs any more.
///
/// A record that cannot be read ends the scan with `CorruptRecord`; a count
/// of dead bytes beyond 64 bits ends it with `StorageExhausted`.
pub fn load(gen: u64, reader: &mut LogReader, keydir: &mut KeyDir) -> (r: Result<u64, KvsError>)
    requires
        old(keydir).wf(),
    ensures
        final(keydir).wf(),
        final(reader).source() == old(reader).source(),
        match replay_from(
            gen,
            old(reader).source(),
            old(reader).position() as int,
            Index { dir: old(keydir)@, dead: 0 },
        ) {
            Some(ix) => {
                &&& final(keydir)@ == ix.dir
                &&& final(reader).position() == old(reader).source().len()
                &&& r == (if ix.dead <= u64::MAX {
                    Ok::<u64, KvsError>(ix.dead as u64)
                } else {
                    Err::<u64, KvsError>(KvsError::StorageExhausted)
                })
            },
            None => r == Err::<u64, KvsError>(KvsError::CorruptRecord),
        },
{
    let mut uncompacted: u64 = 0;
    let mut overflow = false;
    let ghost source = reader.source();
    let ghost start = reader.position() as int;
    let ghost first = Index { dir: keydir@, dead: 0 };
    let ghost mut ix = first;

    while !reader.is_at_end()
        invariant
            keydir.wf(),
            reader.source() == source,
            source == old(reader).source(),
            start == old(reader).position(),
            first == (Index { dir: old(keydir)@, dead: 0 }),
            ix.dir == keydir@,
            !overflow ==> ix.dead == uncompacted,
            overflow ==> ix.dead > u64::MAX,
            replay_from(gen, source, start, first) == replay_from(
                gen,
                source,
                reader.position() as int,
                ix,
            ),
        decreases source.len() - reader.position(),
    {
        let pos = reader.pos();
        let ghost rest = reader.remaining();
        let entry = match from_reader(reader) {
            Ok(entry) => entry,
            Err(e) => {
                return Err(e);
            },
        };
        let new_pos = reader.pos();
        proof {
            lemma_parsed_is_encoded(rest);
        }
        let at = EntryPos::from((gen, std::ops::Range { start: pos, end: new_pos }));
        let ghost record = entry@;
        let (key, value) = entry.into_parts();
        match value {
            Some(_) => {
                if let Some(old_entry) = keydir.insert(key, at) {
                    count_dead(&mut uncompacted, &mut overflow, old_entry.len);
                }
            },
            None => {
                if let Some(old_entry) = keydir.remove(&key) {
                    count_dead(&mut uncompacted, &mut overflow, old_entry.len);
                }
                count_dead(&mut uncompacted, &mut overflow, new_pos - pos);
            },
        }
        proof {
            ix = apply(ix, record, at);
        }
    }

    if overflow {
        Err(KvsError::StorageExhausted)
    } else {
        Ok(uncompacted)
    }
}

} // verus!
