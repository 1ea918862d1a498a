//! The storage engine: logs of records, the keydir over them, and
//! compaction.
//!
//! The store holds its logs as bytes. A program that keeps them in a data
//! directory writes each log that `files` hands out into the file that
//! `log_path` names for its generation, deletes the files of the
//! generations that are gone, and opens the store over the logs that it
//! reads from the files that `sorted_gen_list` finds.

use vstd::prelude::*;
use vstd::slice::slice_subrange;
use vstd::utf8::encode_utf8;

use crate::entry::{append_bytes, from_reader, to_writer, value_view, Entry, LogReader};
use crate::entry::{encodable, normalized, parse_record, record_bytes, Record};
use crate::entry::{lemma_parse_encoded, lemma_parsed_is_encoded};
use crate::entry::{lemma_record_len, lemma_text_has_bytes};
use crate::error::KvsError;
use crate::keydir::{dir_of, lens_of, live_len, EntryPos, KeyDir};
use crate::keydir::{lemma_dir_of_agree, lemma_dir_of_dom, lemma_lens_of_agree};
use crate::keydir::lemma_live_len_dir_of;
use crate::recovery::{apply, contents, empty_index, freed, replay, replay_from, total_len};
use crate::recovery::{ascending, extends, has_gen, log_bytes, placed, resolves, sized, value_at};
use crate::recovery::{lemma_log_bytes, lemma_replay_counts, lemma_replay_resolves};
use crate::recovery::{lemma_replay_from_append, lemma_replay_from_dead, lemma_replay_from_one};
use crate::recovery::{lemma_resolves_extends, load, log_views, Index, Log, LogFile};

verus! {

/// The number of dead bytes beyond which a `set` compacts the logs.
pub const COMPACTION_THRESHOLD: u64 = 1024 * 1024;

/// A key-value store which is backed by write-ahead logging.
///
/// The store holds its logs, oldest first; the last one is the log of the
/// current generation, to which records are appended.
pub struct KvStore {
    logs: Vec<LogFile>,
    keydir: KeyDir,
    current_gen: u64,
    uncompacted: u64,
}

impl View for KvStore {
    type V = Map<Seq<char>, Seq<char>>;

    /// The keys of the store with their values.
    open spec fn view(&self) -> Map<Seq<char>, Seq<char>> {
        contents(self.logs(), self.dir())
    }
}

/// A key or a value that `set` does not take: an empty one, or one whose
/// size does not fit the 32 bits that a record has for it.
pub open spec fn unacceptable(key: Seq<char>, value: Seq<char>) -> bool {
    ||| key.len() == 0
    ||| value.len() == 0
    ||| encode_utf8(key).len() > u32::MAX
    ||| encode_utf8(value).len() > u32::MAX
}

/// The value that `held` has for `key`, if it has one.
pub open spec fn lookup(held: Map<Seq<char>, Seq<char>>, key: Seq<char>) -> Option<Seq<char>> {
    if held.contains_key(key) {
        Some(held[key])
    } else {
        None
    }
}

/// The logs after `more` was appended to the last of them.
pub open spec fn appended(logs: Seq<Log>, more: Seq<u8>) -> Seq<Log> {
    logs.update(
        logs.len() - 1,
        Log { gen: logs.last().gen, bytes: logs.last().bytes + more },
    )
}

/// Appending to the last log extends the logs.
pub proof fn lemma_appended_extends(logs: Seq<Log>, more: Seq<u8>)
    requires
        logs.len() >= 1,
        ascending(logs),
    ensures
        ascending(appended(logs, more)),
        extends(logs, appended(logs, more)),
{
    let after = appended(logs, more);
    assert forall|g: u64| #[trigger] log_bytes(logs, g).is_prefix_of(log_bytes(after, g)) by {
        if has_gen(logs, g) {
            let i = choose|i: int| 0 <= i < logs.len() && (#[trigger] logs[i]).gen == g;
            lemma_log_bytes(logs, i);
            assert(after[i].gen == g);
            lemma_log_bytes(after, i);
        }
    }
}

/// A new log of a greater generation extends the logs.
pub proof fn lemma_pushed_extends(logs: Seq<Log>, log: Log)
    requires
        ascending(logs.push(log)),
    ensures
        ascending(logs),
        extends(logs, logs.push(log)),
{
    let after = logs.push(log);
    assert forall|i: int, j: int| 0 <= i < j < logs.len() implies logs[i].gen < logs[j].gen by {
        assert(after[i].gen < after[j].gen);
    }
    assert forall|g: u64| #[trigger] log_bytes(logs, g).is_prefix_of(log_bytes(after, g)) by {
        if has_gen(logs, g) {
            let i = choose|i: int| 0 <= i < logs.len() && (#[trigger] logs[i]).gen == g;
            lemma_log_bytes(logs, i);
            assert(after[i].gen == g);
            lemma_log_bytes(after, i);
        }
    }
}

/// The generation that a store opens on top of `logs`: one more than the
/// last, or 1 where there is none.
pub open spec fn next_generation(logs: Seq<Log>) -> int {
    if logs.len() == 0 {
        1
    } else {
        logs.last().gen + 1
    }
}

/// The place that a record gets which is appended to `logs`.
pub open spec fn place_behind(logs: Seq<Log>, record: Record) -> EntryPos {
    EntryPos {
        gen: logs.last().gen,
        pos: logs.last().bytes.len() as u64,
        len: record_bytes(record).len() as u64,
    }
}

/// The record at `to` in the log `compacted` is the record that stood at
/// `from` in `logs`, byte for byte.
pub open spec fn moved(
    compacted: Seq<u8>,
    logs: Seq<Log>,
    from: EntryPos,
    to: EntryPos,
    gen: u64,
) -> bool {
    &&& to.gen == gen
    &&& to.len == from.len
    &&& to.pos + to.len <= compacted.len()
    &&& compacted.subrange(to.pos as int, to.pos + to.len) == log_bytes(logs, from.gen).subrange(
        from.pos as int,
        from.pos + from.len,
    )
}

/// Appending one record to sound logs: the scan of the new logs applies
/// the record, and every key still points at its record.
pub proof fn lemma_append_record(logs: Seq<Log>, ix: Index, record: Record)
    requires
        logs.len() >= 1,
        ascending(logs),
        sized(logs),
        replay(logs) == Some(ix),
        encodable(record),
        normalized(record) == record,
        logs.last().bytes.len() + record_bytes(record).len() <= u64::MAX,
    ensures
        ({
            let after = appended(logs, record_bytes(record));
            let at = place_behind(logs, record);
            &&& ascending(after)
            &&& sized(after)
            &&& replay(after) == Some(apply(ix, record, at))
            &&& resolves(after, ix.dir)
            &&& contents(after, ix.dir) == contents(logs, ix.dir)
            &&& log_bytes(after, at.gen) == logs.last().bytes + record_bytes(record)
            &&& record.value is Some ==> placed(log_bytes(after, at.gen), at, record.key)
                && value_at(after, at) == record.value->Some_0
        }),
{
    let encoded = record_bytes(record);
    let after = appended(logs, encoded);
    let at = place_behind(logs, record);
    let last = logs.len() - 1;
    let bytes = logs.last().bytes;
    lemma_appended_extends(logs, encoded);
    lemma_replay_resolves(logs);
    lemma_resolves_extends(logs, after, ix.dir);
    assert(after.drop_last() =~= logs.drop_last());
    let before = replay(logs.drop_last())->Some_0;
    lemma_replay_from_append(at.gen, bytes, 0, before, encoded);
    lemma_replay_from_one(at.gen, bytes, record, ix);
    lemma_log_bytes(after, last);
    lemma_parse_encoded(record, Seq::<u8>::empty());
    assert((bytes + encoded).subrange(at.pos as int, at.pos + at.len) =~= encoded + Seq::<
        u8,
    >::empty());
}

/// What compaction makes of a store with the logs `logs`, the keydir `dir`
/// and the current generation `gen`: one log with the live records, which
/// has the next generation, and an empty log of the generation after that
/// for new records. Every key keeps its value and points into the first.
pub open spec fn is_compaction(
    logs: Seq<Log>,
    dir: Map<Seq<char>, EntryPos>,
    gen: u64,
    post: &KvStore,
) -> bool {
    &&& post.generation() == gen + 2
    &&& post.dead() == 0
    &&& post.logs().len() == 2
    &&& post.logs()[0].gen == gen + 1
    &&& post.logs()[1] == (Log { gen: (gen + 2) as u64, bytes: Seq::empty() })
    &&& post.dir().dom() == dir.dom()
    &&& forall|k: Seq<char>| #[trigger]
        dir.contains_key(k) ==> post.dir()[k].gen == gen + 1 && post.dir()[k].len == dir[k].len
    &&& contents(post.logs(), post.dir()) == contents(logs, dir)
}

/// What a `set` of `key` to `value` makes of the store `before`, and what
/// it returns.
///
/// It succeeds unless key or value is unacceptable or the store is at a
/// limit, and a `set` that fails leaves the store as it was. One that
/// succeeds appends the record to the log of the current generation and
/// makes the keydir point at it, so that the store holds `value` for `key`;
/// the record that `key` had is dead from then on. Where the dead bytes
/// then exceed `COMPACTION_THRESHOLD`, the logs are compacted.
pub open spec fn set_result(
    before: KvStore,
    after: KvStore,
    key: Seq<char>,
    value: Seq<char>,
    r: Result<(), KvsError>,
) -> bool {
    match r {
        Ok(()) => {
            let record = Record { key, value: Some(value) };
            let logs = appended(before.logs(), record_bytes(record));
            let dir = before.dir().insert(key, place_behind(before.logs(), record));
            let dead = before.dead() + freed(before.dir(), key);
            &&& !unacceptable(key, value)
            &&& !before.exhausted_by(key)
            &&& after@ == before@.insert(key, value)
            &&& if dead > COMPACTION_THRESHOLD {
                is_compaction(logs, dir, before.generation(), &after)
            } else {
                &&& after.logs() == logs
                &&& after.dir() == dir
                &&& after.dead() == dead
                &&& after.generation() == before.generation()
            }
        },
        Err(e) => {
            &&& after == before
            &&& if unacceptable(key, value) {
                e == KvsError::InvalidArgument
            } else {
                e == KvsError::StorageExhausted && before.exhausted_by(key)
            }
        },
    }
}

/// What a `remove` of `key` makes of the store `before`, and what it
/// returns.
///
/// It fails with `KeyNotFound` exactly where the store does not hold the
/// key, and with `StorageExhausted` where the count of dead bytes would
/// leave 64 bits; a `remove` that fails leaves the store as it was. One
/// that succeeds appends a tombstone to the log of the current generation
/// and takes the key out of the keydir; the record that the key had and
/// the tombstone are dead from then on.
pub open spec fn remove_result(
    before: KvStore,
    after: KvStore,
    key: Seq<char>,
    r: Result<(), KvsError>,
) -> bool {
    let record = Record { key, value: None };
    let dead = before.dead() + freed(before.dir(), key) + record_bytes(record).len();
    match r {
        Ok(()) => {
            &&& before@.contains_key(key)
            &&& dead <= u64::MAX
            &&& after@ == before@.remove(key)
            &&& after.logs() == appended(before.logs(), record_bytes(record))
            &&& after.dir() == before.dir().remove(key)
            &&& after.dead() == dead
            &&& after.generation() == before.generation()
        },
        Err(e) => {
            &&& after == before
            &&& if !before@.contains_key(key) {
                e == KvsError::KeyNotFound
            } else {
                e == KvsError::StorageExhausted && dead > u64::MAX
            }
        },
    }
}

impl KvStore {
    /// The logs of the store, oldest first.
    pub closed spec fn logs(&self) -> Seq<Log> {
        log_views(self.logs@)
    }

    /// The keydir of the store.
    pub closed spec fn dir(&self) -> Map<Seq<char>, EntryPos> {
        self.keydir@
    }

    /// The number of bytes in the logs that no key needs any more.
    pub closed spec fn dead(&self) -> nat {
        self.uncompacted as nat
    }

    /// The generation of the log to which records are appended.
    pub closed spec fn generation(&self) -> u64 {
        self.current_gen
    }

    /// The store is sound: its logs are in order, the last one is that of
    /// the current generation, and a scan of the logs finds the keydir and
    /// the count of dead bytes that the store holds.
    pub closed spec fn wf(&self) -> bool {
        &&& self.keydir.wf()
        &&& self.logs@.len() >= 1
        &&& ascending(self.logs())
        &&& sized(self.logs())
        &&& self.logs().last().gen == self.current_gen
        &&& replay(self.logs()) == Some(
            Index { dir: self.keydir@, dead: self.uncompacted as nat },
        )
    }

    /// The invariants of a sound store: no two logs have the same
    /// generation, and the last log is that of the current generation; the
    /// keydir is what a scan of the logs finds, so that it holds the newest
    /// record of every key; every key of the keydir points at a record that
    /// can be read, which is a record of that key with a value; and every
    /// byte of the logs is live or dead: the records that the keydir points
    /// at and the dead bytes that the store counts are all there is.
    pub proof fn law_soundness(&self)
        requires
            self.wf(),
        ensures
            self.logs().len() >= 1,
            ascending(self.logs()),
            sized(self.logs()),
            self.logs().last().gen == self.generation(),
            replay(self.logs()) == Some(Index { dir: self.dir(), dead: self.dead() }),
            resolves(self.logs(), self.dir()),
            self.dir().dom().finite(),
            self.dead() + self.live_bytes() == self.stored_bytes(),
            self.dead() <= u64::MAX,
    {
        lemma_replay_resolves(self.logs());
        lemma_replay_counts(self.logs());
    }

    /// The number of bytes in all the logs of the store.
    pub open spec fn stored_bytes(&self) -> nat {
        total_len(self.logs())
    }

    /// The number of bytes of the records that the keydir points at.
    pub open spec fn live_bytes(&self) -> nat {
        live_len(self.dir())
    }

    /// Whether a `set` of `key` finds the store at a limit: the count of
    /// dead bytes would leave 64 bits, or the logs would be compacted and
    /// there are no two generation numbers left.
    pub open spec fn exhausted_by(&self, key: Seq<char>) -> bool {
        let dead = self.dead() + freed(self.dir(), key);
        dead > u64::MAX || (dead > COMPACTION_THRESHOLD && self.generation() > u64::MAX - 2)
    }

    /// The index of the log of generation `gen`.
    fn find_log(&self, gen: u64) -> (found: Option<usize>)
        ensures
            match found {
                Some(i) => i < self.logs().len() && self.logs()[i as int].gen == gen,
                None => !has_gen(self.logs(), gen),
            },
    {
        let mut i: usize = 0;
        while i < self.logs.len()
            invariant
                i <= self.logs@.len(),
                self.logs().len() == self.logs@.len(),
                forall|j: int| 0 <= j < i ==> (#[trigger] self.logs()[j]).gen != gen,
            decreases self.logs@.len() - i,
        {
            if self.logs[i].gen == gen {
                return Some(i);
            }
            i += 1;
        }
        None
    }

    /// Returns the value corresponding to the key. If the key doesn't exist,
    /// it returns `None`.
    pub fn get(&self, key: String) -> (r: Result<Option<String>, KvsError>)
        requires
            self.wf(),
        ensures
            r matches Ok(value) && value_view(value) == lookup(self@, key@),
    {
        match self.keydir.get(&key) {
            Some(at) => {
                proof {
                    lemma_replay_resolves(self.logs());
                    assert(self.keydir@.contains_key(key@));
                    assert(placed(log_bytes(self.logs(), at.gen), at, key@));
                    lemma_parsed_is_encoded(
                        log_bytes(self.logs(), at.gen).subrange(at.pos as int, at.pos + at.len),
                    );
                }
                match self.find_log(at.gen) {
                    Some(i) => {
                        let log = &self.logs[i];
                        proof {
                            lemma_log_bytes(self.logs(), i as int);
                            assert(self.logs()[i as int] == log@);
                            assert(log.bytes@.len() == log.bytes.len());
                        }
                        let record = slice_subrange(
                            log.bytes.as_slice(),
                            at.pos as usize,
                            (at.pos + at.len) as usize,
                        );
                        let mut reader = LogReader::new(record);
                        proof {
                            assert(reader.remaining() =~= record@);
                        }
                        match from_reader(&mut reader) {
                            Ok(entry) => Ok(entry.into_parts().1),
                            Err(e) => Err(e),
                        }
                    },
                    None => Err(KvsError::CorruptRecord),
                }
            },
            None => Ok(None),
        }
    }

    /// Sets a key-value pair in the store.
    ///
    /// The record is appended to the log of the current generation and the
    /// keydir points at it. Where the dead bytes then exceed
    /// `COMPACTION_THRESHOLD`, the logs are compacted.
    pub fn set(&mut self, key: String, value: String) -> (r: Result<(), KvsError>)
        requires
            old(self).wf(),
        ensures
            final(self).wf(),
            set_result(*old(self), *final(self), key@, value@, r),
    {
        if key.as_str().is_empty() || value.as_str().is_empty() || key.as_str().as_bytes().len()
            > u32::MAX as usize || value.as_str().as_bytes().len() > u32::MAX as usize {
            return Err(KvsError::InvalidArgument);
        }
        let freed_len = match self.keydir.get(&key) {
            Some(old_entry) => old_entry.len,
            None => 0,
        };
        let dead = match self.uncompacted.checked_add(freed_len) {
            Some(dead) => dead,
            None => {
                return Err(KvsError::StorageExhausted);
            },
        };
        let must_compact = dead > COMPACTION_THRESHOLD;
        if must_compact && self.current_gen > u64::MAX - 2 {
            return Err(KvsError::StorageExhausted);
        }
        let ghost record = Record { key: key@, value: Some(value@) };
        proof {
            lemma_text_has_bytes(value@);
            lemma_record_len(record);
        }
        let entry = Entry::set(key.clone(), value);
        let at = self.append(&entry);
        self.keydir.insert(key, at);
        self.uncompacted = dead;
        proof {
            lemma_append_record(
                old(self).logs(),
                Index { dir: old(self).keydir@, dead: old(self).uncompacted as nat },
                record,
            );
            assert(self@ =~= old(self)@.insert(key@, value@));
        }

        if must_compact {
            self.compact()?;
        }
        Ok(())
    }

    /// Removes a key from the store.
    ///
    /// # Errors
    ///
    /// Trying to remove a nonexistent will result in a
    /// [`KvsError::KeyNotFound`] error.
    pub fn remove(&mut self, key: String) -> (r: Result<(), KvsError>)
        requires
            old(self).wf(),
        ensures
            final(self).wf(),
            remove_result(*old(self), *final(self), key@, r),
    {
        let old_entry = match self.keydir.get(&key) {
            Some(old_entry) => old_entry,
            None => {
                return Err(KvsError::KeyNotFound);
            },
        };
        let ghost record = Record { key: key@, value: None };
        proof {
            lemma_replay_resolves(self.logs());
            assert(self.keydir@.contains_key(key@));
            let bytes = log_bytes(self.logs(), old_entry.gen);
            assert(placed(bytes, old_entry, key@));
            lemma_parsed_is_encoded(
                bytes.subrange(old_entry.pos as int, old_entry.pos + old_entry.len),
            );
            lemma_record_len(record);
        }
        let entry = Entry::remove(key.clone());
        let dead = match self.uncompacted.checked_add(old_entry.len) {
            Some(dead) => match dead.checked_add(entry.durable_len()) {
                Some(dead) => dead,
                None => {
                    return Err(KvsError::StorageExhausted);
                },
            },
            None => {
                return Err(KvsError::StorageExhausted);
            },
        };
        self.append(&entry);
        self.keydir.remove(&key);
        self.uncompacted = dead;
        proof {
            lemma_append_record(
                old(self).logs(),
                Index { dir: old(self).keydir@, dead: old(self).uncompacted as nat },
                record,
            );
            assert(self@ =~= old(self)@.remove(key@));
        }
        Ok(())
    }

    /// Appends the record of `entry` to the log of the current generation
    /// and returns its place.
    fn append(&mut self, entry: &Entry) -> (at: EntryPos)
        requires
            old(self).logs@.len() >= 1,
            old(self).logs().last().gen == old(self).current_gen,
        ensures
            final(self).logs() == appended(old(self).logs(), record_bytes(entry@)),
            final(self).keydir == old(self).keydir,
            final(self).current_gen == old(self).current_gen,
            final(self).uncompacted == old(self).uncompacted,
            at == place_behind(old(self).logs(), entry@),
            old(self).logs().last().bytes.len() + record_bytes(entry@).len() <= u64::MAX,
            encodable(entry@),
    {
        let last = self.logs.len() - 1;
        let pos = self.logs[last].bytes.len() as u64;
        let _ = to_writer(&mut self.logs[last].bytes, entry);
        let new_pos = self.logs[last].bytes.len() as u64;
        proof {
            assert(self.logs() =~= appended(old(self).logs(), record_bytes(entry@)));
        }
        EntryPos::from((self.current_gen, std::ops::Range { start: pos, end: new_pos }))
    }

    /// Compacts write-ahead log.
    ///
    /// The records that the keydir points at are copied into a log of the
    /// generation after the current one, and the keydir points at the
    /// copies; all older logs are dropped, and new records go to a log of
    /// the generation after that.
    pub fn compact(&mut self) -> (r: Result<(), KvsError>)
        requires
            old(self).wf(),
        ensures
            final(self).wf(),
            match r {
                Ok(()) => {
                    &&& old(self).generation() <= u64::MAX - 2
                    &&& final(self)@ == old(self)@
                    &&& is_compaction(
                        old(self).logs(),
                        old(self).dir(),
                        old(self).generation(),
                        final(self),
                    )
                    &&& final(self).stored_bytes() == old(self).live_bytes()
                    &&& final(self).live_bytes() == old(self).live_bytes()
                    &&& final(self).stored_bytes() + old(self).dead() == old(self).stored_bytes()
                },
                Err(e) => {
                    &&& e == KvsError::StorageExhausted
                    &&& old(self).generation() > u64::MAX - 2
                    &&& *final(self) == *old(self)
                },
            },
    {
        if self.current_gen > u64::MAX - 2 {
            return Err(KvsError::StorageExhausted);
        }
        let compaction_gen = self.current_gen + 1;
        let next_gen = self.current_gen + 2;

        let mut compacted: Vec<u8> = Vec::new();
        let n = self.keydir.len();
        let ghost logs0 = self.logs();
        let ghost dir0 = self.keydir@;
        let ghost keys = self.keydir.keys();
        let ghost places0 = self.keydir.places();
        proof {
            lemma_replay_resolves(logs0);
            lemma_replay_counts(logs0);
            assert forall|j: int| 0 <= j < n implies dir0.contains_key(#[trigger] keys[j])
                && dir0[keys[j]] == places0[j] by {
                self.keydir.lemma_slot(j);
            }
            self.keydir.lemma_view_is_dir_of();
            lemma_live_len_dir_of(keys, places0, n as int);
        }
        let mut i: usize = 0;
        while i < n
            invariant
                i <= n,
                n == keys.len(),
                n == places0.len(),
                self.keydir.keys() == keys,
                self.keydir.places().len() == n,
                self.keydir.wf(),
                keys.no_duplicates(),
                self.logs() == logs0,
                self.logs@.len() == logs0.len(),
                ascending(logs0),
                resolves(logs0, dir0),
                compaction_gen == old(self).current_gen + 1,
                forall|j: int| 0 <= j < n ==> dir0.contains_key(#[trigger] keys[j]) && dir0[keys[j]]
                    == places0[j],
                forall|j: int| i <= j < n ==> self.keydir.places()[j] == places0[j],
                forall|j: int|
                    0 <= j < i ==> moved(
                        compacted@,
                        logs0,
                        places0[j],
                        #[trigger] self.keydir.places()[j],
                        compaction_gen,
                    ),
                replay_from(compaction_gen, compacted@, 0, empty_index()) == Some(
                    Index { dir: dir_of(keys, self.keydir.places(), i as int), dead: 0 },
                ),
                compacted@.len() == lens_of(places0, i as int),
                lens_of(places0, n as int) == live_len(dir0),
            decreases n - i,
        {
            let entry_pos = self.keydir.place_at(i);
            let ghost key = keys[i as int];
            let ghost source = log_bytes(logs0, entry_pos.gen);
            let ghost copied = source.subrange(
                entry_pos.pos as int,
                entry_pos.pos + entry_pos.len,
            );
            let ghost before = compacted@;
            let ghost places = self.keydir.places();
            proof {
                assert(dir0.contains_key(keys[i as int]));
                assert(placed(source, entry_pos, key));
                lemma_parsed_is_encoded(copied);
            }
            let new_pos = compacted.len() as u64;
            match self.find_log(entry_pos.gen) {
                Some(found) => {
                    let log = &self.logs[found];
                    proof {
                        lemma_log_bytes(logs0, found as int);
                        assert(logs0[found as int] == log@);
                        assert(log.bytes@.len() == log.bytes.len());
                    }
                    append_bytes(
                        &mut compacted,
                        slice_subrange(
                            log.bytes.as_slice(),
                            entry_pos.pos as usize,
                            (entry_pos.pos + entry_pos.len) as usize,
                        ),
                    );
                },
                None => {
                    proof {
                        assert(false);
                    }
                },
            }
            let to = EntryPos { gen: compaction_gen, pos: new_pos, len: entry_pos.len };
            self.keydir.relocate(i, to);
            proof {
                let (record, len) = parse_record(copied)->Some_0;
                assert(record_bytes(record) =~= copied);
                assert(compacted@.len() == compacted.len());
                let ix = Index { dir: dir_of(keys, places, i as int), dead: 0 };
                lemma_replay_from_append(compaction_gen, before, 0, empty_index(), copied);
                lemma_replay_from_one(compaction_gen, before, record, ix);
                lemma_dir_of_dom(keys, places, i as int, key);
                lemma_dir_of_agree(keys, places, self.keydir.places(), i as int);
                assert(compacted@.subrange(to.pos as int, to.pos + to.len) =~= copied);
                assert forall|j: int| 0 <= j < i implies moved(
                    compacted@,
                    logs0,
                    places0[j],
                    #[trigger] self.keydir.places()[j],
                    compaction_gen,
                ) by {
                    let was = places[j];
                    assert(moved(before, logs0, places0[j], was, compaction_gen));
                    assert(compacted@.subrange(was.pos as int, was.pos + was.len)
                        =~= before.subrange(was.pos as int, was.pos + was.len));
                }
            }
            i += 1;
        }

        let ghost places = self.keydir.places();
        let mut logs: Vec<LogFile> = Vec::new();
        logs.push(LogFile { gen: compaction_gen, bytes: compacted });
        logs.push(LogFile { gen: next_gen, bytes: Vec::new() });
        self.logs = logs;
        self.current_gen = next_gen;
        self.uncompacted = 0;

        proof {
            let first = Log { gen: compaction_gen, bytes: compacted@ };
            let second = Log { gen: next_gen, bytes: Seq::<u8>::empty() };
            let after = self.logs();
            assert(after =~= seq![first, second]);
            assert(compacted@.len() == compacted.len());
            assert(after.drop_last() =~= seq![first]);
            assert(seq![first].drop_last() =~= Seq::<Log>::empty());
            assert(replay(Seq::<Log>::empty()) == Some(empty_index()));
            assert(replay(seq![first]) == replay_from(
                compaction_gen,
                compacted@,
                0,
                empty_index(),
            ));
            self.keydir.lemma_view_is_dir_of();
            assert(replay(after) == Some(Index { dir: self.keydir@, dead: 0 }));
            lemma_log_bytes(after, 0);
            assert(self.keydir@.dom() =~= dir0.dom());
            assert forall|k: Seq<char>| #[trigger] dir0.contains_key(k) implies self.keydir@[k].gen
                == compaction_gen && self.keydir@[k].len == dir0[k].len && value_at(
                after,
                self.keydir@[k],
            ) == value_at(logs0, dir0[k]) by {
                let j = keys.index_of(k);
                assert(keys[j] == k);
                self.keydir.lemma_slot(j);
                assert(moved(compacted@, logs0, places0[j], places[j], compaction_gen));
            }
            assert(contents(after, self.keydir@) =~= contents(logs0, dir0));
            assert(total_len(Seq::<Log>::empty()) == 0);
            assert(total_len(seq![first]) == compacted@.len());
            assert(total_len(after) == compacted@.len());
            lemma_lens_of_agree(places, places0, n as int);
            lemma_live_len_dir_of(keys, places, n as int);
        }
        Ok(())
    }

    /// Opens a store over the logs of a data directory: scans them in the
    /// order of their generations, rebuilds the keydir, and starts a new
    /// log of the generation after the last.
    ///
    /// # Errors
    ///
    /// `InvalidArgument` where the generations do not grow strictly from
    /// log to log; `CorruptRecord` where a record cannot be read;
    /// `StorageExhausted` where the dead bytes are beyond 64 bits or no
    /// generation number is left.
    pub fn open(files: Vec<LogFile>) -> (r: Result<KvStore, KvsError>)
        ensures
            match r {
                Ok(store) => {
                    &&& store.wf()
                    &&& ascending(log_views(files@))
                    &&& replay(log_views(files@)) == Some(
                        Index { dir: store.dir(), dead: store.dead() },
                    )
                    &&& store.generation() == next_generation(log_views(files@))
                    &&& store.logs() == log_views(files@).push(
                        Log { gen: store.generation(), bytes: Seq::empty() },
                    )
                    &&& store@ == contents(log_views(files@), store.dir())
                },
                Err(e) => {
                    if !ascending(log_views(files@)) {
                        e == KvsError::InvalidArgument
                    } else {
                        match replay(log_views(files@)) {
                            None => e == KvsError::CorruptRecord,
                            Some(ix) => {
                                &&& e == KvsError::StorageExhausted
                                &&& (ix.dead > u64::MAX || next_generation(log_views(files@))
                                    > u64::MAX)
                            },
                        }
                    }
                },
            },
    {
        let ghost given = log_views(files@);
        if !is_ascending(&files) {
            return Err(KvsError::InvalidArgument);
        }
        let mut keydir = KeyDir::new();
        let mut uncompacted: u64 = 0;
        let mut overflow = false;
        let ghost mut ix = empty_index();

        let mut i: usize = 0;
        while i < files.len()
            invariant
                i <= files@.len(),
                given == log_views(files@),
                ascending(given),
                keydir.wf(),
                replay(given.take(i as int)) == Some(ix),
                ix.dir == keydir@,
                !overflow ==> ix.dead == uncompacted,
                overflow ==> ix.dead > u64::MAX,
            ensures
                i == files@.len(),
            decreases files@.len() - i,
        {
            let file = &files[i];
            let mut reader = LogReader::new(file.bytes.as_slice());
            let ghost head = given.take(i + 1);
            proof {
                assert(head.drop_last() =~= given.take(i as int));
                assert(head.last() == file@);
                lemma_replay_from_dead(
                    file.gen,
                    file.bytes@,
                    0,
                    Index { dir: ix.dir, dead: 0 },
                    ix.dead,
                );
            }
            match load(file.gen, &mut reader, &mut keydir) {
                Ok(dead) => match uncompacted.checked_add(dead) {
                    Some(sum) => {
                        uncompacted = sum;
                    },
                    None => {
                        overflow = true;
                    },
                },
                Err(KvsError::StorageExhausted) => {
                    overflow = true;
                },
                Err(e) => {
                    proof {
                        lemma_replay_none(given, i + 1);
                    }
                    return Err(e);
                },
            }
            proof {
                ix = replay(head)->Some_0;
            }
            i += 1;
        }
        proof {
            assert(given.take(i as int) =~= given);
        }
        if overflow {
            return Err(KvsError::StorageExhausted);
        }
        let current_gen = if files.len() == 0 {
            1
        } else {
            match files[files.len() - 1].gen.checked_add(1) {
                Some(next) => next,
                None => {
                    return Err(KvsError::StorageExhausted);
                },
            }
        };
        let mut logs = files;
        logs.push(LogFile { gen: current_gen, bytes: Vec::new() });
        let store = KvStore { logs, keydir, current_gen, uncompacted };
        proof {
            let fresh = Log { gen: current_gen, bytes: Seq::<u8>::empty() };
            let after = store.logs();
            assert(after =~= given.push(fresh));
            assert(after.drop_last() =~= given);
            assert(ascending(after));
            assert forall|j: int| 0 <= j < after.len() implies (#[trigger] after[j]).bytes.len()
                <= u64::MAX by {
                assert(store.logs@[j].bytes@.len() == store.logs@[j].bytes.len());
            }
            lemma_pushed_extends(given, fresh);
            assert(sized(given)) by {
                assert forall|j: int| 0 <= j < given.len() implies (#[trigger] given[j]).bytes.len()
                    <= u64::MAX by {
                    assert(given[j] == after[j]);
                }
            }
            lemma_replay_resolves(given);
            lemma_resolves_extends(given, after, store.keydir@);
        }
        Ok(store)
    }

    /// The logs of the store, oldest first; the last is the log of the
    /// current generation.
    pub fn files(&self) -> (files: &Vec<LogFile>)
        ensures
            log_views(files@) == self.logs(),
    {
        &self.logs
    }

    /// Closes the store and hands out its logs, oldest first.
    pub fn into_files(self) -> (files: Vec<LogFile>)
        ensures
            log_views(files@) == self.logs(),
    {
        self.logs
    }

    /// The generation of the log to which records are appended.
    pub fn current_gen(&self) -> (gen: u64)
        ensures
            gen == self.generation(),
    {
        self.current_gen
    }

    /// The number of bytes in the logs that compaction would reclaim.
    pub fn uncompacted(&self) -> (dead: u64)
        ensures
            dead == self.dead(),
    {
        self.uncompacted
    }
}

/// Round trip: after a `set` of `key` to `value`, a `get` of `key` returns
/// `value`.
pub proof fn law_set_get(before: KvStore, after: KvStore, key: Seq<char>, value: Seq<char>)
    requires
        after@ == before@.insert(key, value),
    ensures
        lookup(after@, key) == Some(value),
{
}

/// A `set` leaves every other key as it was.
pub proof fn law_set_keeps_others(
    before: KvStore,
    after: KvStore,
    key: Seq<char>,
    value: Seq<char>,
    other: Seq<char>,
)
    requires
        after@ == before@.insert(key, value),
        other != key,
    ensures
        lookup(after@, other) == lookup(before@, other),
{
}

/// Overwrite: after a `set` of `key` to `first` and a `set` of `key` to
/// `second`, a `get` of `key` returns `second`.
pub proof fn law_overwrite(
    before: KvStore,
    between: KvStore,
    after: KvStore,
    key: Seq<char>,
    first: Seq<char>,
    second: Seq<char>,
)
    requires
        between@ == before@.insert(key, first),
        after@ == between@.insert(key, second),
    ensures
        lookup(after@, key) == Some(second),
        after@ == before@.insert(key, second),
{
    assert(after@ =~= before@.insert(key, second));
}

/// Remove: after a `set` and a `remove` of `key`, a `get` of `key` returns
/// nothing, and the store does not hold the key, so that a second `remove`
/// fails with `KeyNotFound`.
pub proof fn law_remove(
    before: KvStore,
    between: KvStore,
    after: KvStore,
    key: Seq<char>,
    value: Seq<char>,
)
    requires
        between@ == before@.insert(key, value),
        after@ == between@.remove(key),
    ensures
        lookup(after@, key) == None::<Seq<char>>,
        !after@.contains_key(key),
{
}

/// Durability and recovery: a store that is opened over the logs of a
/// sound store has the keydir, the count of dead bytes and the contents of
/// that store, whatever was set, removed and compacted before.
///
/// The second and third premise are what `open` ensures of the store that
/// it returns for the logs of `store`.
pub proof fn law_reopen(store: KvStore, reopened: KvStore)
    requires
        store.wf(),
        replay(store.logs()) == Some(Index { dir: reopened.dir(), dead: reopened.dead() }),
        reopened@ == contents(store.logs(), reopened.dir()),
    ensures
        reopened.dir() == store.dir(),
        reopened.dead() == store.dead(),
        reopened@ == store@,
{
}

/// Whether the generations grow strictly from log to log.
fn is_ascending(files: &Vec<LogFile>) -> (b: bool)
    ensures
        b == ascending(log_views(files@)),
{
    let ghost logs = log_views(files@);
    let mut i: usize = 1;
    while i < files.len()
        invariant
            1 <= i,
            logs == log_views(files@),
            forall|a: int, b: int| 0 <= a < b < i && b < logs.len() ==> logs[a].gen < logs[b].gen,
        decreases files@.len() - i,
    {
        if files[i - 1].gen >= files[i].gen {
            assert(logs[i - 1].gen >= logs[i as int].gen);
            return false;
        }
        assert forall|a: int, b: int| 0 <= a < b < i + 1 && b < logs.len() implies logs[a].gen
            < logs[b].gen by {
            if b == i {
                if a < i - 1 {
                    assert(logs[a].gen < logs[i - 1].gen);
                }
            }
        }
        i += 1;
    }
    true
}

/// Logs of which the first `n` cannot be read cannot be read as a whole.
proof fn lemma_replay_none(logs: Seq<Log>, n: int)
    requires
        0 <= n <= logs.len(),
        replay(logs.take(n)) is None,
    ensures
        replay(logs) is None,
    decreases logs.len() - n,
{
    if n < logs.len() {
        let head = logs.take(n + 1);
        assert(head.drop_last() =~= logs.take(n));
        lemma_replay_none(logs, n + 1);
    } else {
        assert(logs.take(n) =~= logs);
    }
}

} // verus!
