//! The keydir: the in-memory index from each key to the place of its newest
//! record.

use vstd::prelude::*;
use vstd::utf8::encode_utf8;

use crate::entry::{checksum, crc32_checksum};

verus! {

/// The number of buckets into which the keydir sorts its keys.
pub const BUCKETS: usize = 4096;

/// The bucket of a key: the checksum of its bytes, modulo the number of
/// buckets.
pub open spec fn bucket_of(key: Seq<char>) -> int {
    crc32_checksum(encode_utf8(key)) as int % (BUCKETS as int)
}

/// Where a record stands: the generation of its log, the offset of its first
/// byte, and its length.
#[derive(Clone, Copy, Debug, PartialEq, Eq)]
pub struct EntryPos {
    pub gen: u64,
    pub pos: u64,
    pub len: u64,
}

impl EntryPos {
    /// The place of the record that takes the bytes of `range` in the log of
    /// generation `gen`.
    pub fn from(place: (u64, std::ops::Range<u64>)) -> (at: EntryPos)
        requires
            place.1.start <= place.1.end,
        ensures
            at == (EntryPos {
                gen: place.0,
                pos: place.1.start,
                len: (place.1.end - place.1.start) as u64,
            }),
    {
        let (gen, range) = place;
        EntryPos { gen, pos: range.start, len: range.end - range.start }
    }
}

/// The map that takes each of the first `n` keys to the place beside it.
pub open spec fn dir_of(keys: Seq<Seq<char>>, places: Seq<EntryPos>, n: int) -> Map<
    Seq<char>,
    EntryPos,
>
    decreases n,
{
    if n <= 0 {
        Map::empty()
    } else {
        dir_of(keys, places, n - 1).insert(keys[n - 1], places[n - 1])
    }
}

/// The sum of the lengths of the first `n` places.
pub open spec fn lens_of(places: Seq<EntryPos>, n: int) -> nat
    decreases n,
{
    if n <= 0 {
        0
    } else {
        lens_of(places, n - 1) + places[n - 1].len as nat
    }
}

/// The map of the first `n` keys holds exactly those keys.
pub proof fn lemma_dir_of_dom(keys: Seq<Seq<char>>, places: Seq<EntryPos>, n: int, k: Seq<char>)
    requires
        0 <= n <= keys.len(),
    ensures
        dir_of(keys, places, n).contains_key(k) <==> exists|j: int| 0 <= j < n && keys[j] == k,
    decreases n,
{
    if n > 0 {
        lemma_dir_of_dom(keys, places, n - 1, k);
        if keys[n - 1] == k {
        }
    }
}

/// Among keys that do not repeat, the map of the first `n` keys takes each
/// to its own place.
pub proof fn lemma_dir_of_at(keys: Seq<Seq<char>>, places: Seq<EntryPos>, n: int, j: int)
    requires
        0 <= j < n <= keys.len(),
        keys.no_duplicates(),
    ensures
        dir_of(keys, places, n).contains_key(keys[j]),
        dir_of(keys, places, n)[keys[j]] == places[j],
    decreases n,
{
    if j < n - 1 {
        lemma_dir_of_at(keys, places, n - 1, j);
    }
}

/// The map of the first `n` keys looks at the first `n` places only.
pub proof fn lemma_dir_of_agree(
    keys: Seq<Seq<char>>,
    a: Seq<EntryPos>,
    b: Seq<EntryPos>,
    n: int,
)
    requires
        forall|j: int| 0 <= j < n ==> a[j] == b[j],
    ensures
        dir_of(keys, a, n) == dir_of(keys, b, n),
    decreases n,
{
    if n > 0 {
        lemma_dir_of_agree(keys, a, b, n - 1);
    }
}

/// The sum of the first `n` lengths looks at the first `n` places only.
pub proof fn lemma_lens_of_agree(a: Seq<EntryPos>, b: Seq<EntryPos>, n: int)
    requires
        forall|j: int| 0 <= j < n ==> a[j].len == b[j].len,
    ensures
        lens_of(a, n) == lens_of(b, n),
    decreases n,
{
    if n > 0 {
        lemma_lens_of_agree(a, b, n - 1);
    }
}

/// The number of bytes of the records that a keydir points at: the sum of
/// the lengths of its places.
pub open spec fn live_len(dir: Map<Seq<char>, EntryPos>) -> nat
    decreases dir.dom().len(),
    when dir.dom().finite()
{
    if dir.dom().len() == 0 {
        0
    } else {
        let k = dir.dom().choose();
        dir[k].len as nat + live_len(dir.remove(k))
    }
}

/// The sum of the lengths can be taken key by key in any order.
pub proof fn lemma_live_len_pick(dir: Map<Seq<char>, EntryPos>, k: Seq<char>)
    requires
        dir.dom().finite(),
        dir.contains_key(k),
    ensures
        live_len(dir) == dir[k].len + live_len(dir.remove(k)),
    decreases dir.dom().len(),
{
    let c = dir.dom().choose();
    if c != k {
        lemma_live_len_pick(dir.remove(c), k);
        lemma_live_len_pick(dir.remove(k), c);
        assert(dir.remove(c).remove(k) =~= dir.remove(k).remove(c));
    }
}

/// A new place for a key adds its length and takes away that of the place
/// that the key had.
pub proof fn lemma_live_len_insert(dir: Map<Seq<char>, EntryPos>, k: Seq<char>, at: EntryPos)
    requires
        dir.dom().finite(),
    ensures
        dir.insert(k, at).dom().finite(),
        live_len(dir.insert(k, at)) + (if dir.contains_key(k) {
            dir[k].len as int
        } else {
            0
        }) == live_len(dir) + at.len,
{
    let after = dir.insert(k, at);
    lemma_live_len_pick(after, k);
    assert(after.remove(k) =~= dir.remove(k));
    if dir.contains_key(k) {
        lemma_live_len_pick(dir, k);
    } else {
        assert(dir.remove(k) =~= dir);
    }
}

/// A key that leaves takes the length of its place with it.
pub proof fn lemma_live_len_remove(dir: Map<Seq<char>, EntryPos>, k: Seq<char>)
    requires
        dir.dom().finite(),
    ensures
        dir.remove(k).dom().finite(),
        live_len(dir.remove(k)) + (if dir.contains_key(k) {
            dir[k].len as int
        } else {
            0
        }) == live_len(dir),
{
    if dir.contains_key(k) {
        lemma_live_len_pick(dir, k);
    } else {
        assert(dir.remove(k) =~= dir);
    }
}

/// Among keys that do not repeat, the lengths of the first `n` places sum
/// up to the live bytes of the map of the first `n` keys.
pub proof fn lemma_live_len_dir_of(keys: Seq<Seq<char>>, places: Seq<EntryPos>, n: int)
    requires
        0 <= n <= keys.len(),
        keys.no_duplicates(),
    ensures
        dir_of(keys, places, n).dom().finite(),
        live_len(dir_of(keys, places, n)) == lens_of(places, n),
    decreases n,
{
    if n > 0 {
        lemma_live_len_dir_of(keys, places, n - 1);
        lemma_dir_of_dom(keys, places, n - 1, keys[n - 1]);
        lemma_live_len_insert(dir_of(keys, places, n - 1), keys[n - 1], places[n - 1]);
    }
}

/// One key of the keydir with the place of its record.
struct Slot {
    key: String,
    at: EntryPos,
}

/// Whether a bucket lists slot `j`.
spec fn lists(bucket: Seq<usize>, j: int) -> bool {
    exists|e: int| 0 <= e < bucket.len() && #[trigger] bucket[e] == j
}

/// The entry `e` of bucket `b` is one of the slots, and its key belongs to
/// `b`.
spec fn entry_in(index: Seq<Vec<usize>>, slots: Seq<Slot>, b: int, e: int) -> bool {
    &&& index[b]@[e] < slots.len()
    &&& bucket_of(slots[index[b]@[e] as int].key@) == b
}

/// Slot `j` is listed in the bucket of its key.
spec fn listed_in(index: Seq<Vec<usize>>, slots: Seq<Slot>, j: int) -> bool {
    lists(index[bucket_of(slots[j].key@)]@, j)
}

/// The index from keys to the places of their newest records. No key
/// occurs twice.
///
/// The keys stand in slots, in the order in which they came. To find a key
/// without a walk over all slots, each slot is listed in the bucket of its
/// key.
pub struct KeyDir {
    slots: Vec<Slot>,
    index: Vec<Vec<usize>>,
}

impl View for KeyDir {
    type V = Map<Seq<char>, EntryPos>;

    open spec fn view(&self) -> Map<Seq<char>, EntryPos> {
        Map::new(
            |k: Seq<char>| self.keys().contains(k),
            |k: Seq<char>| self.places()[self.keys().index_of(k)],
        )
    }
}

impl KeyDir {
    /// The keys in the order in which the keydir is walked.
    pub closed spec fn keys(&self) -> Seq<Seq<char>> {
        Seq::new(self.slots@.len(), |i: int| self.slots@[i].key@)
    }

    /// The places of the keys, in the same order.
    pub closed spec fn places(&self) -> Seq<EntryPos> {
        Seq::new(self.slots@.len(), |i: int| self.slots@[i].at)
    }

    /// The entry `e` of bucket `b` is a slot whose key belongs to `b`.
    spec fn entry_ok(&self, b: int, e: int) -> bool {
        entry_in(self.index@, self.slots@, b, e)
    }

    /// Bucket `b` lists no slot twice.
    spec fn bucket_ok(&self, b: int) -> bool {
        self.index@[b]@.no_duplicates()
    }

    /// Slot `j` is listed in the bucket of its key.
    spec fn listed(&self, j: int) -> bool {
        listed_in(self.index@, self.slots@, j)
    }

    /// Every slot is listed once, in the bucket of its key.
    pub closed spec fn indexed(&self) -> bool {
        &&& self.index@.len() == BUCKETS
        &&& forall|b: int, e: int|
            0 <= b < self.index@.len() && 0 <= e < self.index@[b]@.len() ==> #[trigger] self.entry_ok(
                b,
                e,
            )
        &&& forall|b: int| 0 <= b < self.index@.len() ==> #[trigger] self.bucket_ok(b)
        &&& forall|j: int| 0 <= j < self.slots@.len() ==> #[trigger] self.listed(j)
    }

    /// No key occurs twice, and every key can be found.
    pub open spec fn wf(&self) -> bool {
        &&& self.keys().no_duplicates()
        &&& self.keys().len() == self.places().len()
        &&& self.indexed()
    }

    /// In a well-formed keydir the key of each slot maps to the place of
    /// that slot.
    pub proof fn lemma_slot(&self, i: int)
        requires
            self.wf(),
            0 <= i < self.keys().len(),
        ensures
            self@.contains_key(self.keys()[i]),
            self@[self.keys()[i]] == self.places()[i],
    {
        let k = self.keys()[i];
        assert(self.keys().contains(k));
        let j = self.keys().index_of(k);
        assert(0 <= j < self.keys().len() && self.keys()[j] == k);
    }

    /// A well-formed keydir is the map of all its slots.
    pub proof fn lemma_view_is_dir_of(&self)
        requires
            self.wf(),
        ensures
            self@ == dir_of(self.keys(), self.places(), self.keys().len() as int),
    {
        let n = self.keys().len() as int;
        let folded = dir_of(self.keys(), self.places(), n);
        assert forall|k: Seq<char>| self@.contains_key(k) == folded.contains_key(k) by {
            lemma_dir_of_dom(self.keys(), self.places(), n, k);
        }
        assert forall|k: Seq<char>| self@.contains_key(k) implies #[trigger] self@[k]
            == folded[k] by {
            let j = self.keys().index_of(k);
            assert(self.keys()[j] == k);
            lemma_dir_of_at(self.keys(), self.places(), n, j);
        }
        assert(self@ =~= folded);
    }

    /// An empty keydir.
    pub fn new() -> (dir: KeyDir)
        ensures
            dir.wf(),
            dir@ == Map::<Seq<char>, EntryPos>::empty(),
            dir.keys().len() == 0,
    {
        let mut index: Vec<Vec<usize>> = Vec::new();
        let mut b: usize = 0;
        while b < BUCKETS
            invariant
                b <= BUCKETS,
                index@.len() == b,
                forall|i: int| 0 <= i < b ==> (#[trigger] index@[i])@.len() == 0,
            decreases BUCKETS - b,
        {
            index.push(Vec::new());
            b += 1;
        }
        let dir = KeyDir { slots: Vec::new(), index };
        proof {
            assert(dir@ =~= Map::<Seq<char>, EntryPos>::empty());
            assert forall|b: int| 0 <= b < dir.index@.len() implies #[trigger] dir.bucket_ok(b) by {
                assert(dir.index@[b]@.len() == 0);
            }
        }
        dir
    }

    /// The number of keys.
    pub fn len(&self) -> (n: usize)
        ensures
            n == self.keys().len(),
            n == self.places().len(),
    {
        self.slots.len()
    }

    /// The key of the `i`-th slot.
    pub fn key_at(&self, i: usize) -> (key: &String)
        requires
            i < self.keys().len(),
        ensures
            key@ == self.keys()[i as int],
    {
        &self.slots[i].key
    }

    /// The place of the `i`-th slot.
    pub fn place_at(&self, i: usize) -> (at: EntryPos)
        requires
            i < self.keys().len(),
        ensures
            at == self.places()[i as int],
    {
        self.slots[i].at
    }

    /// Gives the `i`-th key a new place.
    pub fn relocate(&mut self, i: usize, at: EntryPos)
        requires
            i < old(self).keys().len(),
        ensures
            final(self).keys() == old(self).keys(),
            final(self).places() == old(self).places().update(i as int, at),
            old(self).wf() ==> final(self).wf(),
    {
        self.slots[i].at = at;
        proof {
            assert(self.keys() =~= old(self).keys());
            assert(self.places() =~= old(self).places().update(i as int, at));
            if old(self).wf() {
                self.lemma_same_keys(*old(self));
            }
        }
    }

    /// A keydir with the keys and the buckets of an indexed keydir is
    /// indexed.
    proof fn lemma_same_keys(&self, was: KeyDir)
        requires
            was.indexed(),
            self.index == was.index,
            self.keys() == was.keys(),
        ensures
            self.indexed(),
    {
        assert(self.slots@.len() == self.keys().len());
        assert(was.slots@.len() == was.keys().len());
        assert forall|j: int| 0 <= j < self.slots@.len() implies self.slots@[j].key@
            == was.slots@[j].key@ by {
            assert(self.keys()[j] == was.keys()[j]);
        }
        assert forall|b: int, e: int|
            0 <= b < self.index@.len() && 0 <= e < self.index@[b]@.len() implies #[trigger] self.entry_ok(
            b,
            e,
        ) by {
            assert(was.entry_ok(b, e));
        }
        assert forall|b: int| 0 <= b < self.index@.len() implies #[trigger] self.bucket_ok(b) by {
            assert(was.bucket_ok(b));
        }
        assert forall|j: int| 0 <= j < self.slots@.len() implies #[trigger] self.listed(j) by {
            assert(was.listed(j));
        }
    }

    /// The bucket of `key`.
    fn bucket(key: &String) -> (b: usize)
        ensures
            b == bucket_of(key@),
            b < BUCKETS,
    {
        (checksum(key.as_str().as_bytes()) as usize) % BUCKETS
    }

    /// The slot that holds `key`, if any does.
    fn find(&self, key: &String) -> (found: Option<usize>)
        requires
            self.indexed(),
        ensures
            match found {
                Some(i) => i < self.keys().len() && self.keys()[i as int] == key@,
                None => !self.keys().contains(key@),
            },
    {
        let b = KeyDir::bucket(key);
        let bucket = &self.index[b];
        let mut e: usize = 0;
        while e < bucket.len()
            invariant
                e <= bucket@.len(),
                self.indexed(),
                b == bucket_of(key@),
                *bucket == self.index@[b as int],
                forall|d: int| 0 <= d < e ==> self.keys()[bucket@[d] as int] != key@,
            decreases bucket@.len() - e,
        {
            assert(self.entry_ok(b as int, e as int));
            let j = bucket[e];
            if self.slots[j].key == *key {
                return Some(j);
            }
            e += 1;
        }
        proof {
            if self.keys().contains(key@) {
                let j = choose|j: int| 0 <= j < self.keys().len() && self.keys()[j] == key@;
                assert(self.listed(j));
                let d = choose|d: int| 0 <= d < bucket@.len() && #[trigger] bucket@[d] == j;
                assert(self.keys()[bucket@[d] as int] != key@);
            }
        }
        None
    }

    /// The entry of `bucket` that lists slot `j`.
    fn entry_of(bucket: &Vec<usize>, j: usize) -> (e: usize)
        requires
            lists(bucket@, j as int),
        ensures
            e < bucket@.len(),
            bucket@[e as int] == j,
    {
        let mut e: usize = 0;
        while e < bucket.len() && bucket[e] != j
            invariant
                e <= bucket@.len(),
                forall|d: int| 0 <= d < e ==> bucket@[d] != j,
            decreases bucket@.len() - e,
        {
            e += 1;
        }
        e
    }

    /// Whether the keydir holds `key`.
    pub fn contains_key(&self, key: &String) -> (held: bool)
        requires
            self.wf(),
        ensures
            held == self@.contains_key(key@),
    {
        self.find(key).is_some()
    }

    /// The place of the newest record of `key`.
    pub fn get(&self, key: &String) -> (at: Option<EntryPos>)
        requires
            self.wf(),
        ensures
            at == (if self@.contains_key(key@) {
                Some(self@[key@])
            } else {
                None
            }),
    {
        match self.find(key) {
            Some(i) => {
                proof {
                    self.lemma_slot(i as int);
                }
                Some(self.slots[i].at)
            },
            None => None,
        }
    }

    /// Maps `key` to `at` and returns the place that it had.
    pub fn insert(&mut self, key: String, at: EntryPos) -> (prior: Option<EntryPos>)
        requires
            old(self).wf(),
        ensures
            final(self).wf(),
            final(self)@ == old(self)@.insert(key@, at),
            prior == (if old(self)@.contains_key(key@) {
                Some(old(self)@[key@])
            } else {
                None
            }),
    {
        match self.find(&key) {
            Some(i) => {
                let prior = self.slots[i].at;
                self.slots[i].at = at;
                proof {
                    old(self).lemma_slot(i as int);
                    assert(self.keys() =~= old(self).keys());
                    assert(self.places() =~= old(self).places().update(i as int, at));
                    self.lemma_same_keys(*old(self));
                    assert forall|k: Seq<char>| self@.contains_key(k) implies #[trigger] self@[k]
                        == old(self)@.insert(key@, at)[k] by {
                        let j = self.keys().index_of(k);
                        assert(self.keys()[j] == k);
                    }
                    assert(self@ =~= old(self)@.insert(key@, at));
                }
                Some(prior)
            },
            None => {
                let ghost n = self.slots@.len() as int;
                let b = KeyDir::bucket(&key);
                let slot = self.slots.len();
                self.slots.push(Slot { key, at });
                self.index[b].push(slot);
                proof {
                    assert(self.keys() =~= old(self).keys().push(key@));
                    assert(self.places() =~= old(self).places().push(at));
                    assert(self.keys()[n] == key@);
                    assert forall|k: Seq<char>| self@.contains_key(k) implies #[trigger] self@[k]
                        == old(self)@.insert(key@, at)[k] && old(self)@.insert(
                        key@,
                        at,
                    ).contains_key(k) by {
                        let j = self.keys().index_of(k);
                        assert(self.keys()[j] == k);
                        if j < n {
                            assert(old(self).keys()[j] == k);
                            let j0 = old(self).keys().index_of(k);
                            assert(old(self).keys()[j0] == k);
                            assert(self.keys()[j0] == k);
                        }
                    }
                    assert forall|k: Seq<char>|
                        old(self)@.insert(key@, at).contains_key(k) implies self@.contains_key(
                        k,
                    ) by {
                        if k != key@ {
                            let j0 = old(self).keys().index_of(k);
                            assert(old(self).keys()[j0] == k);
                            assert(self.keys()[j0] == k);
                        }
                    }
                    assert(self@ =~= old(self)@.insert(key@, at));
                    self.lemma_pushed(*old(self), b as int);
                }
                None
            },
        }
    }

    /// A slot that is pushed and listed at the end of the bucket of its key
    /// keeps the keydir indexed.
    proof fn lemma_pushed(&self, was: KeyDir, b: int)
        requires
            was.indexed(),
            0 <= b < was.index@.len(),
            self.slots@.len() == was.slots@.len() + 1,
            forall|j: int| 0 <= j < was.slots@.len() ==> self.slots@[j] == was.slots@[j],
            bucket_of(self.slots@[was.slots@.len() as int].key@) == b,
            self.index@.len() == was.index@.len(),
            forall|c: int| 0 <= c < was.index@.len() && c != b ==> self.index@[c] == was.index@[c],
            was.slots@.len() <= usize::MAX,
            self.index@[b]@ == was.index@[b]@.push(was.slots@.len() as usize),
        ensures
            self.indexed(),
    {
        let n = was.slots@.len() as int;
        assert forall|c: int, e: int|
            0 <= c < self.index@.len() && 0 <= e < self.index@[c]@.len() implies #[trigger] self.entry_ok(
            c,
            e,
        ) by {
            if c == b && e == was.index@[b]@.len() {
            } else {
                assert(was.entry_ok(c, e));
            }
        }
        assert forall|c: int| 0 <= c < self.index@.len() implies #[trigger] self.bucket_ok(c) by {
            assert(was.bucket_ok(c));
            if c == b {
                let bucket = self.index@[b]@;
                assert forall|d: int, e: int|
                    0 <= d < bucket.len() && 0 <= e < bucket.len() && d != e implies bucket[d]
                    != bucket[e] by {
                    if d < was.index@[b]@.len() {
                        assert(was.entry_ok(b, d));
                    }
                    if e < was.index@[b]@.len() {
                        assert(was.entry_ok(b, e));
                    }
                }
            }
        }
        assert forall|j: int| 0 <= j < self.slots@.len() implies #[trigger] self.listed(j) by {
            let c = bucket_of(self.slots@[j].key@);
            if j < n {
                assert(was.listed(j));
                let e = choose|e: int|
                    0 <= e < was.index@[c]@.len() && #[trigger] was.index@[c]@[e] == j;
                assert(self.index@[c]@[e] == j);
            } else {
                assert(self.index@[b]@[was.index@[b]@.len() as int] == j);
            }
        }
    }

    /// Takes `key` out and returns the place that it had.
    pub fn remove(&mut self, key: &String) -> (prior: Option<EntryPos>)
        requires
            old(self).wf(),
        ensures
            final(self).wf(),
            final(self)@ == old(self)@.remove(key@),
            prior == (if old(self)@.contains_key(key@) {
                Some(old(self)@[key@])
            } else {
                None
            }),
    {
        match self.find(key) {
            Some(i) => {
                let ghost last = self.slots@.len() - 1;
                self.unlist(i);
                let ghost listed = *self;
                let slot = self.slots.swap_remove(i);
                proof {
                    assert(self.slots@ =~= listed.without(i as int));
                    self.lemma_indexed(listed, i as int);
                    old(self).lemma_slot(i as int);
                    assert(self.keys() =~= old(self).keys().update(
                        i as int,
                        old(self).keys().last(),
                    ).drop_last());
                    assert(self.places() =~= old(self).places().update(
                        i as int,
                        old(self).places().last(),
                    ).drop_last());
                    assert forall|a: int, b: int|
                        0 <= a < self.keys().len() && 0 <= b < self.keys().len() && a
                            != b implies self.keys()[a] != self.keys()[b] by {
                        let a0 = if a == i { last } else { a };
                        let b0 = if b == i { last } else { b };
                        assert(self.keys()[a] == old(self).keys()[a0]);
                        assert(self.keys()[b] == old(self).keys()[b0]);
                    }
                    assert forall|k: Seq<char>| self@.contains_key(k) implies old(self)@.remove(
                        key@,
                    ).contains_key(k) && #[trigger] self@[k] == old(self)@.remove(key@)[k] by {
                        let j = self.keys().index_of(k);
                        assert(self.keys()[j] == k);
                        let j0 = if j == i { last } else { j };
                        assert(old(self).keys()[j0] == k);
                        old(self).lemma_slot(j0);
                        let j1 = self.keys().index_of(k);
                        assert(self.keys()[j1] == k);
                    }
                    assert forall|k: Seq<char>|
                        old(self)@.remove(key@).contains_key(k) implies self@.contains_key(
                        k,
                    ) by {
                        let j0 = old(self).keys().index_of(k);
                        assert(old(self).keys()[j0] == k);
                        let j = if j0 == last { i as int } else { j0 };
                        assert(self.keys()[j] == k);
                    }
                    assert(self@ =~= old(self)@.remove(key@));
                }
                Some(slot.at)
            },
            None => {
                proof {
                    assert(self@ =~= old(self)@.remove(key@));
                }
                None
            },
        }
    }

    /// Takes slot `i` out of its bucket and lists the last slot as `i`,
    /// which it becomes when slot `i` is taken out.
    fn unlist(&mut self, i: usize)
        requires
            old(self).indexed(),
            i < old(self).slots@.len(),
        ensures
            final(self).slots == old(self).slots,
            final(self).relisted(i as int),
    {
        let last = self.slots.len() - 1;
        let b = KeyDir::bucket(&self.slots[i].key);
        proof {
            assert(self.listed(i as int));
        }
        let e = KeyDir::entry_of(&self.index[b], i);
        self.index[b].swap_remove(e);
        let ghost between = *self;
        proof {
            between.lemma_unlisted(*old(self), i as int, b as int, e as int);
        }
        if i != last {
            let c = KeyDir::bucket(&self.slots[last].key);
            proof {
                assert(between.listed_or_gone(last as int, i as int));
            }
            let d = KeyDir::entry_of(&self.index[c], last);
            self.index[c][d] = i;
            proof {
                self.lemma_relisted(between, i as int, c as int, d as int);
            }
        } else {
            proof {
                between.lemma_unlisted_last();
            }
        }
    }

    /// Slot `j` is listed in the bucket of its key, unless it is slot
    /// `gone`.
    spec fn listed_or_gone(&self, j: int, gone: int) -> bool {
        j != gone ==> self.listed(j)
    }

    /// The state between the two steps of `unlist`: slot `gone` is listed
    /// nowhere, every other slot is listed once.
    spec fn unlisted(&self, gone: int) -> bool {
        &&& self.index@.len() == BUCKETS
        &&& forall|b: int, e: int|
            0 <= b < self.index@.len() && 0 <= e < self.index@[b]@.len() ==> #[trigger] self.entry_ok(
                b,
                e,
            ) && self.index@[b]@[e] != gone
        &&& forall|b: int| 0 <= b < self.index@.len() ==> #[trigger] self.bucket_ok(b)
        &&& forall|j: int|
            0 <= j < self.slots@.len() ==> #[trigger] self.listed_or_gone(j, gone)
    }

    /// The slots that are left when slot `i` is taken out and the last slot
    /// comes to stand in its place.
    spec fn without(&self, i: int) -> Seq<Slot> {
        self.slots@.update(i, self.slots@[self.slots@.len() - 1]).drop_last()
    }

    /// The buckets are those of the keydir without slot `i`.
    spec fn relisted(&self, i: int) -> bool {
        &&& self.index@.len() == BUCKETS
        &&& forall|b: int, e: int|
            0 <= b < self.index@.len() && 0 <= e < self.index@[b]@.len() ==> #[trigger] entry_in(
                self.index@,
                self.without(i),
                b,
                e,
            )
        &&& forall|b: int| 0 <= b < self.index@.len() ==> #[trigger] self.bucket_ok(b)
        &&& forall|j: int|
            0 <= j < self.without(i).len() ==> #[trigger] listed_in(
                self.index@,
                self.without(i),
                j,
            )
    }

    /// Where the last slot is listed nowhere, the buckets are those of the
    /// keydir without it.
    proof fn lemma_unlisted_last(&self)
        requires
            self.slots@.len() > 0,
            self.unlisted(self.slots@.len() - 1),
        ensures
            self.relisted(self.slots@.len() - 1),
    {
        let last = self.slots@.len() - 1;
        let after = self.without(last);
        assert forall|b: int, e: int|
            0 <= b < self.index@.len() && 0 <= e < self.index@[b]@.len() implies #[trigger] entry_in(
            self.index@,
            after,
            b,
            e,
        ) by {
            assert(self.entry_ok(b, e));
        }
        assert forall|j: int| 0 <= j < after.len() implies #[trigger] listed_in(
            self.index@,
            after,
            j,
        ) by {
            assert(self.listed_or_gone(j, last));
        }
    }

    /// With the buckets relisted for it, the keydir without slot `i` is
    /// indexed.
    proof fn lemma_indexed(&self, was: KeyDir, i: int)
        requires
            0 <= i < was.slots@.len(),
            was.relisted(i),
            self.index == was.index,
            self.slots@ == was.without(i),
        ensures
            self.indexed(),
    {
        assert forall|b: int, e: int|
            0 <= b < self.index@.len() && 0 <= e < self.index@[b]@.len() implies #[trigger] self.entry_ok(
            b,
            e,
        ) by {
            assert(entry_in(was.index@, was.without(i), b, e));
        }
        assert forall|b: int| 0 <= b < self.index@.len() implies #[trigger] self.bucket_ok(b) by {
            assert(was.bucket_ok(b));
        }
        assert forall|j: int| 0 <= j < self.slots@.len() implies #[trigger] self.listed(j) by {
            assert(listed_in(was.index@, was.without(i), j));
        }
    }

    /// Taking the entry of slot `i` out of its bucket leaves `i` listed
    /// nowhere and every other slot listed once.
    proof fn lemma_unlisted(&self, was: KeyDir, i: int, b: int, e: int)
        requires
            was.indexed(),
            0 <= i < was.slots@.len(),
            b == bucket_of(was.slots@[i].key@),
            0 <= e < was.index@[b]@.len(),
            was.index@[b]@[e] == i,
            self.slots == was.slots,
            self.index@.len() == was.index@.len(),
            forall|c: int| 0 <= c < was.index@.len() && c != b ==> self.index@[c] == was.index@[c],
            self.index@[b]@ == was.index@[b]@.update(e, was.index@[b]@.last()).drop_last(),
        ensures
            self.unlisted(i),
    {
        let old_bucket = was.index@[b]@;
        let new_bucket = self.index@[b]@;
        let top = old_bucket.len() - 1;
        assert(was.bucket_ok(b));
        assert forall|c: int, d: int|
            0 <= c < self.index@.len() && 0 <= d < self.index@[c]@.len() implies #[trigger] self.entry_ok(
            c,
            d,
        ) && self.index@[c]@[d] != i by {
            if c == b {
                let d0 = if d == e { top } else { d };
                assert(new_bucket[d] == old_bucket[d0]);
                assert(was.entry_ok(b, d0));
                assert(d0 != e);
            } else {
                assert(was.entry_ok(c, d));
            }
        }
        assert forall|c: int| 0 <= c < self.index@.len() implies #[trigger] self.bucket_ok(c) by {
            assert(was.bucket_ok(c));
            if c == b {
                assert forall|x: int, y: int|
                    0 <= x < new_bucket.len() && 0 <= y < new_bucket.len() && x
                        != y implies new_bucket[x] != new_bucket[y] by {
                    let x0 = if x == e { top } else { x };
                    let y0 = if y == e { top } else { y };
                    assert(new_bucket[x] == old_bucket[x0]);
                    assert(new_bucket[y] == old_bucket[y0]);
                }
            }
        }
        assert forall|j: int| 0 <= j < self.slots@.len() implies #[trigger] self.listed_or_gone(
            j,
            i,
        ) by {
            if j != i {
                let c = bucket_of(self.slots@[j].key@);
                assert(was.listed(j));
                let d0 = choose|d0: int|
                    0 <= d0 < was.index@[c]@.len() && #[trigger] was.index@[c]@[d0] == j;
                if c == b {
                    assert(d0 != e);
                    let d = if d0 == top { e } else { d0 };
                    assert(new_bucket[d] == j);
                } else {
                    assert(self.index@[c]@[d0] == j);
                }
            }
        }
    }

    /// Listing the last slot as `i` makes the buckets those of the keydir
    /// without slot `i`.
    proof fn lemma_relisted(&self, was: KeyDir, i: int, c: int, d: int)
        requires
            was.unlisted(i),
            0 <= i < was.slots@.len() - 1,
            c == bucket_of(was.slots@[was.slots@.len() - 1].key@),
            0 <= d < was.index@[c]@.len(),
            was.index@[c]@[d] == was.slots@.len() - 1,
            self.slots == was.slots,
            self.index@.len() == was.index@.len(),
            forall|b: int| 0 <= b < was.index@.len() && b != c ==> self.index@[b] == was.index@[b],
            self.index@[c]@ == was.index@[c]@.update(d, i as usize),
        ensures
            self.relisted(i),
    {
        let last = self.slots@.len() - 1;
        let after = self.without(i);
        assert forall|b: int, e: int|
            0 <= b < self.index@.len() && 0 <= e < self.index@[b]@.len() implies #[trigger] entry_in(
            self.index@,
            after,
            b,
            e,
        ) by {
            assert(was.entry_ok(b, e));
            if b == c && e == d {
            } else {
                assert(self.index@[b]@[e] == was.index@[b]@[e]);
                if was.index@[b]@[e] == last {
                    assert(was.bucket_ok(c));
                    assert(b == c);
                }
            }
        }
        assert forall|b: int| 0 <= b < self.index@.len() implies #[trigger] self.bucket_ok(b) by {
            assert(was.bucket_ok(b));
            if b == c {
                let bucket = self.index@[c]@;
                assert forall|x: int, y: int|
                    0 <= x < bucket.len() && 0 <= y < bucket.len() && x != y implies bucket[x]
                    != bucket[y] by {
                    assert(was.entry_ok(c, x));
                    assert(was.entry_ok(c, y));
                }
            }
        }
        assert forall|j: int| 0 <= j < after.len() implies #[trigger] listed_in(
            self.index@,
            after,
            j,
        ) by {
            let b = bucket_of(after[j].key@);
            if j == i {
                assert(self.index@[c]@[d] == j);
            } else {
                assert(was.listed_or_gone(j, i));
                assert(was.listed(j));
                let e = choose|e: int|
                    0 <= e < was.index@[b]@.len() && #[trigger] was.index@[b]@[e] == j;
                assert(self.index@[b]@[e] == j);
            }
        }
    }
}

} // verus!
