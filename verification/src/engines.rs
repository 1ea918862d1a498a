//! The contract between the server and a storage engine.

use vstd::prelude::*;
use vstd::utf8::{decode_utf8, valid_utf8};

use crate::entry::value_view;
use crate::error::KvsError;
use crate::store::{lookup, remove_result, set_result, KvStore};

verus! {

/// Trait for a key value storage engine.
///
/// An engine holds a map from keys to values. What a call returns in `Ok`
/// is bound by that map; when a call fails is for the engine to say, but
/// for one rule: a `remove` of a key that the engine does not hold fails.
pub trait KvsEngine {
    /// The engine is in a state in which it can be used.
    spec fn valid(&self) -> bool;

    /// The keys that the engine holds with their values.
    spec fn held(&self) -> Map<Seq<char>, Seq<char>>;

    /// Sets the value of a string key to a string.
    ///
    /// If the key already exists, the previous value will be overwritten.
    fn set(&mut self, key: String, value: String) -> (r: Result<(), KvsError>)
        requires
            old(self).valid(),
        ensures
            final(self).valid(),
            r is Ok ==> final(self).held() == old(self).held().insert(key@, value@),
    ;

    /// Gets the string value of a given string key.
    ///
    /// Returns `None` if the given key does not exist.
    fn get(&self, key: String) -> (r: Result<Option<String>, KvsError>)
        requires
            self.valid(),
        ensures
            r matches Ok(value) ==> value_view(value) == lookup(self.held(), key@),
    ;

    /// Removes a given key.
    ///
    /// # Errors
    ///
    /// It returns `KvsError::KeyNotFound` if the given key is not found.
    fn remove(&mut self, key: String) -> (r: Result<(), KvsError>)
        requires
            old(self).valid(),
        ensures
            final(self).valid(),
            r is Ok ==> old(self).held().contains_key(key@) && final(self).held() == old(
                self,
            ).held().remove(key@),
            r matches Err(KvsError::KeyNotFound) ==> !old(self).held().contains_key(key@)
                && final(self).held() == old(self).held(),
    ;
}

/// What the `get` of a backend that stores bytes returns for what it found
/// under the key: the text of the bytes, or `CorruptRecord` where they are
/// not UTF-8.
pub fn stored_text(found: Option<Vec<u8>>) -> (r: Result<Option<String>, KvsError>)
    ensures
        match found {
            None => r matches Ok(None),
            Some(bytes) => if valid_utf8(bytes@) {
                r matches Ok(Some(text)) && text@ == decode_utf8(bytes@)
            } else {
                r matches Err(KvsError::CorruptRecord)
            },
        },
{
    match found {
        None => Ok(None),
        Some(bytes) => match String::from_utf8(bytes) {
            Ok(text) => Ok(Some(text)),
            Err(_) => Err(KvsError::CorruptRecord),
        },
    }
}

/// What the `remove` of a backend returns for what it took out: a backend
/// that found nothing under the key reports `KeyNotFound`.
pub fn removal_outcome(removed: Option<Vec<u8>>) -> (r: Result<(), KvsError>)
    ensures
        r == (match removed {
            Some(_) => Ok::<(), KvsError>(()),
            None => Err::<(), KvsError>(KvsError::KeyNotFound),
        }),
{
    match removed {
        Some(_) => Ok(()),
        None => Err(KvsError::KeyNotFound),
    }
}

impl KvsEngine for KvStore {
    open spec fn valid(&self) -> bool {
        self.wf()
    }

    open spec fn held(&self) -> Map<Seq<char>, Seq<char>> {
        self@
    }

    /// Sets a key-value pair in the store, as `KvStore::set` does.
    fn set(&mut self, key: String, value: String) -> (r: Result<(), KvsError>)
        ensures
            set_result(*old(self), *final(self), key@, value@, r),
    {
        KvStore::set(self, key, value)
    }

    /// Returns the value of the key, as `KvStore::get` does: it never
    /// fails.
    fn get(&self, key: String) -> (r: Result<Option<String>, KvsError>)
        ensures
            r matches Ok(value) && value_view(value) == lookup(self@, key@),
    {
        KvStore::get(self, key)
    }

    /// Removes a key from the store, as `KvStore::remove` does.
    fn remove(&mut self, key: String) -> (r: Result<(), KvsError>)
        ensures
            remove_result(*old(self), *final(self), key@, r),
    {
        KvStore::remove(self, key)
    }
}

} // verus!
