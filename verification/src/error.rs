//! The error type shared by the codec, the engine and the protocol framer.

use vstd::prelude::*;
use vstd::string::StringExecFns;

verus! {

/// Error type for kvs.
#[derive(Debug, Clone, PartialEq, Eq)]
pub enum KvsError {
    /// A file or socket operation failed; the payload is the failure's text.
    Io(String),
    /// A log record is truncated, fails its checksum or is not UTF-8.
    CorruptRecord,
    /// Removing a key that the store does not hold.
    KeyNotFound,
    /// An empty key, an empty value, or one too long for the record format.
    InvalidArgument,
    /// The byte counters or the generation numbers of the store are used up.
    StorageExhausted,
    /// A malformed request or an error reply on the wire; the payload is the
    /// message.
    Protocol(String),
    /// An alternate storage backend failed; the payload is its message.
    Backend(String),
}

impl KvsError {
    /// The text of an error as it is shown to a user or sent on the wire.
    pub open spec fn message_text(self) -> Seq<char> {
        match self {
            KvsError::Io(m) => m@,
            KvsError::CorruptRecord => "Corrupt record"@,
            KvsError::KeyNotFound => "Key not found"@,
            KvsError::InvalidArgument => "Invalid argument"@,
            KvsError::StorageExhausted => "Storage exhausted"@,
            KvsError::Protocol(m) => m@,
            KvsError::Backend(m) => "Backend error: "@ + m@,
        }
    }

    /// Renders the error as text.
    pub fn message(&self) -> (text: String)
        ensures
            text@ == self.message_text(),
    {
        match self {
            KvsError::Io(m) => m.clone(),
            KvsError::CorruptRecord => String::from_str("Corrupt record"),
            KvsError::KeyNotFound => String::from_str("Key not found"),
            KvsError::InvalidArgument => String::from_str("Invalid argument"),
            KvsError::StorageExhausted => String::from_str("Storage exhausted"),
            KvsError::Protocol(m) => m.clone(),
            KvsError::Backend(m) => String::from_str("Backend error: ").concat(m.as_str()),
        }
    }
}

} // verus!
