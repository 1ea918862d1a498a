//! The server: one request in, one response out.

use vstd::prelude::*;
use vstd::utf8::encode_utf8;

use crate::engines::KvsEngine;
use crate::error::KvsError;
use crate::lines::LineReader;
use crate::request::{parse_request, Command, Parsed, Request};
use crate::response::{error_reply, error_text, get_reply, update_reply, value_text};
use crate::store::lookup;

verus! {

/// The bytes are the line of some error.
pub open spec fn is_error_line(output: Seq<u8>) -> bool {
    exists|e: KvsError| output == encode_utf8(#[trigger] error_text(e))
}

/// `output` answers the request `parsed`, which found the engine holding
/// `before` and left it holding `after`.
///
/// A request that cannot be read is answered by the line of its error. A
/// `get` is answered by the value of the key or by `-1`; a `set` or a
/// `remove` that was done is answered by `OK`. Where the engine fails, the
/// answer is the line of an error.
pub open spec fn served(
    parsed: Parsed,
    before: Map<Seq<char>, Seq<char>>,
    after: Map<Seq<char>, Seq<char>>,
    output: Seq<u8>,
) -> bool {
    match parsed {
        Parsed::Failure(message) => {
            &&& after == before
            &&& output == encode_utf8("!"@ + message + "\r\n"@)
        },
        Parsed::Command(Command::Get { key }) => {
            &&& after == before
            &&& output == encode_utf8(value_text(lookup(before, key))) || is_error_line(output)
        },
        Parsed::Command(Command::Put { key, value }) => {
            ||| output == encode_utf8("OK"@) && after == before.insert(key, value)
            ||| is_error_line(output)
        },
        Parsed::Command(Command::Remove { key }) => {
            ||| output == encode_utf8("OK"@) && before.contains_key(key) && after == before.remove(
                key,
            )
            ||| is_error_line(output)
        },
    }
}

/// A key-value server.
pub struct KvsServer<E: KvsEngine> {
    engine: E,
}

impl<E: KvsEngine> KvsServer<E> {
    /// The engine of the server.
    pub closed spec fn engine(&self) -> E {
        self.engine
    }

    /// Create a new server with the given engine.
    pub fn new(engine: E) -> (server: Self)
        ensures
            server.engine() == engine,
    {
        KvsServer { engine }
    }

    /// The engine of the server, to look at.
    pub fn engine_ref(&self) -> (engine: &E)
        ensures
            *engine == self.engine(),
    {
        &self.engine
    }

    /// The engine of the server, to work on.
    pub fn engine_mut(&mut self) -> (engine: &mut E)
        ensures
            *engine == old(self).engine(),
            final(self).engine() == *final(engine),
    {
        &mut self.engine
    }

    /// Hands the engine back.
    pub fn into_engine(self) -> (engine: E)
        ensures
            engine == self.engine(),
    {
        self.engine
    }

    /// Serves one client: reads the request from the bytes that the client
    /// sent, has the engine do it, and returns the bytes of the response.
    pub fn serve(&mut self, input: &[u8]) -> (output: Vec<u8>)
        requires
            old(self).engine().valid(),
        ensures
            final(self).engine().valid(),
            served(
                parse_request(input@),
                old(self).engine().held(),
                final(self).engine().held(),
                output@,
            ),
    {
        let mut reader = LineReader::new(input);
        let req = match Request::from_reader(&mut reader) {
            Ok(req) => req,
            Err(e) => {
                return error_reply(&e);
            },
        };
        match req {
            Request::Get { key } => {
                let found = self.engine.get(key);
                get_reply(&found)
            },
            Request::Put { key, value } => {
                let done = self.engine.set(key, value);
                update_reply(&done)
            },
            Request::Remove { key } => {
                let done = self.engine.remove(key);
                update_reply(&done)
            },
        }
    }
}

} // verus!
