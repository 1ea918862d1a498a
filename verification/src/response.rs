//! Responses: what the server answers.
//!
//! A response is one line: the value of a key, `-1` for a key without a
//! value, or `!` and the message of an error. A successful `set` or
//! `remove` is answered by `OK` without a line ending.

use vstd::prelude::*;
use vstd::string::{StrSliceExecFns, StringExecFns};
use vstd::utf8::encode_utf8;

use crate::entry::value_view;
use crate::error::KvsError;
use crate::lines::{after_first_line, line_text, not_text_message, LineReader};

verus! {

/// What the bytes of a response say.
pub ghost enum Reply {
    /// The key has this value.
    Value(Seq<char>),
    /// The key has no value.
    Absent,
    /// The request failed, or the response cannot be read.
    Failure(Seq<char>),
}

/// What the bytes of a response say.
pub open spec fn parse_response(bytes: Seq<u8>) -> Reply {
    if bytes.len() == 0 {
        Reply::Failure("Malformed response"@)
    } else {
        match line_text(bytes) {
            None => Reply::Failure(not_text_message()),
            Some(line) => if line.len() > 0 && line[0] == '!' {
                Reply::Failure(line)
            } else if line == "-1"@ {
                Reply::Absent
            } else {
                Reply::Value(line)
            },
        }
    }
}

/// The result of reading a response says what the bytes say.
pub open spec fn answers(r: Result<Option<String>, KvsError>, reply: Reply) -> bool {
    match reply {
        Reply::Value(text) => r matches Ok(Some(value)) && value@ == text,
        Reply::Absent => r matches Ok(None),
        Reply::Failure(text) => r matches Err(KvsError::Protocol(message)) && message@ == text,
    }
}

/// The line of an error on the wire.
pub open spec fn error_text(e: KvsError) -> Seq<char> {
    "!"@ + e.message_text() + "\r\n"@
}

/// The line that tells what a key was found to have: its value, or `-1`
/// where it has none.
pub open spec fn value_text(found: Option<Seq<char>>) -> Seq<char> {
    match found {
        Some(value) => value + "\r\n"@,
        None => "-1\r\n"@,
    }
}

/// The answer to a `get`.
pub open spec fn get_text(r: Result<Option<String>, KvsError>) -> Seq<char> {
    match r {
        Ok(found) => value_text(value_view(found)),
        Err(e) => error_text(e),
    }
}

/// The answer to a `set` or a `remove`.
pub open spec fn update_text(r: Result<(), KvsError>) -> Seq<char> {
    match r {
        Ok(()) => "OK"@,
        Err(e) => error_text(e),
    }
}

/// Reads a response from the lines of `reader`.
pub fn from_reader(reader: &mut LineReader) -> (r: Result<Option<String>, KvsError>)
    ensures
        answers(r, parse_response(old(reader).remaining())),
        final(reader).source() == old(reader).source(),
        final(reader).remaining() == after_first_line(old(reader).remaining()),
{
    match reader.next_line() {
        Some(resp) => {
            let resp = match resp {
                Ok(resp) => resp,
                Err(e) => {
                    return Err(e);
                },
            };
            if !resp.as_str().is_empty() && resp.as_str().get_char(0) == '!' {
                Err(KvsError::Protocol(resp))
            } else if resp == String::from_str("-1") {
                Ok(None)
            } else {
                Ok(Some(resp))
            }
        },
        None => Err(KvsError::Protocol(String::from_str("Malformed response"))),
    }
}

/// The bytes of the line that reports `e`.
pub fn error_reply(e: &KvsError) -> (bytes: Vec<u8>)
    ensures
        bytes@ == encode_utf8(error_text(*e)),
{
    let line = String::from_str("!").concat(e.message().as_str()).concat("\r\n");
    line.as_str().as_bytes_vec()
}

/// The bytes that answer a `get` which ended in `r`.
pub fn get_reply(r: &Result<Option<String>, KvsError>) -> (bytes: Vec<u8>)
    ensures
        bytes@ == encode_utf8(get_text(*r)),
{
    match r {
        Ok(Some(value)) => {
            let line = value.clone().concat("\r\n");
            line.as_str().as_bytes_vec()
        },
        Ok(None) => "-1\r\n".as_bytes_vec(),
        Err(e) => error_reply(e),
    }
}

/// The bytes that answer a `set` or a `remove` which ended in `r`.
pub fn update_reply(r: &Result<(), KvsError>) -> (bytes: Vec<u8>)
    ensures
        bytes@ == encode_utf8(update_text(*r)),
{
    match r {
        Ok(_) => "OK".as_bytes_vec(),
        Err(e) => error_reply(e),
    }
}

} // verus!
