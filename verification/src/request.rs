//! Requests: what a client asks of the server.
//!
//! A request is two or three lines: `?`, `+` or `-`, then the key, and for
//! `+` the value.

use vstd::prelude::*;
use vstd::string::{StrSliceExecFns, StringExecFns};
use vstd::utf8::encode_utf8;

use crate::error::KvsError;
use crate::lines::{after_first_line, line_text, not_text_message, LineReader};

verus! {

/// A request of a client.
#[derive(Debug, Clone, PartialEq, Eq)]
pub enum Request {
    /// Asks for the value of a key.
    Get { key: String },
    /// Sets the value of a key.
    Put { key: String, value: String },
    /// Removes a key.
    Remove { key: String },
}

/// The mathematical model of a request.
pub ghost enum Command {
    Get { key: Seq<char> },
    Put { key: Seq<char>, value: Seq<char> },
    Remove { key: Seq<char> },
}

impl View for Request {
    type V = Command;

    open spec fn view(&self) -> Command {
        match self {
            Request::Get { key } => Command::Get { key: key@ },
            Request::Put { key, value } => Command::Put { key: key@, value: value@ },
            Request::Remove { key } => Command::Remove { key: key@ },
        }
    }
}

/// What the bytes of a request say: a command, or the message of the error
/// that they are.
pub ghost enum Parsed {
    Command(Command),
    Failure(Seq<char>),
}

/// The key line of a `?` or `-` request gives `make(key)`; without the line
/// the request is malformed.
pub open spec fn parse_key(
    rest: Seq<u8>,
    make: spec_fn(Seq<char>) -> Command,
    missing: Seq<char>,
) -> Parsed {
    if rest.len() == 0 {
        Parsed::Failure(missing)
    } else {
        match line_text(rest) {
            Some(key) => Parsed::Command(make(key)),
            None => Parsed::Failure(not_text_message()),
        }
    }
}

/// The key line and the value line of a `+` request.
pub open spec fn parse_pair(rest: Seq<u8>) -> Parsed {
    let last = after_first_line(rest);
    if rest.len() == 0 || last.len() == 0 {
        Parsed::Failure("Malformed set request"@)
    } else {
        match (line_text(rest), line_text(last)) {
            (Some(key), Some(value)) => Parsed::Command(Command::Put { key, value }),
            _ => Parsed::Failure(not_text_message()),
        }
    }
}

/// What the bytes of a request say.
pub open spec fn parse_request(bytes: Seq<u8>) -> Parsed {
    let rest = after_first_line(bytes);
    if bytes.len() == 0 {
        Parsed::Failure("Malformed request"@)
    } else {
        match line_text(bytes) {
            None => Parsed::Failure(not_text_message()),
            Some(op) => if op == "?"@ {
                parse_key(rest, |key: Seq<char>| Command::Get { key }, "Malformed get request"@)
            } else if op == "+"@ {
                parse_pair(rest)
            } else if op == "-"@ {
                parse_key(
                    rest,
                    |key: Seq<char>| Command::Remove { key },
                    "Malformed remove request"@,
                )
            } else {
                Parsed::Failure("Illegal server command"@)
            },
        }
    }
}

/// What is left of the input when a request has been read from it: the
/// line of the operation is read, then one line for `?` and `-` and two
/// lines for `+`, as far as there are that many.
pub open spec fn after_request(bytes: Seq<u8>) -> Seq<u8> {
    let one = after_first_line(bytes);
    let two = after_first_line(one);
    let three = after_first_line(two);
    match line_text(bytes) {
        Some(op) => if bytes.len() == 0 {
            one
        } else if op == "?"@ {
            two
        } else if op == "+"@ {
            three
        } else if op == "-"@ {
            two
        } else {
            one
        },
        None => one,
    }
}

/// The result of reading a request says what the bytes say.
pub open spec fn reads_as(r: Result<Request, KvsError>, parsed: Parsed) -> bool {
    match parsed {
        Parsed::Command(command) => r matches Ok(request) && request@ == command,
        Parsed::Failure(text) => r matches Err(KvsError::Protocol(message)) && message@ == text,
    }
}

/// A request as it goes over the wire.
pub open spec fn request_text(command: Command) -> Seq<char> {
    match command {
        Command::Get { key } => "?\r\n"@ + key + "\r\n"@,
        Command::Put { key, value } => "+\r\n"@ + key + "\r\n"@ + value + "\r\n"@,
        Command::Remove { key } => "-\r\n"@ + key + "\r\n"@,
    }
}

/// The number of lines that a request has behind its first line.
pub open spec fn lines_behind(first: Seq<u8>) -> nat {
    match line_text(first) {
        Some(op) => if op == "?"@ {
            1
        } else if op == "+"@ {
            2
        } else if op == "-"@ {
            1
        } else {
            0
        },
        None => 0,
    }
}

/// The number of lines that are to be received behind the first line of a
/// request: the key, and for `+` the value. A first line that is no
/// operation has nothing behind it.
pub fn lines_to_follow(first: &[u8]) -> (n: usize)
    ensures
        n == (if first@.len() == 0 {
            0
        } else {
            lines_behind(first@)
        }),
{
    let mut reader = LineReader::new(first);
    match reader.next_line() {
        Some(Ok(op)) => if op == String::from_str("?") {
            1
        } else if op == String::from_str("+") {
            2
        } else if op == String::from_str("-") {
            1
        } else {
            0
        },
        _ => 0,
    }
}

/// An error for a request that cannot be read.
fn malformed(message: &str) -> (e: KvsError)
    ensures
        e matches KvsError::Protocol(m) && m@ == message@,
{
    KvsError::Protocol(String::from_str(message))
}

impl Request {
    /// Reads a request from the lines of `reader`.
    pub fn from_reader(reader: &mut LineReader) -> (r: Result<Request, KvsError>)
        ensures
            reads_as(r, parse_request(old(reader).remaining())),
            final(reader).source() == old(reader).source(),
            final(reader).remaining() == after_request(old(reader).remaining()),
    {
        let ghost bytes = reader.remaining();
        match reader.next_line() {
            Some(req) => {
                let req = match req {
                    Ok(req) => req,
                    Err(e) => {
                        return Err(e);
                    },
                };
                if req == String::from_str("?") {
                    match reader.next_line() {
                        Some(key) => match key {
                            Ok(key) => Ok(Request::Get { key }),
                            Err(e) => Err(e),
                        },
                        None => Err(malformed("Malformed get request")),
                    }
                } else if req == String::from_str("+") {
                    let key = reader.next_line();
                    let value = reader.next_line();
                    match (key, value) {
                        (Some(key), Some(value)) => {
                            let key = match key {
                                Ok(key) => key,
                                Err(e) => {
                                    return Err(e);
                                },
                            };
                            match value {
                                Ok(value) => Ok(Request::Put { key, value }),
                                Err(e) => Err(e),
                            }
                        },
                        _ => {
                            proof {
                                let rest = after_first_line(bytes);
                                if rest.len() == 0 {
                                    assert(after_first_line(rest).len() == 0);
                                }
                            }
                            Err(malformed("Malformed set request"))
                        },
                    }
                } else if req == String::from_str("-") {
                    match reader.next_line() {
                        Some(key) => match key {
                            Ok(key) => Ok(Request::Remove { key }),
                            Err(e) => Err(e),
                        },
                        None => Err(malformed("Malformed remove request")),
                    }
                } else {
                    Err(malformed("Illegal server command"))
                }
            },
            None => Err(malformed("Malformed request")),
        }
    }

    /// The bytes of the request as they go over the wire.
    pub fn to_bytes(&self) -> (bytes: Vec<u8>)
        ensures
            bytes@ == encode_utf8(request_text(self@)),
    {
        let text = match self {
            Request::Get { key } => String::from_str("?\r\n").concat(key.as_str()).concat("\r\n"),
            Request::Put { key, value } => String::from_str("+\r\n").concat(key.as_str()).concat(
                "\r\n",
            ).concat(value.as_str()).concat("\r\n"),
            Request::Remove { key } => String::from_str("-\r\n").concat(key.as_str()).concat(
                "\r\n",
            ),
        };
        text.as_str().as_bytes_vec()
    }
}

} // verus!
