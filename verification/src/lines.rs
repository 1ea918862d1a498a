//! Lines on the wire: a request or a response is a sequence of lines, each
//! ended by a line feed or by carriage return and line feed.

use vstd::prelude::*;
use vstd::slice::{slice_subrange, slice_to_vec};
use vstd::string::StringExecFns;
use vstd::utf8::{decode_utf8, valid_utf8};

use crate::error::KvsError;

verus! {

/// The line feed.
pub const LF: u8 = 0x0a;

/// The carriage return.
pub const CR: u8 = 0x0d;

/// The first line feed of `bytes` stands at `n`.
pub open spec fn newline_at(bytes: Seq<u8>, n: int) -> bool {
    &&& 0 <= n < bytes.len()
    &&& bytes[n] == LF
    &&& forall|j: int| 0 <= j < n ==> bytes[j] != LF
}

/// The offset of the first line feed, or the length of `bytes` where there
/// is none.
pub open spec fn line_break(bytes: Seq<u8>) -> int {
    if exists|n: int| newline_at(bytes, n) {
        choose|n: int| newline_at(bytes, n)
    } else {
        bytes.len() as int
    }
}

/// The first line without its ending. A carriage return belongs to the
/// ending only where a line feed follows it.
pub open spec fn first_line(bytes: Seq<u8>) -> Seq<u8> {
    let n = line_break(bytes);
    if n < bytes.len() && n > 0 && bytes[n - 1] == CR {
        bytes.take(n - 1)
    } else {
        bytes.take(n)
    }
}

/// What follows the first line and its ending.
pub open spec fn after_first_line(bytes: Seq<u8>) -> Seq<u8> {
    let n = line_break(bytes);
    if n < bytes.len() {
        bytes.skip(n + 1)
    } else {
        Seq::empty()
    }
}

/// The text of the first line, or `None` where it is not UTF-8.
pub open spec fn line_text(bytes: Seq<u8>) -> Option<Seq<char>> {
    if valid_utf8(first_line(bytes)) {
        Some(decode_utf8(first_line(bytes)))
    } else {
        None
    }
}

/// The message of the error for a line that is not UTF-8.
pub open spec fn not_text_message() -> Seq<char> {
    "stream did not contain valid UTF-8"@
}

/// A first line feed is the only one that is first.
pub proof fn lemma_line_break(bytes: Seq<u8>, n: int)
    requires
        0 <= n <= bytes.len(),
        forall|j: int| 0 <= j < n ==> bytes[j] != LF,
        n < bytes.len() ==> bytes[n] == LF,
    ensures
        line_break(bytes) == n,
{
    if n < bytes.len() {
        assert(newline_at(bytes, n));
        let m = choose|m: int| newline_at(bytes, m);
        if m < n {
            assert(bytes[m] != LF);
        } else if n < m {
            assert(bytes[n] != LF);
        }
    } else {
        if exists|m: int| newline_at(bytes, m) {
            let m = choose|m: int| newline_at(bytes, m);
            assert(bytes[m] != LF);
        }
    }
}

/// A cursor over received bytes, which hands them out line by line.
pub struct LineReader<'a> {
    data: &'a [u8],
    pos: usize,
}

impl<'a> LineReader<'a> {
    #[verifier::type_invariant]
    spec fn inv(self) -> bool {
        self.pos <= self.data@.len()
    }

    /// All the bytes that the reader was made over.
    pub closed spec fn source(&self) -> Seq<u8> {
        self.data@
    }

    /// The number of bytes that have been read.
    pub closed spec fn position(&self) -> nat {
        self.pos as nat
    }

    /// The bytes that are still to be read.
    pub open spec fn remaining(&self) -> Seq<u8> {
        self.source().skip(self.position() as int)
    }

    /// A reader at the start of `data`.
    pub fn new(data: &'a [u8]) -> (reader: Self)
        ensures
            reader.source() == data@,
            reader.position() == 0,
            reader.remaining() == data@,
    {
        let reader = LineReader { data, pos: 0 };
        assert(reader.remaining() =~= data@);
        reader
    }

    /// Reads the next line. At the end of the input there is none; a line
    /// that is not UTF-8 is an error, and the reader stands behind it all the
    /// same.
    pub fn next_line(&mut self) -> (line: Option<Result<String, KvsError>>)
        ensures
            final(self).source() == old(self).source(),
            final(self).remaining() == after_first_line(old(self).remaining()),
            old(self).remaining().len() == 0 ==> line is None,
            old(self).remaining().len() > 0 ==> match line_text(old(self).remaining()) {
                Some(text) => line matches Some(Ok(read)) && read@ == text,
                None => line matches Some(Err(KvsError::Protocol(message))) && message@
                    == not_text_message(),
            },
    {
        proof {
            use_type_invariant(&*self);
        }
        let data = self.data;
        let start = self.pos;
        let ghost rest = self.remaining();
        if start >= data.len() {
            assert(rest.len() == 0);
            assert(after_first_line(rest) =~= rest);
            return None;
        }
        let mut end = start;
        while end < data.len() && data[end] != LF
            invariant
                start <= end <= data@.len(),
                forall|j: int| start <= j < end ==> data@[j] != LF,
            decreases data@.len() - end,
        {
            end += 1;
        }
        proof {
            assert forall|j: int| 0 <= j < end - start implies rest[j] != LF by {
                assert(rest[j] == data@[start + j]);
            }
            lemma_line_break(rest, end - start);
        }
        let stop = if end < data.len() && end > start && data[end - 1] == CR {
            end - 1
        } else {
            end
        };
        let line = slice_to_vec(slice_subrange(data, start, stop));
        self.pos = if end < data.len() {
            end + 1
        } else {
            end
        };
        proof {
            assert(line@ =~= first_line(rest));
            assert(self.remaining() =~= after_first_line(rest));
        }
        match String::from_utf8(line) {
            Ok(text) => Some(Ok(text)),
            Err(_) => Some(
                Err(KvsError::Protocol(String::from_str("stream did not contain valid UTF-8"))),
            ),
        }
    }
}

} // verus!
