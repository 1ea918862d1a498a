//! Laws of the wire: what is sent is what is read.

use vstd::prelude::*;
use vstd::utf8::{encode_scalar, encode_utf8};

use crate::lines::{after_first_line, first_line, lemma_line_break, line_text};
use crate::lines::{CR, LF};
use crate::request::{parse_request, request_text, Command, Parsed};
use crate::response::{parse_response, value_text, Reply};

verus! {

/// Text that can stand in one line: there is no line feed in it.
pub open spec fn one_line(text: Seq<char>) -> bool {
    forall|i: int| 0 <= i < text.len() ==> text[i] != '\n'
}

/// A byte with its highest bit set stays that high when bits are added.
proof fn lemma_high_bit(high: u8, low: u8)
    requires
        high >= 0x80,
    ensures
        high | low >= 0x80,
{
    assert(high | low >= 0x80) by (bit_vector)
        requires
            high >= 0x80,
    ;
}

/// Among the bytes of a character there is a line feed only where the
/// character is the line feed.
proof fn lemma_scalar_line_feed(c: char, i: int)
    requires
        0 <= i < encode_scalar(c as u32).len(),
        encode_scalar(c as u32)[i] == LF,
    ensures
        c == '\n',
{
    let s = c as u32;
    vstd::utf8::char_is_scalar(c);
    if vstd::utf8::has_width_1_encoding(s) {
        assert(s & 0x7F == s) by (bit_vector)
            requires
                s <= 0x7F,
        ;
        assert(s == 0x0a);
    } else {
        lemma_high_bit(0xC0, ((s >> 6) & 0x1F) as u8);
        lemma_high_bit(0xE0, ((s >> 12) & 0x0F) as u8);
        lemma_high_bit(0xF0, ((s >> 18) & 0x7) as u8);
        lemma_high_bit(0x80, (s & 0x3F) as u8);
        lemma_high_bit(0x80, ((s >> 6) & 0x3F) as u8);
        lemma_high_bit(0x80, ((s >> 12) & 0x3F) as u8);
    }
}

/// Text without a line feed has no line feed among its bytes.
pub proof fn lemma_no_line_feed(text: Seq<char>)
    requires
        one_line(text),
    ensures
        forall|i: int| 0 <= i < encode_utf8(text).len() ==> encode_utf8(text)[i] != LF,
    decreases text.len(),
{
    if text.len() > 0 {
        let head = encode_scalar(text[0] as u32);
        let tail = encode_utf8(text.drop_first());
        assert(one_line(text.drop_first())) by {
            assert forall|i: int| 0 <= i < text.drop_first().len() implies text.drop_first()[i]
                != '\n' by {
                assert(text.drop_first()[i] == text[i + 1]);
            }
        }
        lemma_no_line_feed(text.drop_first());
        assert forall|i: int| 0 <= i < encode_utf8(text).len() implies encode_utf8(text)[i]
            != LF by {
            if i < head.len() {
                if head[i] == LF {
                    lemma_scalar_line_feed(text[0], i);
                }
            } else {
                assert(encode_utf8(text)[i] == tail[i - head.len()]);
            }
        }
    }
}

/// The bytes of two texts, one after the other, are the bytes of the texts
/// joined.
pub proof fn lemma_encode_joined(a: Seq<char>, b: Seq<char>)
    ensures
        encode_utf8(a + b) == encode_utf8(a) + encode_utf8(b),
    decreases a.len(),
{
    if a.len() == 0 {
        assert(a + b =~= b);
        assert(encode_utf8(a) + encode_utf8(b) =~= encode_utf8(b));
    } else {
        lemma_encode_joined(a.drop_first(), b);
        assert((a + b).drop_first() =~= a.drop_first() + b);
        assert(encode_utf8(a + b) =~= encode_utf8(a) + encode_utf8(b));
    }
}

/// The bytes of the line ending.
pub proof fn lemma_line_ending()
    ensures
        encode_utf8("\r\n"@) == seq![CR, LF],
{
    reveal_strlit("\r\n");
    let ending = "\r\n"@;
    assert(vstd::utf8::is_ascii_chars(ending));
    vstd::utf8::is_ascii_chars_encode_utf8(ending);
    assert(encode_utf8(ending) =~= seq![CR, LF]);
}

/// A line on the wire is read as it was written: the text of a line
/// without a line feed, its ending, and whatever follows.
pub proof fn lemma_line_read(text: Seq<char>, rest: Seq<u8>)
    requires
        one_line(text),
    ensures
        ({
            let bytes = encode_utf8(text + "\r\n"@) + rest;
            &&& bytes.len() > 0
            &&& line_text(bytes) == Some(text)
            &&& after_first_line(bytes) == rest
        }),
{
    let line = encode_utf8(text);
    let bytes = encode_utf8(text + "\r\n"@) + rest;
    lemma_encode_joined(text, "\r\n"@);
    lemma_line_ending();
    lemma_no_line_feed(text);
    let n = line.len() as int + 1;
    assert(bytes =~= line + seq![CR, LF] + rest);
    assert forall|j: int| 0 <= j < n implies bytes[j] != LF by {
        if j < line.len() {
            assert(bytes[j] == line[j]);
        }
    }
    lemma_line_break(bytes, n);
    assert(first_line(bytes) =~= line);
    assert(after_first_line(bytes) =~= rest);
    vstd::utf8::encode_utf8_valid_utf8(text);
    vstd::utf8::encode_utf8_decode_utf8(text);
}

/// Round trip of requests: the bytes that a request without a line feed in
/// its key and its value makes on the wire are read as that request.
pub proof fn law_request_round_trip(command: Command)
    requires
        match command {
            Command::Get { key } => one_line(key),
            Command::Put { key, value } => one_line(key) && one_line(value),
            Command::Remove { key } => one_line(key),
        },
    ensures
        parse_request(encode_utf8(request_text(command))) == Parsed::Command(command),
{
    reveal_strlit("?");
    reveal_strlit("+");
    reveal_strlit("-");
    reveal_strlit("?\r\n");
    reveal_strlit("+\r\n");
    reveal_strlit("-\r\n");
    reveal_strlit("\r\n");
    let none = Seq::<u8>::empty();
    let end = "\r\n"@;
    assert("?\r\n"@ =~= "?"@ + end);
    assert("+\r\n"@ =~= "+"@ + end);
    assert("-\r\n"@ =~= "-"@ + end);
    assert("+"@[0] != "?"@[0]);
    assert("-"@[0] != "?"@[0]);
    assert("-"@[0] != "+"@[0]);
    match command {
        Command::Get { key } => {
            let rest = encode_utf8(key + end);
            lemma_encode_joined("?"@ + end, key + end);
            assert(request_text(command) =~= ("?"@ + end) + (key + end));
            lemma_line_read("?"@, rest);
            lemma_line_read(key, none);
            assert(rest + none =~= rest);
        },
        Command::Put { key, value } => {
            let last = encode_utf8(value + end);
            let rest = encode_utf8(key + end) + last;
            lemma_encode_joined("+"@ + end, (key + end) + (value + end));
            lemma_encode_joined(key + end, value + end);
            assert(request_text(command) =~= ("+"@ + end) + ((key + end) + (value + end)));
            lemma_line_read("+"@, rest);
            lemma_line_read(key, last);
            lemma_line_read(value, none);
            assert(last + none =~= last);
        },
        Command::Remove { key } => {
            let rest = encode_utf8(key + end);
            lemma_encode_joined("-"@ + end, key + end);
            assert(request_text(command) =~= ("-"@ + end) + (key + end));
            lemma_line_read("-"@, rest);
            lemma_line_read(key, none);
            assert(rest + none =~= rest);
        },
    }
}

/// Round trip of values: the line that answers a `get` is read as what was
/// found, unless the value has a line feed in it, starts with `!` or is
/// `-1`, which on the wire stand for other things.
pub proof fn law_value_round_trip(found: Option<Seq<char>>)
    requires
        found matches Some(value) ==> one_line(value) && value != "-1"@ && !(value.len() > 0
            && value[0] == '!'),
    ensures
        parse_response(encode_utf8(value_text(found))) == (match found {
            Some(value) => Reply::Value(value),
            None => Reply::Absent,
        }),
{
    reveal_strlit("-1");
    reveal_strlit("-1\r\n");
    reveal_strlit("\r\n");
    let none = Seq::<u8>::empty();
    let end = "\r\n"@;
    match found {
        Some(value) => {
            lemma_line_read(value, none);
            assert(encode_utf8(value + end) + none =~= encode_utf8(value + end));
        },
        None => {
            assert("-1\r\n"@ =~= "-1"@ + end);
            lemma_line_read("-1"@, none);
            assert(encode_utf8("-1"@ + end) + none =~= encode_utf8("-1"@ + end));
        },
    }
}

} // verus!
