//! The wire format, as mathematics: what a value is, how it is written, and
//! what a byte sequence reads as.
use crate::decimal::{decimal_i64, decimal_text};
use crate::error::CodecError;
use vstd::prelude::*;
use vstd::utf8::{decode_utf8, encode_utf8, valid_utf8};

verus! {

/// Carriage return.
pub const CR: u8 = 13;

/// Line feed.
pub const LF: u8 = 10;

/// `+`, the tag of a simple string.
pub const TAG_SIMPLE: u8 = 43;

/// `-`, the tag of an error.
pub const TAG_ERROR: u8 = 45;

/// `:`, the tag of an integer.
pub const TAG_INTEGER: u8 = 58;

/// `$`, the tag of a bulk string.
pub const TAG_BULK: u8 = 36;

/// `*`, the tag of an array.
pub const TAG_ARRAY: u8 = 42;

/// The longest line, in bytes before its terminator, that a scanner with
/// the default limit accepts.
pub const DEFAULT_LINE_LIMIT: usize = 512_000_000;

/// A protocol value.
pub enum Value {
    SimpleString(Seq<char>),
    Error(Seq<char>),
    Integer(i64),
    /// A counted blob; `None` is the protocol's null.
    BulkString(Option<Seq<u8>>),
    /// A counted sequence of values; `None` is the protocol's null array,
    /// which differs from the empty one.
    Array(Option<Seq<Value>>),
}

/// The terminator of a line: CR, then LF.
pub open spec fn crlf() -> Seq<u8> {
    seq![CR, LF]
}

/// A terminator stands at offset `i`.
pub open spec fn crlf_at(s: Seq<u8>, i: int) -> bool {
    0 <= i && i + 1 < s.len() && s[i] == CR && s[i + 1] == LF
}

/// The offset of the first terminator at or after `from`.
pub open spec fn first_crlf(s: Seq<u8>, from: nat) -> Option<nat>
    decreases s.len() - from,
{
    if from + 2 > s.len() {
        None
    } else if crlf_at(s, from as int) {
        Some(from)
    } else {
        first_crlf(s, from + 1)
    }
}

/// What `first_crlf` finds is a terminator, inside `s`, with none between
/// `from` and it; and where it finds none, there is none from `from` on.
pub proof fn lemma_first_crlf(s: Seq<u8>, from: nat)
    ensures
        match first_crlf(s, from) {
            Some(i) => from <= i && i + 2 <= s.len() && crlf_at(s, i as int) && forall|j: int|
                from <= j < i ==> !crlf_at(s, j),
            None => forall|j: int| from <= j ==> !crlf_at(s, j),
        },
    decreases s.len() - from,
{
    if from + 2 > s.len() {
    } else if crlf_at(s, from as int) {
    } else {
        lemma_first_crlf(s, from + 1);
    }
}

/// What a scan for the end of a line finds.
pub enum Scan {
    /// The line ends at this offset, where its terminator begins.
    Found(nat),
    /// No terminator yet, and the limit is not reached.
    NeedMore,
    /// The line is longer than the limit.
    TooLong,
}

/// A scan of `s` for a terminator that starts at offset `from` and accepts
/// lines of up to `limit` bytes.
pub open spec fn scan(s: Seq<u8>, from: nat, limit: nat) -> Scan {
    match first_crlf(s, from) {
        Some(i) => if i <= limit {
            Scan::Found(i)
        } else {
            Scan::TooLong
        },
        None => if s.len() >= limit + 3 {
            Scan::TooLong
        } else {
            Scan::NeedMore
        },
    }
}

/// A line: the bytes before the first terminator, and the number of bytes
/// read, terminator included.
pub open spec fn parse_line(s: Seq<u8>, limit: nat) -> Result<(Seq<u8>, nat), CodecError> {
    match scan(s, 0, limit) {
        Scan::Found(i) => Ok((s.take(i as int), i + 2)),
        Scan::NeedMore => Err(CodecError::Incomplete),
        Scan::TooLong => Err(CodecError::FrameTooLarge),
    }
}

/// A line of text, which has to be UTF-8.
pub open spec fn parse_text_line(s: Seq<u8>, limit: nat) -> Result<(Seq<char>, nat), CodecError> {
    match parse_line(s, limit) {
        Ok((line, n)) => if valid_utf8(line) {
            Ok((decode_utf8(line), n))
        } else {
            Err(CodecError::InvalidEncoding)
        },
        Err(e) => Err(e),
    }
}

/// A line that holds a signed 64-bit integer in decimal.
pub open spec fn parse_integer_line(s: Seq<u8>, limit: nat) -> Result<(i64, nat), CodecError> {
    match parse_line(s, limit) {
        Ok((line, n)) => match decimal_i64(line) {
            Some(i) => Ok((i, n)),
            None => Err(CodecError::InvalidNumber),
        },
        Err(e) => Err(e),
    }
}

/// What follows the length line of a bulk string whose declared length is
/// `len`: that many bytes and two more, which end it.
pub open spec fn parse_bulk_body(s: Seq<u8>, len: nat) -> Result<(Seq<u8>, nat), CodecError> {
    if s.len() < len + 2 {
        Err(CodecError::Incomplete)
    } else {
        Ok((s.take(len as int), len + 2))
    }
}

/// The frame at the start of `s`: the value it holds and its length in
/// bytes. `Err(Incomplete)` where `s` ends inside a frame; another error
/// where `s` cannot be the start of one. The two bytes behind the payload
/// of a bulk string end it whatever they are.
pub open spec fn parse_value(s: Seq<u8>, limit: nat) -> Result<(Value, nat), CodecError>
    decreases s.len(), 0nat,
{
    if s.len() == 0 {
        Err(CodecError::Incomplete)
    } else if s[0] == TAG_SIMPLE {
        match parse_text_line(s.skip(1), limit) {
            Ok((text, n)) => Ok((Value::SimpleString(text), 1 + n)),
            Err(e) => Err(e),
        }
    } else if s[0] == TAG_ERROR {
        match parse_text_line(s.skip(1), limit) {
            Ok((text, n)) => Ok((Value::Error(text), 1 + n)),
            Err(e) => Err(e),
        }
    } else if s[0] == TAG_INTEGER {
        match parse_integer_line(s.skip(1), limit) {
            Ok((i, n)) => Ok((Value::Integer(i), 1 + n)),
            Err(e) => Err(e),
        }
    } else if s[0] == TAG_BULK {
        match parse_integer_line(s.skip(1), limit) {
            Ok((len, n)) => if len == -1 {
                Ok((Value::BulkString(None), 1 + n))
            } else if len < 0 {
                Err(CodecError::InvalidNumber)
            } else {
                match parse_bulk_body(s.skip(1 + n as int), len as nat) {
                    Ok((payload, m)) => Ok((Value::BulkString(Some(payload)), 1 + n + m)),
                    Err(e) => Err(e),
                }
            },
            Err(e) => Err(e),
        }
    } else if s[0] == TAG_ARRAY {
        match parse_integer_line(s.skip(1), limit) {
            Ok((len, n)) => if len == -1 {
                Ok((Value::Array(None), 1 + n))
            } else if len < 0 {
                Err(CodecError::InvalidNumber)
            } else {
                proof {
                    lemma_first_crlf(s.skip(1), 0);
                }
                match parse_values(s.skip(1 + n as int), len as nat, limit) {
                    Ok((items, m)) => Ok((Value::Array(Some(items)), 1 + n + m)),
                    Err(e) => Err(e),
                }
            },
            Err(e) => Err(e),
        }
    } else {
        Err(CodecError::InvalidTag)
    }
}

/// `count` frames in a row at the start of `s`. A frame takes at least one
/// byte and lies inside `s` (`lemma_parse_value_bounds`); the test of it
/// here only lets the definition be seen to end.
pub open spec fn parse_values(s: Seq<u8>, count: nat, limit: nat) -> Result<
    (Seq<Value>, nat),
    CodecError,
>
    decreases s.len(), count + 1,
{
    if count == 0 {
        Ok((Seq::empty(), 0))
    } else {
        match parse_value(s, limit) {
            Ok((first, n)) => if 0 < n <= s.len() {
                match parse_values(s.skip(n as int), (count - 1) as nat, limit) {
                    Ok((rest, m)) => Ok((seq![first] + rest, n + m)),
                    Err(e) => Err(e),
                }
            } else {
                Err(CodecError::Incomplete)
            },
            Err(e) => Err(e),
        }
    }
}

/// The bytes that write `v`.
pub open spec fn encoding(v: Value) -> Seq<u8>
    decreases v,
{
    match v {
        Value::SimpleString(text) => seq![TAG_SIMPLE] + encode_utf8(text) + crlf(),
        Value::Error(text) => seq![TAG_ERROR] + encode_utf8(text) + crlf(),
        Value::Integer(i) => seq![TAG_INTEGER] + decimal_text(i as int) + crlf(),
        Value::BulkString(None) => seq![TAG_BULK] + decimal_text(-1) + crlf(),
        Value::BulkString(Some(payload)) => seq![TAG_BULK] + decimal_text(payload.len() as int)
            + crlf() + payload + crlf(),
        Value::Array(None) => seq![TAG_ARRAY] + decimal_text(-1) + crlf(),
        Value::Array(Some(items)) => seq![TAG_ARRAY] + decimal_text(items.len() as int) + crlf()
            + encoding_all(items),
    }
}

/// The bytes that write the values of `items` one after another.
pub open spec fn encoding_all(items: Seq<Value>) -> Seq<u8>
    decreases items,
{
    if items.len() == 0 {
        Seq::empty()
    } else {
        encoding(items[0]) + encoding_all(items.skip(1))
    }
}

/// A frame that was read is not empty and lies inside the input.
pub proof fn lemma_parse_value_bounds(s: Seq<u8>, limit: nat)
    ensures
        parse_value(s, limit) matches Ok((_, n)) ==> 0 < n <= s.len(),
    decreases s.len(), 0nat,
{
    if s.len() > 0 {
        lemma_first_crlf(s.skip(1), 0);
        if s[0] == TAG_ARRAY {
            match parse_integer_line(s.skip(1), limit) {
                Ok((len, n)) => {
                    if len >= 0 {
                        lemma_parse_values_bounds(s.skip(1 + n as int), len as nat, limit);
                    }
                },
                Err(_) => {},
            }
        }
    }
}

/// Frames that were read in a row are as many as were asked for, and lie
/// inside the input.
pub proof fn lemma_parse_values_bounds(s: Seq<u8>, count: nat, limit: nat)
    ensures
        parse_values(s, count, limit) matches Ok((items, n)) ==> n <= s.len() && items.len()
            == count,
    decreases s.len(), count + 1,
{
    if count > 0 {
        lemma_parse_value_bounds(s, limit);
        match parse_value(s, limit) {
            Ok((first, n)) => {
                lemma_parse_values_bounds(s.skip(n as int), (count - 1) as nat, limit);
            },
            Err(_) => {},
        }
    }
}

} // verus!
