//! Writing a value and reading it back.
use crate::agreement::lemma_decoder_reads_grammar;
use crate::decimal::{decimal_i64, decimal_text, lemma_decimal_text_len, lemma_decimal_text_value};
use crate::error::CodecError;
use crate::machine::{run, Outcome, Session};
use crate::wire::{
    crlf, crlf_at, encoding, encoding_all, first_crlf, lemma_first_crlf, lemma_parse_value_bounds,
    parse_line, parse_value, parse_values, Value, CR,
};
use vstd::prelude::*;
use vstd::utf8::{encode_utf8, encode_utf8_decode_utf8, encode_utf8_valid_utf8};

verus! {

/// A line that comes back as it was written: it holds no terminator and
/// is no longer than the limit.
pub open spec fn line_ok(line: Seq<u8>, limit: nat) -> bool {
    line.len() <= limit && forall|j: int| !crlf_at(line, j)
}

/// The values that come back as they were written. A simple string or an
/// error whose text holds CR LF, or is longer than a line may be, does
/// not; the counts of a bulk string and of an array have to fit the
/// signed 64-bit length field.
pub open spec fn writable(v: Value, limit: nat) -> bool
    decreases v,
{
    match v {
        Value::SimpleString(text) => line_ok(encode_utf8(text), limit),
        Value::Error(text) => line_ok(encode_utf8(text), limit),
        Value::Integer(_) => true,
        Value::BulkString(None) => true,
        Value::BulkString(Some(payload)) => payload.len() <= i64::MAX,
        Value::Array(None) => true,
        Value::Array(Some(items)) => items.len() <= i64::MAX && forall|i: int|
            0 <= i < items.len() ==> writable(#[trigger] items[i], limit),
    }
}

/// A line that was written with its terminator is read back whole,
/// whatever follows.
pub proof fn lemma_line_found(line: Seq<u8>, more: Seq<u8>, limit: nat)
    requires
        line_ok(line, limit),
    ensures
        parse_line(line + crlf() + more, limit) == Ok::<(Seq<u8>, nat), CodecError>(
            (line, line.len() + 2),
        ),
{
    let s = line + crlf() + more;
    lemma_first_crlf(s, 0);
    assert(crlf_at(s, line.len() as int));
    match first_crlf(s, 0) {
        Some(i) => {
            if i < line.len() {
                if i + 1 < line.len() {
                    assert(crlf_at(line, i as int));
                }
            }
            assert(s.take(i as int) =~= line);
        },
        None => {},
    }
}

/// The text of a number is a line that comes back.
pub proof fn lemma_decimal_line(n: int, limit: nat)
    requires
        i64::MIN <= n <= i64::MAX,
        20 <= limit,
    ensures
        line_ok(decimal_text(n), limit),
        decimal_i64(decimal_text(n)) == Some(n as i64),
{
    lemma_decimal_text_len(n);
    lemma_decimal_text_value(n);
    let t = decimal_text(n);
    assert forall|j: int| !crlf_at(t, j) by {}
}

/// Round trip, by the grammar: the bytes that write a value, followed by
/// any others, read as a frame that holds the value and ends where the
/// value's bytes end.
pub proof fn lemma_round_trip(v: Value, tail: Seq<u8>, limit: nat)
    requires
        writable(v, limit),
        20 <= limit,
    ensures
        parse_value(encoding(v) + tail, limit) == Ok::<(Value, nat), CodecError>(
            (v, encoding(v).len()),
        ),
    decreases v, 0nat,
{
    let s = encoding(v) + tail;
    match v {
        Value::SimpleString(text) => {
            let line = encode_utf8(text);
            assert(s.skip(1) =~= line + crlf() + tail);
            lemma_line_found(line, tail, limit);
            encode_utf8_valid_utf8(text);
            encode_utf8_decode_utf8(text);
        },
        Value::Error(text) => {
            let line = encode_utf8(text);
            assert(s.skip(1) =~= line + crlf() + tail);
            lemma_line_found(line, tail, limit);
            encode_utf8_valid_utf8(text);
            encode_utf8_decode_utf8(text);
        },
        Value::Integer(i) => {
            let line = decimal_text(i as int);
            assert(s.skip(1) =~= line + crlf() + tail);
            lemma_decimal_line(i as int, limit);
            lemma_line_found(line, tail, limit);
        },
        Value::BulkString(None) => {
            let line = decimal_text(-1);
            assert(s.skip(1) =~= line + crlf() + tail);
            lemma_decimal_line(-1, limit);
            lemma_line_found(line, tail, limit);
        },
        Value::BulkString(Some(payload)) => {
            let line = decimal_text(payload.len() as int);
            assert(s.skip(1) =~= line + crlf() + (payload + crlf() + tail));
            lemma_decimal_line(payload.len() as int, limit);
            lemma_line_found(line, payload + crlf() + tail, limit);
            let n = line.len() + 2;
            assert(s.skip(1 + n as int) =~= payload + crlf() + tail);
            assert((payload + crlf() + tail).take(payload.len() as int) =~= payload);
        },
        Value::Array(None) => {
            let line = decimal_text(-1);
            assert(s.skip(1) =~= line + crlf() + tail);
            lemma_decimal_line(-1, limit);
            lemma_line_found(line, tail, limit);
        },
        Value::Array(Some(items)) => {
            let line = decimal_text(items.len() as int);
            assert(s.skip(1) =~= line + crlf() + (encoding_all(items) + tail));
            lemma_decimal_line(items.len() as int, limit);
            lemma_line_found(line, encoding_all(items) + tail, limit);
            let n = line.len() + 2;
            assert(s.skip(1 + n as int) =~= encoding_all(items) + tail);
            lemma_round_trip_all(items, tail, limit);
        },
    }
}

/// The same for values written one after another.
pub proof fn lemma_round_trip_all(items: Seq<Value>, tail: Seq<u8>, limit: nat)
    requires
        forall|i: int| 0 <= i < items.len() ==> writable(#[trigger] items[i], limit),
        20 <= limit,
    ensures
        parse_values(encoding_all(items) + tail, items.len(), limit) == Ok::<
            (Seq<Value>, nat),
            CodecError,
        >((items, encoding_all(items).len())),
    decreases items, 1nat,
{
    if items.len() == 0 {
        assert(items =~= Seq::<Value>::empty());
    } else {
        let first = items[0];
        let others = items.skip(1);
        let s = encoding_all(items) + tail;
        assert(s =~= encoding(first) + (encoding_all(others) + tail));
        lemma_round_trip(first, encoding_all(others) + tail, limit);
        lemma_parse_value_bounds(s, limit);
        assert(s.skip(encoding(first).len() as int) =~= encoding_all(others) + tail);
        assert forall|i: int| 0 <= i < others.len() implies writable(
            #[trigger] others[i],
            limit,
        ) by {}
        lemma_round_trip_all(others, tail, limit);
        assert(seq![first] + others =~= items);
    }
}

/// Round trip. A decoder at the start of a frame, given the bytes that
/// write a value and any bytes after them, yields the value in one attempt
/// and leaves the bytes after it.
pub proof fn lemma_decode_encoded(v: Value, tail: Seq<u8>, limit: nat)
    requires
        writable(v, limit),
        20 <= limit,
        limit + 3 <= usize::MAX,
    ensures
        run(Session::idle(limit), encoding(v) + tail) == Outcome::Value(v, tail),
{
    lemma_round_trip(v, tail, limit);
    lemma_decoder_reads_grammar(limit, encoding(v) + tail);
    assert((encoding(v) + tail).skip(encoding(v).len() as int) =~= tail);
}

/// Written bytes stay as they are: reading the bytes that write a value
/// and writing what was read gives the same bytes.
pub proof fn lemma_encode_decoded(v: Value, limit: nat)
    requires
        writable(v, limit),
        20 <= limit,
    ensures
        parse_value(encoding(v), limit) matches Ok((read, n)) && n == encoding(v).len()
            && encoding(read) == encoding(v),
{
    lemma_round_trip(v, Seq::empty(), limit);
}

} // verus!
