//! Values to bytes.
use crate::buffer::buffered;
use crate::decimal::{decimal_text, push_decimal, push_digits};
use crate::resp_stateful_codec::{lemma_values_of, values_of, RedisValue};
use crate::wire::{
    crlf, encoding, encoding_all, Value, CR, LF, TAG_ARRAY, TAG_BULK, TAG_ERROR, TAG_INTEGER,
    TAG_SIMPLE,
};
use bytes::BytesMut;
use vstd::prelude::*;
use vstd::utf8::encode_utf8;

verus! {

/// Writing values one after another, the last one apart.
pub proof fn lemma_encoding_all_push(items: Seq<Value>, last: Value)
    ensures
        encoding_all(items.push(last)) == encoding_all(items) + encoding(last),
    decreases items.len(),
{
    let all = items.push(last);
    if items.len() == 0 {
        assert(encoding_all(all.skip(1)) =~= Seq::<u8>::empty());
    } else {
        assert(all.skip(1) =~= items.skip(1).push(last));
        lemma_encoding_all_push(items.skip(1), last);
        assert(encoding(items[0]) + (encoding_all(items.skip(1)) + encoding(last)) =~= (encoding(
            items[0],
        ) + encoding_all(items.skip(1))) + encoding(last));
    }
}

fn push_bytes(out: &mut Vec<u8>, bytes: &[u8])
    ensures
        final(out)@ == old(out)@ + bytes@,
{
    let mut i: usize = 0;
    while i < bytes.len()
        invariant
            i <= bytes.len(),
            out@ == old(out)@ + bytes@.take(i as int),
        decreases bytes.len() - i,
    {
        out.push(bytes[i]);
        i = i + 1;
    }
}

fn push_crlf(out: &mut Vec<u8>)
    ensures
        final(out)@ == old(out)@ + crlf(),
{
    out.push(CR);
    out.push(LF);
}

/// Appends the length line of a counted value.
fn push_count(tag: u8, count: usize, out: &mut Vec<u8>)
    ensures
        final(out)@ == old(out)@ + seq![tag] + decimal_text(count as int) + crlf(),
{
    out.push(tag);
    push_digits(count as u64, out);
    push_crlf(out);
}

/// Appends a line of text.
fn push_text(tag: u8, text: &String, out: &mut Vec<u8>)
    ensures
        final(out)@ == old(out)@ + seq![tag] + encode_utf8(text@) + crlf(),
{
    out.push(tag);
    push_bytes(out, text.as_str().as_bytes());
    push_crlf(out);
}

/// Appends the bytes that write `item`.
pub fn encode_value(item: &RedisValue, out: &mut Vec<u8>)
    ensures
        final(out)@ == old(out)@ + encoding(item@),
    decreases item,
{
    match item {
        RedisValue::SimpleString(text) => {
            push_text(TAG_SIMPLE, text, out);
        },
        RedisValue::Error(text) => {
            push_text(TAG_ERROR, text, out);
        },
        RedisValue::Integer(i) => {
            out.push(TAG_INTEGER);
            push_decimal(*i, out);
            push_crlf(out);
        },
        RedisValue::BulkString(None) => {
            out.push(TAG_BULK);
            push_decimal(-1, out);
            push_crlf(out);
        },
        RedisValue::BulkString(Some(payload)) => {
            push_count(TAG_BULK, payload.len(), out);
            push_bytes(out, payload.as_slice());
            push_crlf(out);
        },
        RedisValue::Array(None) => {
            out.push(TAG_ARRAY);
            push_decimal(-1, out);
            push_crlf(out);
        },
        RedisValue::Array(Some(items)) => {
            push_count(TAG_ARRAY, items.len(), out);
            let ghost header = out@;
            let mut i: usize = 0;
            while i < items.len()
                invariant
                    i <= items.len(),
                    item == RedisValue::Array(Some(*items)),
                    out@ == header + encoding_all(values_of(items@).take(i as int)),
                decreases items.len() - i,
            {
                proof {
                    // the element is inside the array, which is inside `item`
                    let inner = item->Array_0;
                    assert(decreases_to!(inner => inner->Some_0));
                    vstd::std_specs::vec::axiom_vec_index_decreases(*items, i as int);
                }
                encode_value(&items[i], out);
                proof {
                    lemma_values_of(items@);
                    let done = values_of(items@).take(i as int);
                    assert(values_of(items@).take(i + 1) =~= done.push(items@[i as int]@));
                    lemma_encoding_all_push(done, items@[i as int]@);
                }
                i = i + 1;
            }
            proof {
                lemma_values_of(items@);
                assert(values_of(items@).take(items.len() as int) =~= values_of(items@));
            }
        },
    }
}

/// Appends the bytes that write `item` to `dst`.
pub fn resp_encode(item: RedisValue, dst: &mut BytesMut)
    ensures
        buffered(final(dst)) == buffered(old(dst)) + encoding(item@),
{
    let mut out: Vec<u8> = Vec::new();
    encode_value(&item, &mut out);
    dst.extend_from_slice(out.as_slice());
}

} // verus!
