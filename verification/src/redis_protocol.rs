//! The one-shot reader of replies, and their reading as publish/subscribe
//! events.
use crate::buffer::{advance, as_slice, buffered};
use crate::decimal::{decimal_i64, decimal_text, parse_decimal};
use crate::error::{CodecError, ShapeError};
use crate::text::{decimal_string, lenient_text, lossy, text_of, trimmed};
use crate::wire::{
    crlf_at, first_crlf, lemma_first_crlf, CR, LF, TAG_ARRAY, TAG_BULK, TAG_ERROR, TAG_INTEGER,
    TAG_SIMPLE,
};
use crate::{take_arr, take_u8, take_vec};
use bytes::BytesMut;
use vstd::prelude::*;
use vstd::slice::{slice_subrange, slice_to_vec};
use vstd::string::StringExecFns;
use vstd::utf8::{decode_utf8, encode_utf8, valid_utf8};

verus! {

/// A reply, as the one-shot reader makes it. The protocol's null bulk
/// string is the empty `String`, and its null array the empty `List`.
#[derive(Debug, PartialEq, Eq)]
pub enum RedisValue {
    String(Vec<u8>),
    Int(i64),
    List(Vec<RedisValue>),
    Status(String),
    Error(String),
}

/// A reply, as mathematics.
pub enum Reply {
    String(Seq<u8>),
    Int(i64),
    List(Seq<Reply>),
    Status(Seq<char>),
    Error(Seq<char>),
}

impl View for RedisValue {
    type V = Reply;

    open spec fn view(&self) -> Reply {
        reply_of(*self)
    }
}

/// The reply that an executable value stands for.
pub open spec fn reply_of(v: RedisValue) -> Reply
    decreases v,
{
    match v {
        RedisValue::String(data) => Reply::String(data@),
        RedisValue::Int(i) => Reply::Int(i),
        RedisValue::List(items) => Reply::List(replies_of(items@)),
        RedisValue::Status(text) => Reply::Status(text@),
        RedisValue::Error(text) => Reply::Error(text@),
    }
}

/// The replies that a sequence of executable values stands for.
pub open spec fn replies_of(items: Seq<RedisValue>) -> Seq<Reply>
    decreases items,
{
    if items.len() == 0 {
        Seq::empty()
    } else {
        replies_of(items.drop_last()).push(reply_of(items.last()))
    }
}

/// `replies_of` goes element by element.
pub proof fn lemma_replies_of(items: Seq<RedisValue>)
    ensures
        replies_of(items).len() == items.len(),
        forall|i: int| 0 <= i < items.len() ==> (#[trigger] replies_of(items)[i]) == items[i]@,
    decreases items.len(),
{
    if items.len() > 0 {
        lemma_replies_of(items.drop_last());
    }
}

/// A reply as text: a bulk string by its bytes, read leniently; a number
/// in decimal; a list by its first element, or empty where it has none.
pub open spec fn reply_text(r: Reply) -> Seq<char>
    decreases r,
{
    match r {
        Reply::String(data) => lenient_text(data),
        Reply::Int(i) => decode_utf8(decimal_text(i as int)),
        Reply::Status(text) => text,
        Reply::Error(text) => text,
        Reply::List(items) => if items.len() > 0 {
            reply_text(items[0])
        } else {
            Seq::empty()
        },
    }
}

/// A reply as bytes: a bulk string is its bytes, and any other reply its
/// text in UTF-8.
pub open spec fn reply_bytes(r: Reply) -> Seq<u8> {
    match r {
        Reply::String(data) => data,
        _ => encode_utf8(reply_text(r)),
    }
}

impl RedisValue {
    /// The reply as text.
    pub fn as_str(&self) -> (r: String)
        ensures
            r@ == reply_text(self@),
        decreases self,
    {
        match self {
            RedisValue::String(data) => lossy(data.as_slice()),
            RedisValue::Int(data) => decimal_string(*data),
            RedisValue::Status(data) => data.clone(),
            RedisValue::Error(data) => data.clone(),
            RedisValue::List(v) => {
                proof {
                    lemma_replies_of(v@);
                }
                if v.len() > 0 {
                    proof {
                        let held = self->List_0;
                        vstd::std_specs::vec::axiom_vec_index_decreases(held, 0);
                    }
                    v[0].as_str()
                } else {
                    String::new()
                }
            },
        }
    }

    /// The reply as bytes.
    pub fn take_buffer(self) -> (r: Vec<u8>)
        ensures
            r@ == reply_bytes(self@),
    {
        match self {
            RedisValue::String(data) => data,
            other => {
                let text = other.as_str();
                slice_to_vec(text.as_str().as_bytes())
            },
        }
    }
}

/// A message that was published to a channel.
#[derive(Debug, PartialEq, Eq)]
pub struct PubSubMessage {
    pub channel_name: String,
    /// The pattern that matched, for a subscription by pattern.
    pub channel_pattern: Option<String>,
    pub data: Vec<u8>,
}

impl PubSubMessage {
    /// The payload as text, where it is UTF-8.
    pub fn to_str(&self) -> (r: Result<String, ShapeError>)
        ensures
            match r {
                Ok(text) => valid_utf8(self.data@) && text@ == decode_utf8(self.data@),
                Err(e) => !valid_utf8(self.data@) && e == ShapeError::NotText,
            },
    {
        match text_of(self.data.as_slice()) {
            Some(text) => Ok(text),
            None => Err(ShapeError::NotText),
        }
    }
}

/// What a reply means on a connection that has subscribed.
#[derive(Debug, PartialEq, Eq)]
pub enum PubSubEvent {
    Message(PubSubMessage),
    Pong(String),
    /// A list that is no message: its kind, and the elements after it.
    List((String, Vec<RedisValue>)),
    String(String),
    Int(i64),
    Status(String),
    Error(String),
}

/// An event, as mathematics.
pub enum Event {
    Message { channel: Seq<char>, pattern: Option<Seq<char>>, data: Seq<u8> },
    Pong(Seq<char>),
    List(Seq<char>, Seq<Reply>),
    String(Seq<char>),
    Int(i64),
    Status(Seq<char>),
    Error(Seq<char>),
}

impl View for PubSubEvent {
    type V = Event;

    open spec fn view(&self) -> Event {
        match self {
            PubSubEvent::Message(m) => Event::Message {
                channel: m.channel_name@,
                pattern: match m.channel_pattern {
                    Some(p) => Some(p@),
                    None => None,
                },
                data: m.data@,
            },
            PubSubEvent::Pong(text) => Event::Pong(text@),
            PubSubEvent::List(pair) => Event::List(pair.0@, replies_of(pair.1@)),
            PubSubEvent::String(text) => Event::String(text@),
            PubSubEvent::Int(i) => Event::Int(*i),
            PubSubEvent::Status(text) => Event::Status(text@),
            PubSubEvent::Error(text) => Event::Error(text@),
        }
    }
}

/// The event that a list is whose first element reads `kind` and whose
/// other elements are `fields`: after `message` come a channel and a
/// payload, after `pmessage` a pattern, a channel and a payload, and any
/// other list is handed on with its kind.
pub open spec fn event_of_list(kind: Seq<char>, fields: Seq<Reply>) -> Result<Event, ShapeError> {
    if kind == "message"@ {
        if fields.len() >= 2 {
            Ok(
                Event::Message {
                    channel: reply_text(fields[0]),
                    pattern: None,
                    data: reply_bytes(fields[1]),
                },
            )
        } else {
            Err(ShapeError::MessageFields)
        }
    } else if kind == "pmessage"@ {
        if fields.len() >= 3 {
            Ok(
                Event::Message {
                    channel: reply_text(fields[1]),
                    pattern: Some(reply_text(fields[0])),
                    data: reply_bytes(fields[2]),
                },
            )
        } else {
            Err(ShapeError::PatternMessageFields)
        }
    } else {
        Ok(Event::List(kind, fields))
    }
}

/// The event that a reply is. A list is read by the text of its first
/// element. A bulk string is the answer to a ping, and so is the simple
/// string `PONG`.
pub open spec fn event_of(r: Reply) -> Result<Event, ShapeError> {
    match r {
        Reply::List(items) => if items.len() == 0 {
            Err(ShapeError::EmptyList)
        } else {
            event_of_list(reply_text(items[0]), items.skip(1))
        },
        Reply::String(data) => Ok(Event::Pong(lenient_text(data))),
        Reply::Int(i) => Ok(Event::Int(i)),
        Reply::Status(text) => if text == "PONG"@ {
            Ok(Event::Pong(text))
        } else {
            Ok(Event::Status(text))
        },
        Reply::Error(text) => Ok(Event::Error(text)),
    }
}

/// Whether `text` is `word`.
fn is_word(text: &String, word: &str) -> (r: bool)
    ensures
        r == (text@ == word@),
{
    *text == String::from_str(word)
}

impl PubSubEvent {
    /// Reads a list as an event, given the text of its first element and
    /// the elements after it.
    pub fn of_list(kind: String, fields: Vec<RedisValue>) -> (r: Result<PubSubEvent, ShapeError>)
        ensures
            match event_of_list(kind@, replies_of(fields@)) {
                Ok(event) => r matches Ok(e) && e@ == event,
                Err(error) => r matches Err(e) && e == error,
            },
    {
        let mut v = fields;
        proof {
            lemma_replies_of(v@);
        }
        if is_word(&kind, "message") {
            if v.len() >= 2 {
                let rv_channel = v.remove(0);
                let rv_data = v.remove(0);
                Ok(
                    PubSubEvent::Message(
                        PubSubMessage {
                            channel_name: rv_channel.as_str(),
                            channel_pattern: None,
                            data: rv_data.take_buffer(),
                        },
                    ),
                )
            } else {
                Err(ShapeError::MessageFields)
            }
        } else if is_word(&kind, "pmessage") {
            if v.len() >= 3 {
                let rv_pattern = v.remove(0);
                let rv_channel = v.remove(0);
                let rv_data = v.remove(0);
                Ok(
                    PubSubEvent::Message(
                        PubSubMessage {
                            channel_name: rv_channel.as_str(),
                            channel_pattern: Some(rv_pattern.as_str()),
                            data: rv_data.take_buffer(),
                        },
                    ),
                )
            } else {
                Err(ShapeError::PatternMessageFields)
            }
        } else {
            Ok(PubSubEvent::List((kind, v)))
        }
    }

    /// Reads a reply as an event.
    pub fn try_from(value: RedisValue) -> (r: Result<PubSubEvent, ShapeError>)
        ensures
            match event_of(value@) {
                Ok(event) => r matches Ok(e) && e@ == event,
                Err(error) => r matches Err(e) && e == error,
            },
    {
        match value {
            RedisValue::List(v) => {
                let mut v = v;
                let ghost items = replies_of(v@);
                proof {
                    lemma_replies_of(v@);
                }
                if v.len() == 0 {
                    return Err(ShapeError::EmptyList);
                }
                let message_kind = v.remove(0);
                proof {
                    lemma_replies_of(v@);
                    assert(replies_of(v@) =~= items.skip(1));
                }
                PubSubEvent::of_list(message_kind.as_str(), v)
            },
            RedisValue::String(v) => Ok(PubSubEvent::Pong(lossy(v.as_slice()))),
            RedisValue::Int(v) => Ok(PubSubEvent::Int(v)),
            RedisValue::Status(v) => {
                if is_word(&v, "PONG") {
                    Ok(PubSubEvent::Pong(v))
                } else {
                    Ok(PubSubEvent::Status(v))
                }
            },
            RedisValue::Error(v) => Ok(PubSubEvent::Error(v)),
        }
    }
}

/// Shifts a reading by the bytes before it.
pub open spec fn after<T>(read: nat, r: Result<(T, nat), CodecError>) -> Result<
    (T, nat),
    CodecError,
> {
    match r {
        Ok((v, n)) => Ok((v, read + n)),
        Err(e) => Err(e),
    }
}

/// A reading took the first `n` bytes of `before` and left `after`.
pub open spec fn took(before: Seq<u8>, n: nat, after: Seq<u8>) -> bool {
    0 < n <= before.len() && after == before.skip(n as int)
}

/// A line, as the one-shot reader takes it: the text up to the first
/// terminator, trimmed, and the number of bytes read. The text has to be
/// UTF-8.
pub open spec fn line_reading(s: Seq<u8>) -> Result<(Seq<char>, nat), CodecError> {
    match first_crlf(s, 0) {
        Some(i) => if valid_utf8(s.take(i + 1 as int)) {
            Ok((trimmed(decode_utf8(s.take(i + 1 as int))), i + 2))
        } else {
            Err(CodecError::InvalidEncoding)
        },
        None => Err(CodecError::Incomplete),
    }
}

/// A line that holds a number.
pub open spec fn length_reading(s: Seq<u8>) -> Result<(i64, nat), CodecError> {
    match line_reading(s) {
        Ok((text, n)) => match decimal_i64(encode_utf8(text)) {
            Some(value) => Ok((value, n)),
            None => Err(CodecError::InvalidNumber),
        },
        Err(e) => Err(e),
    }
}

/// The body of a bulk string: a length line, then that many bytes and a
/// terminator. The length -1 stands for no bytes at all.
pub open spec fn string_reading(s: Seq<u8>) -> Result<(Reply, nat), CodecError> {
    match length_reading(s) {
        Ok((len, n)) => if len == -1 {
            Ok((Reply::String(Seq::empty()), n))
        } else if len < 0 {
            Err(CodecError::InvalidNumber)
        } else if s.len() < n + len + 2 {
            Err(CodecError::Incomplete)
        } else if crlf_at(s, n + len) {
            Ok((Reply::String(s.subrange(n as int, n + len)), (n + len + 2) as nat))
        } else {
            Err(CodecError::MissingTerminator)
        },
        Err(e) => Err(e),
    }
}

/// The body of an integer reply.
pub open spec fn int_reading(s: Seq<u8>) -> Result<(Reply, nat), CodecError> {
    match length_reading(s) {
        Ok((i, n)) => Ok((Reply::Int(i), n)),
        Err(e) => Err(e),
    }
}

/// The reply at the start of `s`, and its length in bytes.
pub open spec fn value_reading(s: Seq<u8>) -> Result<(Reply, nat), CodecError>
    decreases s.len(), 0nat,
{
    if s.len() == 0 {
        Err(CodecError::Incomplete)
    } else if s[0] == TAG_BULK {
        after(1, string_reading(s.skip(1)))
    } else if s[0] == TAG_INTEGER {
        after(1, int_reading(s.skip(1)))
    } else if s[0] == TAG_ARRAY {
        after(1, list_reading(s.skip(1)))
    } else if s[0] == TAG_SIMPLE {
        match line_reading(s.skip(1)) {
            Ok((text, n)) => Ok((Reply::Status(text), 1 + n)),
            Err(e) => Err(e),
        }
    } else if s[0] == TAG_ERROR {
        match line_reading(s.skip(1)) {
            Ok((text, n)) => Ok((Reply::Error(text), 1 + n)),
            Err(e) => Err(e),
        }
    } else {
        Err(CodecError::InvalidTag)
    }
}

/// The body of a list: a count line, then that many replies. The count -1
/// stands for no replies at all.
pub open spec fn list_reading(s: Seq<u8>) -> Result<(Reply, nat), CodecError>
    decreases s.len(), 2nat,
{
    match length_reading(s) {
        Ok((len, n)) => if len == -1 {
            Ok((Reply::List(Seq::empty()), n))
        } else if len < 0 {
            Err(CodecError::InvalidNumber)
        } else if 0 < n <= s.len() {
            match values_reading(s.skip(n as int), len as nat) {
                Ok((items, m)) => Ok((Reply::List(items), n + m)),
                Err(e) => Err(e),
            }
        } else {
            Err(CodecError::Incomplete)
        },
        Err(e) => Err(e),
    }
}

/// `count` replies in a row.
pub open spec fn values_reading(s: Seq<u8>, count: nat) -> Result<(Seq<Reply>, nat), CodecError>
    decreases s.len(), 1nat, count,
{
    if count == 0 {
        Ok((Seq::empty(), 0))
    } else {
        match value_reading(s) {
            Ok((first, n)) => if 0 < n <= s.len() {
                match values_reading(s.skip(n as int), (count - 1) as nat) {
                    Ok((rest, m)) => Ok((seq![first] + rest, n + m)),
                    Err(e) => Err(e),
                }
            } else {
                Err(CodecError::Incomplete)
            },
            Err(e) => Err(e),
        }
    }
}

/// A reply that was read is not empty and lies inside the input.
pub proof fn lemma_value_reading_bounds(s: Seq<u8>)
    ensures
        value_reading(s) matches Ok((_, n)) ==> 0 < n <= s.len(),
    decreases s.len(), 0nat,
{
    if s.len() > 0 {
        lemma_first_crlf(s.skip(1), 0);
        if s[0] == TAG_ARRAY {
            lemma_list_reading_bounds(s.skip(1));
        }
    }
}

pub proof fn lemma_list_reading_bounds(s: Seq<u8>)
    ensures
        list_reading(s) matches Ok((_, n)) ==> 0 < n <= s.len(),
    decreases s.len(), 2nat,
{
    lemma_first_crlf(s, 0);
    match length_reading(s) {
        Ok((len, n)) => {
            if len >= 0 {
                lemma_values_reading_bounds(s.skip(n as int), len as nat);
            }
        },
        Err(_) => {},
    }
}

pub proof fn lemma_values_reading_bounds(s: Seq<u8>, count: nat)
    ensures
        values_reading(s, count) matches Ok((items, n)) ==> n <= s.len() && items.len() == count,
    decreases s.len(), 1nat, count,
{
    if count > 0 {
        lemma_value_reading_bounds(s);
        match value_reading(s) {
            Ok((first, n)) => {
                lemma_values_reading_bounds(s.skip(n as int), (count - 1) as nat);
            },
            Err(_) => {},
        }
    }
}

/// Reads a line that holds a number, and takes it off the front of `src`.
pub fn read_length(src: &mut &[u8]) -> (r: Result<i64, CodecError>)
    ensures
        match length_reading(old(src)@) {
            Ok((value, n)) => r matches Ok(v) && v == value && took(old(src)@, n, final(src)@),
            Err(e) => r matches Err(x) && x == e,
        },
{
    let text = read_redis_generic_crlf_string(src)?;
    match parse_decimal(text.as_str().as_bytes()) {
        Some(value) => Ok(value),
        None => Err(CodecError::InvalidNumber),
    }
}

/// Takes a terminator off the front of `src`.
pub fn pop_crlf(src: &mut &[u8]) -> (r: Result<(), CodecError>)
    ensures
        match r {
            Ok(_) => crlf_at(old(src)@, 0) && final(src)@ == old(src)@.skip(2),
            Err(e) => if old(src)@.len() < 2 {
                e == CodecError::Incomplete
            } else {
                e == CodecError::MissingTerminator && !crlf_at(old(src)@, 0)
            },
        },
{
    let pair = take_arr::<2>(src)?;
    if pair[0] != CR || pair[1] != LF {
        return Err(CodecError::MissingTerminator);
    }
    Ok(())
}

/// Reads the reply at the front of `src` and takes it off.
pub fn read_value(src: &mut &[u8]) -> (r: Result<RedisValue, CodecError>)
    ensures
        match value_reading(old(src)@) {
            Ok((reply, n)) => r matches Ok(v) && v@ == reply && took(old(src)@, n, final(src)@),
            Err(e) => r matches Err(x) && x == e,
        },
    decreases old(src)@.len(), 0nat,
{
    let ghost s = src@;
    let kind = take_u8(src)?;
    let r = if kind == TAG_BULK {
        read_redis_string(src)
    } else if kind == TAG_INTEGER {
        read_redis_int(src)
    } else if kind == TAG_ARRAY {
        read_redis_list(src)
    } else if kind == TAG_SIMPLE {
        match read_redis_generic_crlf_string(src) {
            Ok(text) => Ok(RedisValue::Status(text)),
            Err(e) => Err(e),
        }
    } else if kind == TAG_ERROR {
        match read_redis_generic_crlf_string(src) {
            Ok(text) => Ok(RedisValue::Error(text)),
            Err(e) => Err(e),
        }
    } else {
        Err(CodecError::InvalidTag)
    };
    proof {
        if r is Ok {
            let n = value_reading(s)->Ok_0.1;
            assert(s.skip(1).skip(n - 1) =~= s.skip(n as int));
        }
    }
    r
}

/// Reads the body of a list.
pub fn read_redis_list(src: &mut &[u8]) -> (r: Result<RedisValue, CodecError>)
    ensures
        match list_reading(old(src)@) {
            Ok((reply, n)) => r matches Ok(v) && v@ == reply && took(old(src)@, n, final(src)@),
            Err(e) => r matches Err(x) && x == e,
        },
    decreases old(src)@.len(), 1nat,
{
    let ghost s = src@;
    let len = read_length(src)?;
    if len == -1 {
        return Ok(RedisValue::List(Vec::new()));
    }
    if len < 0 {
        return Err(CodecError::InvalidNumber);
    }
    let ghost head = (s.len() - src@.len()) as nat;
    let ghost body = src@;
    let mut parts: Vec<RedisValue> = Vec::new();
    let mut k: i64 = 0;
    while k < len
        invariant
            0 <= k <= len,
            src@.len() <= body.len(),
            body.len() < s.len(),
            s.len() == old(src)@.len(),
            src@ == body.skip(body.len() - src@.len()),
            head + body.len() == s.len(),
            list_reading(old(src)@) == match values_reading(body, len as nat) {
                Ok((items, m)) => Ok::<(Reply, nat), CodecError>((Reply::List(items), head + m)),
                Err(e) => Err(e),
            },
            values_reading(body, len as nat) == match values_reading(src@, (len - k) as nat) {
                Ok((rest, m)) => Ok::<(Seq<Reply>, nat), CodecError>(
                    (replies_of(parts@) + rest, (body.len() - src@.len() + m) as nat),
                ),
                Err(e) => Err(e),
            },
        decreases len - k,
    {
        let ghost had = parts@;
        let ghost done = replies_of(parts@);
        let part = read_value(src)?;
        parts.push(part);
        k = k + 1;
        proof {
            assert(parts@.drop_last() =~= had);
            match values_reading(src@, (len - k) as nat) {
                Ok((rest, m)) => {
                    assert(done + (seq![part@] + rest) =~= replies_of(parts@) + rest);
                },
                Err(_) => {},
            }
        }
    }
    proof {
        assert(src@ =~= s.skip(s.len() - src@.len()));
    }
    Ok(RedisValue::List(parts))
}

/// Reads the body of a bulk string.
pub fn read_redis_string(src: &mut &[u8]) -> (r: Result<RedisValue, CodecError>)
    ensures
        match string_reading(old(src)@) {
            Ok((reply, n)) => r matches Ok(v) && v@ == reply && took(old(src)@, n, final(src)@),
            Err(e) => r matches Err(x) && x == e,
        },
{
    let ghost s = src@;
    let string_length = read_length(src)?;
    if string_length == -1 {
        return Ok(RedisValue::String(Vec::new()));
    }
    if string_length < 0 {
        return Err(CodecError::InvalidNumber);
    }
    if (src.len() as u64) < (string_length as u64) {
        return Err(CodecError::Incomplete);
    }
    let ghost n = (s.len() - src@.len()) as nat;
    let buf = take_vec(src, string_length as usize)?;
    proof {
        assert(buf@ =~= s.subrange(n as int, n + string_length));
    }
    pop_crlf(src)?;
    proof {
        assert(src@ =~= s.skip(n + string_length + 2));
    }
    Ok(RedisValue::String(buf))
}

/// Reads the body of an integer reply.
pub fn read_redis_int(src: &mut &[u8]) -> (r: Result<RedisValue, CodecError>)
    ensures
        match int_reading(old(src)@) {
            Ok((reply, n)) => r matches Ok(v) && v@ == reply && took(old(src)@, n, final(src)@),
            Err(e) => r matches Err(x) && x == e,
        },
{
    Ok(RedisValue::Int(read_length(src)?))
}

/// Reads a line of text, trims it, and takes the line off the front of
/// `src`.
pub fn read_redis_generic_crlf_string(src: &mut &[u8]) -> (r: Result<String, CodecError>)
    ensures
        match line_reading(old(src)@) {
            Ok((text, n)) => r matches Ok(s) && s@ == text && took(old(src)@, n, final(src)@),
            Err(e) => r matches Err(x) && x == e,
        },
{
    let mut i: usize = 0;
    loop
        invariant
            src@ == old(src)@,
            first_crlf(src@, i as nat) == first_crlf(src@, 0),
        decreases src@.len() - i,
    {
        if src.len() < 2 || i > src.len() - 2 {
            return Err(CodecError::Incomplete);
        }
        if src[i] == CR && src[i + 1] == LF {
            let line = slice_subrange(*src, 0, i + 1);
            let text = match core::str::from_utf8(line) {
                Ok(text) => text,
                Err(_) => {
                    return Err(CodecError::InvalidEncoding);
                },
            };
            let value = text.trim().to_owned();
            let _ = take_vec(src, i + 2)?;
            return Ok(value);
        }
        i += 1;
    }
}

/// The one-shot codec: each attempt reads the buffer from its start.
pub struct RedisCodec;

impl RedisCodec {
    /// One attempt at the reply that the buffer begins with. The reply's
    /// bytes leave the buffer; where the buffer ends inside the reply,
    /// `Ok(None)` is returned and the buffer is left as it is.
    pub fn decode(&mut self, src: &mut BytesMut) -> (r: Result<Option<RedisValue>, CodecError>)
        ensures
            match value_reading(buffered(old(src))) {
                Ok((reply, n)) => r matches Ok(Some(v)) && v@ == reply && took(
                    buffered(old(src)),
                    n,
                    buffered(final(src)),
                ),
                Err(e) => buffered(final(src)) == buffered(old(src)) && if e
                    == CodecError::Incomplete {
                    r matches Ok(None)
                } else {
                    r matches Err(x) && x == e
                },
            },
    {
        let all = as_slice(src);
        let mut reader: &[u8] = all;
        match read_value(&mut reader) {
            Ok(val) => {
                let used = all.len() - reader.len();
                advance(src, used);
                Ok(Some(val))
            },
            Err(e) => match e {
                CodecError::Incomplete => Ok(None),
                _ => Err(e),
            },
        }
    }
}

} // verus!
