//! The resumable decoder: it reads one frame from a buffer that may hold
//! only part of it, and picks up where it stopped when more has arrived.
use crate::agreement::{agrees, lemma_decoder_reads_grammar, reads};
use crate::buffer::{advance, as_slice, buffered};
use crate::decimal::parse_decimal;
use crate::error::CodecError;
use crate::machine::{
    array_step, bulk_step, integer_step, lemma_fatal_is_fatal, lemma_token_consumes, run, settle,
    tag_step, text_step, Frame, Op, Outcome, Session, Settled, Step,
};
use crate::text::text_of;
use crate::wire::{
    first_crlf, lemma_first_crlf, parse_value, scan, Scan, Value, CR, DEFAULT_LINE_LIMIT, LF,
    TAG_ARRAY, TAG_BULK, TAG_ERROR, TAG_INTEGER, TAG_SIMPLE,
};
use bytes::BytesMut;
use vstd::prelude::*;
use vstd::slice::slice_to_vec;

verus! {

/// A protocol value.
#[derive(Debug, PartialEq, Eq)]
pub enum RedisValue {
    SimpleString(String),
    Error(String),
    Integer(i64),
    BulkString(Option<Vec<u8>>),
    Array(Option<Vec<RedisValue>>),
}

impl View for RedisValue {
    type V = Value;

    open spec fn view(&self) -> Value {
        value_of(*self)
    }
}

/// The value that an executable value stands for.
pub open spec fn value_of(v: RedisValue) -> Value
    decreases v,
{
    match v {
        RedisValue::SimpleString(text) => Value::SimpleString(text@),
        RedisValue::Error(text) => Value::Error(text@),
        RedisValue::Integer(i) => Value::Integer(i),
        RedisValue::BulkString(None) => Value::BulkString(None),
        RedisValue::BulkString(Some(payload)) => Value::BulkString(Some(payload@)),
        RedisValue::Array(None) => Value::Array(None),
        RedisValue::Array(Some(items)) => Value::Array(Some(values_of(items@))),
    }
}

/// The values that a sequence of executable values stands for.
pub open spec fn values_of(items: Seq<RedisValue>) -> Seq<Value>
    decreases items,
{
    if items.len() == 0 {
        Seq::empty()
    } else {
        values_of(items.drop_last()).push(value_of(items.last()))
    }
}

/// `values_of` goes element by element.
pub proof fn lemma_values_of(items: Seq<RedisValue>)
    ensures
        values_of(items).len() == items.len(),
        forall|i: int| 0 <= i < items.len() ==> (#[trigger] values_of(items)[i]) == items[i]@,
    decreases items.len(),
{
    if items.len() > 0 {
        lemma_values_of(items.drop_last());
    }
}

/// An array of which `rem` elements are still to come.
pub struct ArrayContext {
    rem: i64,
    items: Vec<RedisValue>,
}

impl View for ArrayContext {
    type V = Frame;

    closed spec fn view(&self) -> Frame {
        Frame { missing: self.rem as nat, items: values_of(self.items@) }
    }
}

impl ArrayContext {
    /// The count of elements still to come is not negative.
    pub closed spec fn wf(&self) -> bool {
        self.rem >= 0
    }

    /// An array of `len` elements, none of them received.
    pub fn new(len: i64) -> (r: Self)
        requires
            len >= 0,
        ensures
            r.wf(),
            r@ == Frame::opened(len as nat),
    {
        Self { rem: len, items: Vec::new() }
    }

    /// Receives the next element.
    pub fn push(&mut self, item: RedisValue)
        requires
            old(self).wf(),
            old(self)@.missing > 0,
        ensures
            final(self).wf(),
            final(self)@ == old(self)@.with(item@),
    {
        self.items.push(item);
        self.rem -= 1;
        assert(self.items@.drop_last() =~= old(self).items@);
    }

    /// Whether every element has been received.
    pub fn is_complete(&self) -> (r: bool)
        requires
            self.wf(),
        ensures
            r == (self@.missing == 0),
    {
        self.rem == 0
    }

    /// The elements received, in order.
    pub fn items(self) -> (r: Vec<RedisValue>)
        ensures
            values_of(r@) == self@.items,
    {
        self.items
    }
}

/// The sessions that a sequence of contexts stands for.
pub open spec fn frames_of(stack: Seq<ArrayContext>) -> Seq<Frame> {
    Seq::new(stack.len(), |i: int| stack[i]@)
}

/// The decoder of one stream.
pub struct RespDecoder {
    ptr: usize,
    cached_len: Option<i64>,
    doing: Option<Op>,
    stack: Vec<ArrayContext>,
    limit: usize,
}

impl View for RespDecoder {
    type V = Session;

    closed spec fn view(&self) -> Session {
        Session {
            limit: self.limit as nat,
            cursor: self.ptr as nat,
            pending: match self.cached_len {
                Some(len) => Some(len as nat),
                None => None,
            },
            current: self.doing,
            stack: frames_of(self.stack@),
        }
    }
}

impl Default for RespDecoder {
    fn default() -> (r: Self)
        ensures
            r.wf(),
            r@ == Session::idle(DEFAULT_LINE_LIMIT as nat),
    {
        RespDecoder::new()
    }
}

impl RespDecoder {
    /// The session is well formed, and so is each open array.
    pub closed spec fn wf(&self) -> bool {
        &&& self@.wf()
        &&& (self.cached_len matches Some(len) ==> len >= 0)
        &&& forall|i: int| 0 <= i < self.stack@.len() ==> (#[trigger] self.stack@[i]).wf()
    }

    /// A decoder at the start of a stream, with the default line limit.
    pub fn new() -> (r: Self)
        ensures
            r.wf(),
            r@ == Session::idle(DEFAULT_LINE_LIMIT as nat),
    {
        let r = RespDecoder {
            ptr: 0,
            cached_len: None,
            doing: None,
            stack: Vec::new(),
            limit: DEFAULT_LINE_LIMIT,
        };
        assert(r@.stack =~= Seq::<Frame>::empty());
        r
    }

    /// A decoder at the start of a stream that accepts lines of up to
    /// `limit` bytes. The three largest values of `usize` are lowered to
    /// the one below them, so that an offset just past the limit fits.
    pub fn with_line_limit(limit: usize) -> (r: Self)
        ensures
            r.wf(),
            r@ == Session::idle(
                if limit <= usize::MAX - 3 {
                    limit as nat
                } else {
                    (usize::MAX - 3) as nat
                },
            ),
    {
        let r = RespDecoder {
            ptr: 0,
            cached_len: None,
            doing: None,
            stack: Vec::new(),
            limit: if limit <= usize::MAX - 3 {
                limit
            } else {
                usize::MAX - 3
            },
        };
        assert(r@.stack =~= Seq::<Frame>::empty());
        r
    }

    /// The offset into the buffer up to which the search for the end of
    /// the current line has failed; the next attempt searches on from it.
    pub fn scan_cursor(&self) -> (r: usize)
        ensures
            r == self@.cursor,
    {
        self.ptr
    }

    /// Takes the tag byte of the next token out of the buffer.
    fn get_op(&mut self, src: &mut BytesMut) -> (r: Result<Op, CodecError>)
        requires
            old(self).wf(),
        ensures
            *final(self) == *old(self),
            tag_step(old(self)@, buffered(old(src))).leaves(final(self)@, buffered(final(src))),
            match tag_step(old(self)@, buffered(old(src))) {
                Step::Done(op, _, _) => r == Ok::<Op, CodecError>(op),
                Step::Starved(_, _) => r == Err::<Op, CodecError>(CodecError::Incomplete),
                Step::Failed(e) => r == Err::<Op, CodecError>(e),
            },
    {
        if src.len() == 0 {
            return Err(CodecError::Incomplete);
        }
        let head = src.split_to(1);
        let byte = as_slice(&head)[0];
        if byte == TAG_SIMPLE {
            Ok(Op::SimpleString)
        } else if byte == TAG_ERROR {
            Ok(Op::Error)
        } else if byte == TAG_INTEGER {
            Ok(Op::Integer)
        } else if byte == TAG_BULK {
            Ok(Op::BulkString)
        } else if byte == TAG_ARRAY {
            Ok(Op::Array)
        } else {
            Err(CodecError::InvalidTag)
        }
    }

    /// Finds the offset of the next terminator. The scan starts where the
    /// last one stopped, and where it finds none it remembers how far it
    /// came.
    fn next_crlf(&mut self, src: &mut BytesMut) -> (r: Result<usize, CodecError>)
        requires
            old(self).wf(),
            old(self)@.in_line(),
        ensures
            final(self).wf(),
            buffered(final(src)) == buffered(old(src)),
            match scan(buffered(old(src)), old(self)@.cursor, old(self)@.limit) {
                Scan::Found(i) => {
                    &&& r == Ok::<usize, CodecError>(i as usize)
                    &&& i + 2 <= buffered(old(src)).len()
                    &&& final(self)@ == old(self)@.rewound()
                },
                Scan::NeedMore => {
                    &&& r == Err::<usize, CodecError>(CodecError::Incomplete)
                    &&& final(self)@ == old(self)@.stalled(buffered(old(src)))
                },
                Scan::TooLong => r == Err::<usize, CodecError>(CodecError::FrameTooLarge),
            },
    {
        let bytes = as_slice(src);
        let len = bytes.len();
        let ghost start = self.ptr as nat;
        loop
            invariant
                self.wf(),
                old(self).wf(),
                old(self)@.in_line(),
                self@ == (Session { cursor: self.ptr as nat, ..old(self)@ }),
                bytes@ == buffered(old(src)),
                buffered(src) == buffered(old(src)),
                len == bytes@.len(),
                start == old(self)@.cursor,
                start <= self.ptr,
                self.ptr == start || self.ptr + 1 <= len,
                first_crlf(bytes@, self.ptr as nat) == first_crlf(bytes@, start),
            decreases len - self.ptr,
        {
            if len < 2 || self.ptr > len - 2 {
                return Err(CodecError::Incomplete);
            }
            proof {
                lemma_first_crlf(bytes@, self.ptr as nat);
            }
            if self.ptr > self.limit {
                return Err(CodecError::FrameTooLarge);
            }
            if bytes[self.ptr] == CR && bytes[self.ptr + 1] == LF {
                let at = self.ptr;
                self.ptr = 0;
                return Ok(at);
            }
            self.ptr += 1;
        }
    }

    /// Takes a line of text and its terminator out of the buffer.
    fn inner_string(&mut self, src: &mut BytesMut) -> (r: Result<String, CodecError>)
        requires
            old(self).wf(),
            old(self)@.in_line(),
        ensures
            final(self).wf(),
            text_step(old(self)@, buffered(old(src))).leaves(final(self)@, buffered(final(src))),
            match text_step(old(self)@, buffered(old(src))) {
                Step::Done(text, _, _) => r matches Ok(s) && s@ == text,
                Step::Starved(_, _) => r matches Err(e) && e == CodecError::Incomplete,
                Step::Failed(e) => r matches Err(x) && x == e,
            },
    {
        let idx = self.next_crlf(src)?;
        let window = src.split_to(idx);
        advance(src, 2);
        assert(buffered(src) =~= buffered(old(src)).skip(idx + 2));
        match text_of(as_slice(&window)) {
            Some(s) => Ok(s),
            None => Err(CodecError::InvalidEncoding),
        }
    }

    /// Takes a line that holds an integer, and its terminator, out of the
    /// buffer.
    fn inner_i32(&mut self, src: &mut BytesMut) -> (r: Result<i64, CodecError>)
        requires
            old(self).wf(),
            old(self)@.in_line(),
        ensures
            final(self).wf(),
            integer_step(old(self)@, buffered(old(src))).leaves(
                final(self)@,
                buffered(final(src)),
            ),
            match integer_step(old(self)@, buffered(old(src))) {
                Step::Done(i, _, _) => r matches Ok(n) && n == i,
                Step::Starved(_, _) => r matches Err(e) && e == CodecError::Incomplete,
                Step::Failed(e) => r matches Err(x) && x == e,
            },
    {
        let idx = self.next_crlf(src)?;
        let window = src.split_to(idx);
        advance(src, 2);
        assert(buffered(src) =~= buffered(old(src)).skip(idx + 2));
        match parse_decimal(as_slice(&window)) {
            Some(n) => Ok(n),
            None => Err(CodecError::InvalidNumber),
        }
    }

    /// Reads a simple string.
    fn get_simple_string(&mut self, src: &mut BytesMut) -> (r: Result<RedisValue, CodecError>)
        requires
            old(self).wf(),
            old(self)@.in_line(),
        ensures
            final(self).wf(),
            text_step(old(self)@, buffered(old(src))).leaves(final(self)@, buffered(final(src))),
            match text_step(old(self)@, buffered(old(src))) {
                Step::Done(text, _, _) => r matches Ok(v) && v@ == Value::SimpleString(text),
                Step::Starved(_, _) => r matches Err(e) && e == CodecError::Incomplete,
                Step::Failed(e) => r matches Err(x) && x == e,
            },
    {
        Ok(RedisValue::SimpleString(self.inner_string(src)?))
    }

    /// Reads an error reply.
    fn get_error(&mut self, src: &mut BytesMut) -> (r: Result<RedisValue, CodecError>)
        requires
            old(self).wf(),
            old(self)@.in_line(),
        ensures
            final(self).wf(),
            text_step(old(self)@, buffered(old(src))).leaves(final(self)@, buffered(final(src))),
            match text_step(old(self)@, buffered(old(src))) {
                Step::Done(text, _, _) => r matches Ok(v) && v@ == Value::Error(text),
                Step::Starved(_, _) => r matches Err(e) && e == CodecError::Incomplete,
                Step::Failed(e) => r matches Err(x) && x == e,
            },
    {
        Ok(RedisValue::Error(self.inner_string(src)?))
    }

    /// Reads an integer reply.
    fn get_integer(&mut self, src: &mut BytesMut) -> (r: Result<RedisValue, CodecError>)
        requires
            old(self).wf(),
            old(self)@.in_line(),
        ensures
            final(self).wf(),
            integer_step(old(self)@, buffered(old(src))).leaves(
                final(self)@,
                buffered(final(src)),
            ),
            match integer_step(old(self)@, buffered(old(src))) {
                Step::Done(i, _, _) => r matches Ok(v) && v@ == Value::Integer(i),
                Step::Starved(_, _) => r matches Err(e) && e == CodecError::Incomplete,
                Step::Failed(e) => r matches Err(x) && x == e,
            },
    {
        Ok(RedisValue::Integer(self.inner_i32(src)?))
    }

    /// Reads a bulk string. Its length is read once: where the payload is
    /// not all there yet, the length is kept for the next attempt. The
    /// payload leaves the buffer together with the two bytes that end it.
    fn get_bulk_string(&mut self, src: &mut BytesMut) -> (r: Result<RedisValue, CodecError>)
        requires
            old(self).wf(),
            old(self)@.current == Some(Op::BulkString),
        ensures
            final(self).wf(),
            bulk_step(old(self)@, buffered(old(src))).leaves(final(self)@, buffered(final(src))),
            match bulk_step(old(self)@, buffered(old(src))) {
                Step::Done(value, _, _) => r matches Ok(v) && v@ == value,
                Step::Starved(_, _) => r matches Err(e) && e == CodecError::Incomplete,
                Step::Failed(e) => r matches Err(x) && x == e,
            },
    {
        let len: i64 = match self.cached_len {
            Some(len) => len,
            None => {
                let len = self.inner_i32(src)?;
                if len == -1 {
                    return Ok(RedisValue::BulkString(None));
                }
                if len < 0 {
                    return Err(CodecError::InvalidNumber);
                }
                self.cached_len = Some(len);
                len
            },
        };
        if (src.len() as u64) < (len as u64) + 2 {
            return Err(CodecError::Incomplete);
        }
        self.cached_len = None;
        let ghost before = buffered(src);
        let window = src.split_to(len as usize);
        let payload = slice_to_vec(as_slice(&window));
        advance(src, 2);
        assert(buffered(src) =~= before.skip(len + 2));
        Ok(RedisValue::BulkString(Some(payload)))
    }

    /// Reads the header of an array: `None` for the null array, else the
    /// context that its elements will fill.
    fn get_array(&mut self, src: &mut BytesMut) -> (r: Result<Option<ArrayContext>, CodecError>)
        requires
            old(self).wf(),
            old(self)@.in_line(),
        ensures
            final(self).wf(),
            array_step(old(self)@, buffered(old(src))).leaves(final(self)@, buffered(final(src))),
            match array_step(old(self)@, buffered(old(src))) {
                Step::Done(Some(frame), _, _) => r matches Ok(Some(ctx)) && ctx@ == frame
                    && ctx.wf(),
                Step::Done(None, _, _) => r matches Ok(None),
                Step::Starved(_, _) => r matches Err(e) && e == CodecError::Incomplete,
                Step::Failed(e) => r matches Err(x) && x == e,
            },
    {
        let len = self.inner_i32(src)?;
        if len == -1 {
            return Ok(None);
        }
        if len < 0 {
            return Err(CodecError::InvalidNumber);
        }
        Ok(Some(ArrayContext::new(len)))
    }

    /// Hands a finished value to the open arrays: it goes into the
    /// innermost, and each array that this completes goes into the one
    /// around it. Returns the frame's value once no array is open.
    fn settle(&mut self, item: RedisValue) -> (r: Option<RedisValue>)
        requires
            old(self).wf(),
        ensures
            final(self).wf(),
            final(self)@ == (Session { stack: final(self)@.stack, ..old(self)@ }),
            match settle(old(self)@.stack, item@) {
                Settled::Root(root) => r matches Some(v) && v@ == root && final(self)@.stack
                    == Seq::<Frame>::empty(),
                Settled::Waiting(stack) => r is None && final(self)@.stack == stack,
            },
    {
        let mut val = item;
        loop
            invariant
                self.wf(),
                self@ == (Session { stack: self@.stack, ..old(self)@ }),
                settle(self@.stack, val@) == settle(old(self)@.stack, item@),
            decreases self.stack.len(),
        {
            let ghost frames = self@.stack;
            match self.stack.pop() {
                None => {
                    return Some(val);
                },
                Some(ctx) => {
                    let mut ctx = ctx;
                    assert(self@.stack =~= frames.drop_last());
                    ctx.push(val);
                    if !ctx.is_complete() {
                        self.stack.push(ctx);
                        assert(self@.stack =~= frames.drop_last().push(ctx@));
                        return None;
                    }
                    val = RedisValue::Array(Some(ctx.items()));
                },
            }
        }
    }

    /// One attempt at the next frame. `Err(Incomplete)` asks for more
    /// bytes: the decoder keeps what it has read, and the next attempt goes
    /// on from there, on the same buffer with more bytes appended.
    pub fn cached_decode(&mut self, src: &mut BytesMut) -> (r: Result<RedisValue, CodecError>)
        requires
            old(self).wf(),
        ensures
            final(self).wf(),
            run(old(self)@, buffered(old(src))).leaves(
                old(self)@.limit,
                final(self)@,
                buffered(final(src)),
            ),
            match run(old(self)@, buffered(old(src))) {
                Outcome::Value(value, _) => r matches Ok(v) && v@ == value,
                Outcome::Suspend(_, _) => r matches Err(e) && e == CodecError::Incomplete,
                Outcome::Fatal(e) => r matches Err(x) && x == e && e.is_fatal(),
            },
            old(self)@ == Session::idle(old(self)@.limit) ==> match parse_value(
                buffered(old(src)),
                old(self)@.limit,
            ) {
                Ok((value, n)) => r matches Ok(v) && v@ == value && n <= buffered(old(src)).len()
                    && buffered(final(src)) == buffered(old(src)).skip(n as int),
                Err(e) => r matches Err(x) && x == e,
            },
    {
        proof {
            lemma_fatal_is_fatal(self@, buffered(src));
            if self@ == Session::idle(self@.limit) {
                lemma_decoder_reads_grammar(self@.limit, buffered(src));
            }
        }
        loop
            invariant
                self.wf(),
                self@.limit == old(self)@.limit,
                run(self@, buffered(src)) == run(old(self)@, buffered(old(src))),
                run(old(self)@, buffered(old(src))) matches Outcome::Fatal(e) ==> e.is_fatal(),
                old(self)@ == Session::idle(old(self)@.limit) ==> agrees(
                    run(old(self)@, buffered(old(src))),
                    parse_value(buffered(old(src)), old(self)@.limit),
                    buffered(old(src)),
                ),
            decreases buffered(src).len(), (if self.doing is None { 1nat } else { 0nat }),
        {
            let op = match self.doing {
                Some(op) => op,
                None => {
                    let op = self.get_op(src)?;
                    self.doing = Some(op);
                    continue ;
                },
            };
            proof {
                lemma_token_consumes(self@, op, buffered(src));
            }
            let val = match op {
                Op::SimpleString => self.get_simple_string(src)?,
                Op::Error => self.get_error(src)?,
                Op::Integer => self.get_integer(src)?,
                Op::BulkString => self.get_bulk_string(src)?,
                Op::Array => match self.get_array(src)? {
                    None => RedisValue::Array(None),
                    Some(ctx) => if ctx.is_complete() {
                        RedisValue::Array(Some(ctx.items()))
                    } else {
                        let ghost frames = self@.stack;
                        self.stack.push(ctx);
                        self.doing = None;
                        assert(self@.stack =~= frames.push(ctx@));
                        continue ;
                    },
                },
            };
            self.doing = None;
            match self.settle(val) {
                Some(root) => {
                    return Ok(root);
                },
                None => {},
            }
        }
    }

    /// One attempt at the next frame: `Ok(Some(..))` with its value,
    /// `Ok(None)` where more bytes are needed, `Err(..)` where the stream is
    /// broken. After `Ok(None)` the next attempt is to be made on the same
    /// buffer, with more bytes appended to it.
    pub fn decode(&mut self, src: &mut BytesMut) -> (r: Result<Option<RedisValue>, CodecError>)
        requires
            old(self).wf(),
        ensures
            final(self).wf(),
            run(old(self)@, buffered(old(src))).leaves(
                old(self)@.limit,
                final(self)@,
                buffered(final(src)),
            ),
            match run(old(self)@, buffered(old(src))) {
                Outcome::Value(value, _) => r matches Ok(Some(v)) && v@ == value,
                Outcome::Suspend(_, _) => r matches Ok(None),
                Outcome::Fatal(e) => r matches Err(x) && x == e,
            },
            old(self)@ == Session::idle(old(self)@.limit) ==> reads(
                buffered(old(src)),
                old(self)@.limit,
                r,
                buffered(final(src)),
            ),
    {
        match self.cached_decode(src) {
            Ok(val) => Ok(Some(val)),
            Err(e) => match e {
                CodecError::Incomplete => Ok(None),
                _ => Err(e),
            },
        }
    }
}

} // verus!
