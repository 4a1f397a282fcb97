//! The decoder as a state machine over mathematical values: what one
//! attempt does to a session and a buffer.
use crate::decimal::decimal_i64;
use crate::error::CodecError;
use crate::wire::{
    crlf_at, lemma_first_crlf, scan, Scan, Value, TAG_ARRAY, TAG_BULK, TAG_ERROR, TAG_INTEGER,
    TAG_SIMPLE,
};
use vstd::prelude::*;
use vstd::utf8::{decode_utf8, valid_utf8};

verus! {

/// The kind of token that a tag byte announces.
#[derive(Clone, Copy, Debug, PartialEq, Eq, Structural)]
pub enum Op {
    SimpleString,
    Error,
    Integer,
    BulkString,
    Array,
}

/// The operation that a tag byte starts.
pub open spec fn op_of(tag: u8) -> Option<Op> {
    if tag == TAG_SIMPLE {
        Some(Op::SimpleString)
    } else if tag == TAG_ERROR {
        Some(Op::Error)
    } else if tag == TAG_INTEGER {
        Some(Op::Integer)
    } else if tag == TAG_BULK {
        Some(Op::BulkString)
    } else if tag == TAG_ARRAY {
        Some(Op::Array)
    } else {
        None
    }
}

/// An array that is being filled.
pub struct Frame {
    /// How many elements are still to come.
    pub missing: nat,
    /// The elements received, in order.
    pub items: Seq<Value>,
}

impl Frame {
    /// An array of `count` elements, none of them received.
    pub open spec fn opened(count: nat) -> Frame {
        Frame { missing: count, items: Seq::empty() }
    }

    /// The frame after one more element.
    pub open spec fn with(self, v: Value) -> Frame {
        Frame { missing: (self.missing - 1) as nat, items: self.items.push(v) }
    }
}

/// What a decoder remembers between two attempts.
pub struct Session {
    /// The longest line accepted.
    pub limit: nat,
    /// The offset into the buffer before which no terminator begins.
    pub cursor: nat,
    /// The declared length of the bulk string whose payload is awaited.
    pub pending: Option<nat>,
    /// The token being read, if its tag was read already.
    pub current: Option<Op>,
    /// The open arrays, outermost first.
    pub stack: Seq<Frame>,
}

impl Session {
    /// A session that has read nothing of the next frame.
    pub open spec fn idle(limit: nat) -> Session {
        Session { limit, cursor: 0, pending: None, current: None, stack: Seq::empty() }
    }

    /// What holds of every session that a decoder gets into: offsets up
    /// to the limit fit the machine; the cursor is past nothing that was
    /// not scanned, and is at the start unless a line is being read; a
    /// length is held only for a bulk string; and no open array is
    /// complete.
    pub open spec fn wf(self) -> bool {
        &&& self.limit + 3 <= usize::MAX
        &&& self.cursor <= self.limit + 1
        &&& (self.current is None ==> self.cursor == 0)
        &&& (self.pending matches Some(len) ==> self.current == Some(Op::BulkString) && self.cursor
            == 0 && len <= i64::MAX)
        &&& forall|i: int| 0 <= i < self.stack.len() ==> (#[trigger] self.stack[i]).missing > 0
    }

    /// The buffer is one that this session can meet: the part of it that
    /// the session holds to be scanned has no terminator.
    pub open spec fn fits(self, buf: Seq<u8>) -> bool {
        &&& self.cursor == 0 || self.cursor + 1 <= buf.len()
        &&& forall|j: int| 0 <= j < self.cursor ==> !crlf_at(buf, j)
    }

    /// The session after a scan that found no terminator in `buf`.
    pub open spec fn stalled(self, buf: Seq<u8>) -> Session {
        Session {
            cursor: if self.cursor + 1 < buf.len() {
                (buf.len() - 1) as nat
            } else {
                self.cursor
            },
            ..self
        }
    }

    /// The session is inside a line: a tag was read, and no length is
    /// held.
    pub open spec fn in_line(self) -> bool {
        self.current is Some && self.pending is None
    }

    /// The session with its cursor back at the start of the buffer.
    pub open spec fn rewound(self) -> Session {
        Session { cursor: 0, ..self }
    }
}

/// What reading one token from a buffer comes to.
pub enum Step<T> {
    /// The token, the session after it, and the bytes that are left.
    Done(T, Session, Seq<u8>),
    /// Not enough bytes: the session to go on from, and the bytes left.
    Starved(Session, Seq<u8>),
    /// The stream is broken.
    Failed(CodecError),
}

impl<T> Step<T> {
    /// The step leaves the decoder in session `st` and `buf` in the
    /// buffer. After a failure nothing is said of either.
    pub open spec fn leaves(self, st: Session, buf: Seq<u8>) -> bool {
        match self {
            Step::Done(_, after, rest) => st == after && buf == rest,
            Step::Starved(after, rest) => st == after && buf == rest,
            Step::Failed(_) => true,
        }
    }
}

/// Reads the tag byte of the next token.
pub open spec fn tag_step(st: Session, buf: Seq<u8>) -> Step<Op> {
    if buf.len() == 0 {
        Step::Starved(st, buf)
    } else {
        match op_of(buf[0]) {
            Some(op) => Step::Done(op, st, buf.skip(1)),
            None => Step::Failed(CodecError::InvalidTag),
        }
    }
}

/// Reads a line, scanning on from the session's cursor: the bytes before
/// the terminator.
pub open spec fn line_step(st: Session, buf: Seq<u8>) -> Step<Seq<u8>> {
    match scan(buf, st.cursor, st.limit) {
        Scan::Found(i) => Step::Done(buf.take(i as int), st.rewound(), buf.skip(i + 2 as int)),
        Scan::NeedMore => Step::Starved(st.stalled(buf), buf),
        Scan::TooLong => Step::Failed(CodecError::FrameTooLarge),
    }
}

/// Reads a line of text.
pub open spec fn text_step(st: Session, buf: Seq<u8>) -> Step<Seq<char>> {
    match line_step(st, buf) {
        Step::Done(line, st2, rest) => if valid_utf8(line) {
            Step::Done(decode_utf8(line), st2, rest)
        } else {
            Step::Failed(CodecError::InvalidEncoding)
        },
        Step::Starved(st2, rest) => Step::Starved(st2, rest),
        Step::Failed(e) => Step::Failed(e),
    }
}

/// Reads a line that holds an integer.
pub open spec fn integer_step(st: Session, buf: Seq<u8>) -> Step<i64> {
    match line_step(st, buf) {
        Step::Done(line, st2, rest) => match decimal_i64(line) {
            Some(n) => Step::Done(n, st2, rest),
            None => Step::Failed(CodecError::InvalidNumber),
        },
        Step::Starved(st2, rest) => Step::Starved(st2, rest),
        Step::Failed(e) => Step::Failed(e),
    }
}

/// Takes the payload of a bulk string of `len` bytes and the two bytes
/// that end it, once all of them are there.
pub open spec fn payload_step(st: Session, len: nat, buf: Seq<u8>) -> Step<Value> {
    if buf.len() < len + 2 {
        Step::Starved(Session { pending: Some(len), ..st }, buf)
    } else {
        Step::Done(
            Value::BulkString(Some(buf.take(len as int))),
            Session { pending: None, ..st },
            buf.skip(len + 2 as int),
        )
    }
}

/// Reads a bulk string: its length line, unless the session holds the
/// length already, and then its payload.
pub open spec fn bulk_step(st: Session, buf: Seq<u8>) -> Step<Value> {
    match st.pending {
        Some(len) => payload_step(st, len, buf),
        None => match integer_step(st, buf) {
            Step::Done(len, st2, rest) => if len == -1 {
                Step::Done(Value::BulkString(None), st2, rest)
            } else if len < 0 {
                Step::Failed(CodecError::InvalidNumber)
            } else {
                payload_step(st2, len as nat, rest)
            },
            Step::Starved(st2, rest) => Step::Starved(st2, rest),
            Step::Failed(e) => Step::Failed(e),
        },
    }
}

/// Reads the header of an array: `None` for the null array, else the frame
/// that its elements will fill.
pub open spec fn array_step(st: Session, buf: Seq<u8>) -> Step<Option<Frame>> {
    match integer_step(st, buf) {
        Step::Done(len, st2, rest) => if len == -1 {
            Step::Done(None, st2, rest)
        } else if len < 0 {
            Step::Failed(CodecError::InvalidNumber)
        } else {
            Step::Done(Some(Frame::opened(len as nat)), st2, rest)
        },
        Step::Starved(st2, rest) => Step::Starved(st2, rest),
        Step::Failed(e) => Step::Failed(e),
    }
}

/// What a token contributes: a finished value, or an array to be filled.
pub enum Token {
    Leaf(Value),
    Open(Frame),
}

/// Reads the token that `op` announces.
pub open spec fn token_step(st: Session, op: Op, buf: Seq<u8>) -> Step<Token> {
    match op {
        Op::SimpleString => match text_step(st, buf) {
            Step::Done(t, st2, rest) => Step::Done(Token::Leaf(Value::SimpleString(t)), st2, rest),
            Step::Starved(st2, rest) => Step::Starved(st2, rest),
            Step::Failed(e) => Step::Failed(e),
        },
        Op::Error => match text_step(st, buf) {
            Step::Done(t, st2, rest) => Step::Done(Token::Leaf(Value::Error(t)), st2, rest),
            Step::Starved(st2, rest) => Step::Starved(st2, rest),
            Step::Failed(e) => Step::Failed(e),
        },
        Op::Integer => match integer_step(st, buf) {
            Step::Done(i, st2, rest) => Step::Done(Token::Leaf(Value::Integer(i)), st2, rest),
            Step::Starved(st2, rest) => Step::Starved(st2, rest),
            Step::Failed(e) => Step::Failed(e),
        },
        Op::BulkString => match bulk_step(st, buf) {
            Step::Done(v, st2, rest) => Step::Done(Token::Leaf(v), st2, rest),
            Step::Starved(st2, rest) => Step::Starved(st2, rest),
            Step::Failed(e) => Step::Failed(e),
        },
        Op::Array => match array_step(st, buf) {
            Step::Done(None, st2, rest) => Step::Done(Token::Leaf(Value::Array(None)), st2, rest),
            Step::Done(Some(frame), st2, rest) => if frame.missing == 0 {
                Step::Done(Token::Leaf(Value::Array(Some(frame.items))), st2, rest)
            } else {
                Step::Done(Token::Open(frame), st2, rest)
            },
            Step::Starved(st2, rest) => Step::Starved(st2, rest),
            Step::Failed(e) => Step::Failed(e),
        },
    }
}

/// Where a finished value ends up.
pub enum Settled {
    /// No array was open: the value is the frame.
    Root(Value),
    /// The value went into the innermost open array, which closed every
    /// array that it completed; these arrays are still open.
    Waiting(Seq<Frame>),
}

/// Hands a finished value to the open arrays.
pub open spec fn settle(stack: Seq<Frame>, v: Value) -> Settled
    decreases stack.len(),
{
    if stack.len() == 0 {
        Settled::Root(v)
    } else {
        let top = stack.last().with(v);
        if top.missing == 0 {
            settle(stack.drop_last(), Value::Array(Some(top.items)))
        } else {
            Settled::Waiting(stack.drop_last().push(top))
        }
    }
}

/// How one attempt ends.
pub enum Outcome {
    /// A frame is complete: its value, and the bytes after it. The session
    /// is idle again.
    Value(Value, Seq<u8>),
    /// More bytes are needed: the session to go on from, and the bytes
    /// that stay in the buffer.
    Suspend(Session, Seq<u8>),
    /// The stream is broken.
    Fatal(CodecError),
}

impl Outcome {
    /// The attempt, made by a decoder with the line limit `limit`, leaves
    /// the decoder in session `st` and `buf` in the buffer: after a value
    /// the decoder is idle. After a failure nothing is said of either.
    pub open spec fn leaves(self, limit: nat, st: Session, buf: Seq<u8>) -> bool {
        match self {
            Outcome::Value(_, rest) => st == Session::idle(limit) && buf == rest,
            Outcome::Suspend(after, rest) => st == after && buf == rest,
            Outcome::Fatal(_) => true,
        }
    }
}

/// A token that was read took at least one byte.
pub proof fn lemma_token_consumes(st: Session, op: Op, buf: Seq<u8>)
    ensures
        token_step(st, op, buf) matches Step::Done(_, _, rest) ==> rest.len() < buf.len(),
{
    lemma_first_crlf(buf, st.cursor);
    if op == Op::BulkString {
        match st.pending {
            Some(len) => {},
            None => {
                match integer_step(st, buf) {
                    Step::Done(len, st2, rest) => {},
                    _ => {},
                }
            },
        }
    }
}

/// One attempt: tokens are read and settled until a frame is complete, the
/// bytes run out, or the stream proves broken.
pub open spec fn run(st: Session, buf: Seq<u8>) -> Outcome
    decreases buf.len(), (if st.current is None { 1nat } else { 0nat }),
{
    match st.current {
        None => match tag_step(st, buf) {
            Step::Done(op, st2, rest) => run(Session { current: Some(op), ..st2 }, rest),
            Step::Starved(st2, rest) => Outcome::Suspend(st2, rest),
            Step::Failed(e) => Outcome::Fatal(e),
        },
        Some(op) => match token_step(st, op, buf) {
            Step::Done(token, st2, rest) => {
                proof {
                    lemma_token_consumes(st, op, buf);
                }
                match token {
                    Token::Open(frame) => run(
                        Session { current: None, stack: st2.stack.push(frame), ..st2 },
                        rest,
                    ),
                    Token::Leaf(v) => match settle(st2.stack, v) {
                        Settled::Root(root) => Outcome::Value(root, rest),
                        Settled::Waiting(stack) => run(
                            Session { current: None, stack, ..st2 },
                            rest,
                        ),
                    },
                }
            },
            Step::Starved(st2, rest) => Outcome::Suspend(st2, rest),
            Step::Failed(e) => Outcome::Fatal(e),
        },
    }
}

/// An attempt never fails for want of bytes: that is a suspension.
pub proof fn lemma_fatal_is_fatal(st: Session, buf: Seq<u8>)
    ensures
        run(st, buf) matches Outcome::Fatal(e) ==> e.is_fatal(),
    decreases buf.len(), (if st.current is None { 1nat } else { 0nat }),
{
    match st.current {
        None => match tag_step(st, buf) {
            Step::Done(op, st2, rest) => {
                lemma_fatal_is_fatal(Session { current: Some(op), ..st2 }, rest);
            },
            _ => {},
        },
        Some(op) => match token_step(st, op, buf) {
            Step::Done(token, st2, rest) => {
                lemma_token_consumes(st, op, buf);
                match token {
                    Token::Open(frame) => {
                        lemma_fatal_is_fatal(
                            Session { current: None, stack: st2.stack.push(frame), ..st2 },
                            rest,
                        );
                    },
                    Token::Leaf(v) => match settle(st2.stack, v) {
                        Settled::Root(root) => {},
                        Settled::Waiting(stack) => {
                            lemma_fatal_is_fatal(Session { current: None, stack, ..st2 }, rest);
                        },
                    },
                }
            },
            _ => {},
        },
    }
}

/// Attempts in a row, as a caller makes them: each fragment is appended to
/// the buffer and an attempt follows; on a suspension the next fragment is
/// awaited, and anything else ends the feed.
pub open spec fn feed(st: Session, buf: Seq<u8>, fragments: Seq<Seq<u8>>) -> Outcome
    decreases fragments.len(),
{
    if fragments.len() == 0 {
        Outcome::Suspend(st, buf)
    } else {
        match run(st, buf + fragments[0]) {
            Outcome::Suspend(st2, rest) => if fragments.len() == 1 {
                Outcome::Suspend(st2, rest)
            } else {
                feed(st2, rest, fragments.skip(1))
            },
            other => other,
        }
    }
}

/// The fragments joined.
pub open spec fn joined(fragments: Seq<Seq<u8>>) -> Seq<u8>
    decreases fragments.len(),
{
    if fragments.len() == 0 {
        Seq::empty()
    } else {
        fragments[0] + joined(fragments.skip(1))
    }
}

} // verus!
