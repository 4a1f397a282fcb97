//! The decoder and the grammar agree: what the state machine makes of a
//! buffer, token by token and with its stack of open arrays, is what the
//! grammar reads in it.
use crate::error::CodecError;
use crate::laws::{lemma_resume, lemma_settle_wf};
use crate::machine::{
    op_of, run, settle, token_step, Frame, Outcome, Session, Settled, Step, Token,
};
use crate::wire::{
    lemma_first_crlf, lemma_parse_value_bounds, lemma_parse_values_bounds, parse_integer_line,
    parse_value, parse_values, Value,
};
use vstd::prelude::*;

verus! {

/// A reading that began `by` bytes earlier.
pub open spec fn shifted(r: Result<(Value, nat), CodecError>, by: nat) -> Result<
    (Value, nat),
    CodecError,
> {
    match r {
        Ok((v, n)) => Ok((v, n + by)),
        Err(e) => Err(e),
    }
}

/// What the grammar reads in `s` for a decoder whose open arrays are
/// `stack`: the elements that the innermost array still misses, then
/// those of the array around it, and so on outwards. The result is the
/// outermost array, and the number of bytes read. With no array open it
/// is the next frame.
pub open spec fn finish(stack: Seq<Frame>, s: Seq<u8>, limit: nat) -> Result<
    (Value, nat),
    CodecError,
>
    decreases stack.len(),
{
    if stack.len() == 0 {
        parse_value(s, limit)
    } else {
        let top = stack.last();
        match parse_values(s, top.missing, limit) {
            Ok((items, n)) => {
                let array = Value::Array(Some(top.items + items));
                if stack.len() == 1 {
                    Ok((array, n))
                } else {
                    let below = stack[stack.len() - 2];
                    shifted(
                        finish(
                            stack.take(stack.len() - 2).push(below.with(array)),
                            s.skip(n as int),
                            limit,
                        ),
                        n,
                    )
                }
            },
            Err(e) => Err(e),
        }
    }
}

/// The outcome of an attempt on `buf` is the one that the grammar's
/// reading calls for.
pub open spec fn agrees(
    outcome: Outcome,
    expected: Result<(Value, nat), CodecError>,
    buf: Seq<u8>,
) -> bool {
    match expected {
        Ok((v, n)) => n <= buf.len() && outcome == Outcome::Value(v, buf.skip(n as int)),
        Err(e) => if e == CodecError::Incomplete {
            outcome is Suspend
        } else {
            outcome == Outcome::Fatal(e)
        },
    }
}

/// What an attempt of an idle decoder on `buf` returns and leaves in the
/// buffer, by the grammar: the value of the frame that `buf` begins with,
/// and the bytes after the frame; `None`, and all of `buf`, where `buf`
/// ends inside a frame; the error where `buf` cannot begin a frame.
pub open spec fn reads<V: View<V = Value>>(
    buf: Seq<u8>,
    limit: nat,
    r: Result<Option<V>, CodecError>,
    left: Seq<u8>,
) -> bool {
    match parse_value(buf, limit) {
        Ok((value, n)) => r matches Ok(Some(v)) && v@ == value && n <= buf.len() && left
            == buf.skip(n as int),
        Err(e) => if e == CodecError::Incomplete {
            r matches Ok(None)
        } else {
            r matches Err(x) && x == e
        },
    }
}

/// What the grammar makes of a token that begins a frame: a leaf is the
/// frame, and an opened array is the frame once its elements are read.
pub open spec fn token_meaning(token: Token, rest: Seq<u8>, read: nat, limit: nat) -> Result<
    (Value, nat),
    CodecError,
> {
    match token {
        Token::Leaf(v) => Ok((v, read)),
        Token::Open(frame) => match parse_values(rest, frame.missing, limit) {
            Ok((items, m)) => Ok((Value::Array(Some(frame.items + items)), read + m)),
            Err(e) => Err(e),
        },
    }
}

/// The first token that an idle decoder reads is the beginning of the
/// frame that the grammar reads.
pub proof fn lemma_token_meaning(st: Session, buf: Seq<u8>)
    requires
        st.wf(),
        st.current is None,
        buf.len() > 0,
        op_of(buf[0]) is Some,
    ensures
        ({
            let op = op_of(buf[0])->0;
            let st1 = Session { current: Some(op), ..st };
            match token_step(st1, op, buf.skip(1)) {
                Step::Done(token, st2, rest) => {
                    let read = (buf.len() - rest.len()) as nat;
                    &&& st2 == st1
                    &&& 0 < read <= buf.len()
                    &&& rest == buf.skip(read as int)
                    &&& parse_value(buf, st.limit) == token_meaning(token, rest, read, st.limit)
                    &&& (token matches Token::Open(frame) ==> frame.missing > 0 && frame.items
                        == Seq::<Value>::empty())
                },
                Step::Starved(_, _) => parse_value(buf, st.limit) == Err::<
                    (Value, nat),
                    CodecError,
                >(CodecError::Incomplete),
                Step::Failed(e) => parse_value(buf, st.limit) == Err::<(Value, nat), CodecError>(
                    e,
                ) && e.is_fatal(),
            }
        }),
{
    let op = op_of(buf[0])->0;
    let st1 = Session { current: Some(op), ..st };
    let body = buf.skip(1);
    lemma_first_crlf(body, 0);
    match token_step(st1, op, body) {
        Step::Done(token, st2, rest) => {
            let read = (buf.len() - rest.len()) as nat;
            match parse_integer_line(body, st.limit) {
                Ok((len, n)) => {
                    assert(body.skip(n as int) =~= buf.skip(1 + n as int));
                    if len >= 0 {
                        if body.skip(n as int).len() >= len + 2 {
                            assert(body.skip(n as int).skip(len + 2 as int) =~= buf.skip(
                                1 + n + len + 2 as int,
                            ));
                        }
                        assert(Seq::<Value>::empty() + Seq::<Value>::empty() =~= Seq::<
                            Value,
                        >::empty());
                        assert(parse_values(body.skip(n as int), 0, st.limit) == Ok::<
                            (Seq<Value>, nat),
                            CodecError,
                        >((Seq::empty(), 0)));
                    }
                },
                Err(_) => {},
            }
        },
        _ => {},
    }
}

/// Closing a completed innermost array, by the grammar: the array goes to
/// the arrays around it as a finished value.
pub proof fn lemma_finish_closed(base: Seq<Frame>, top: Frame, s: Seq<u8>, limit: nat)
    requires
        top.missing == 0,
    ensures
        finish(base.push(top), s, limit) == match settle(base, Value::Array(Some(top.items))) {
            Settled::Root(root) => Ok::<(Value, nat), CodecError>((root, 0)),
            Settled::Waiting(stack) => finish(stack, s, limit),
        },
    decreases base.len(),
{
    let stack = base.push(top);
    let array = Value::Array(Some(top.items));
    assert(s.skip(0) =~= s);
    if base.len() > 0 {
        let below = base.last();
        assert(stack.take(stack.len() - 2) =~= base.drop_last());
        let merged = below.with(array);
        if merged.missing == 0 {
            lemma_finish_closed(base.drop_last(), merged, s, limit);
        }
    }
}

/// Handing a frame that the grammar read to the open arrays.
pub proof fn lemma_finish_settled(stack: Seq<Frame>, buf: Seq<u8>, limit: nat, v: Value, n: nat)
    requires
        stack.len() > 0,
        stack.last().missing > 0,
        parse_value(buf, limit) == Ok::<(Value, nat), CodecError>((v, n)),
    ensures
        finish(stack, buf, limit) == match settle(stack, v) {
            Settled::Root(root) => Ok::<(Value, nat), CodecError>((root, n)),
            Settled::Waiting(left) => shifted(finish(left, buf.skip(n as int), limit), n),
        },
{
    lemma_parse_value_bounds(buf, limit);
    let top = stack.last();
    let rest = buf.skip(n as int);
    let more = parse_values(rest, (top.missing - 1) as nat, limit);
    let t = top.with(v);
    let base = stack.drop_last();
    if t.missing > 0 {
        let left = base.push(t);
        match more {
            Ok((items, m)) => {
                lemma_parse_values_bounds(rest, (top.missing - 1) as nat, limit);
                assert(top.items + (seq![v] + items) =~= t.items + items);
                assert(rest.skip(m as int) =~= buf.skip(n + m as int));
                if stack.len() > 1 {
                    assert(left.take(left.len() - 2) =~= stack.take(stack.len() - 2));
                }
            },
            Err(e) => {},
        }
    } else {
        assert(top.items + (seq![v] + Seq::<Value>::empty()) =~= t.items);
        let array = Value::Array(Some(t.items));
        if stack.len() == 1 {
            assert(settle(base, array) == Settled::Root(array));
        }
        if stack.len() > 1 {
            let below = stack[stack.len() - 2];
            let merged = below.with(array);
            assert(stack.take(stack.len() - 2) =~= base.drop_last());
            if merged.missing == 0 {
                lemma_finish_closed(base.drop_last(), merged, rest, limit);
            }
        }
    }
}

/// An attempt of a decoder that has no token begun ends as the grammar's
/// reading of the buffer says.
pub proof fn lemma_run_agrees(st: Session, buf: Seq<u8>)
    requires
        st.wf(),
        st.current is None,
    ensures
        agrees(run(st, buf), finish(st.stack, buf, st.limit), buf),
    decreases buf.len(),
{
    let limit = st.limit;
    let stack = st.stack;
    if buf.len() == 0 {
    } else if op_of(buf[0]) is None {
    } else {
        let op = op_of(buf[0])->0;
        let st1 = Session { current: Some(op), ..st };
        lemma_token_meaning(st, buf);
        assert(run(st, buf) == run(st1, buf.skip(1)));
        if stack.len() > 0 {
        }
        match token_step(st1, op, buf.skip(1)) {
            Step::Done(token, st2, rest) => {
                let read = (buf.len() - rest.len()) as nat;
                match token {
                    Token::Leaf(v) => {
                        if stack.len() > 0 {
                            lemma_finish_settled(stack, buf, limit, v, read);
                            match settle(stack, v) {
                                Settled::Root(root) => {},
                                Settled::Waiting(left) => {
                                    lemma_settle_wf(stack, v);
                                    let next = Session { current: None, stack: left, ..st2 };
                                    lemma_run_agrees(next, rest);
                                    lemma_shift_agrees(
                                        run(next, rest),
                                        finish(left, rest, limit),
                                        buf,
                                        read,
                                    );
                                },
                            }
                        }
                    },
                    Token::Open(frame) => {
                        let next = Session { current: None, stack: stack.push(frame), ..st2 };
                        lemma_run_agrees(next, rest);
                        lemma_finish_opened(stack, frame, buf, rest, read, limit);
                        lemma_shift_agrees(
                            run(next, rest),
                            finish(stack.push(frame), rest, limit),
                            buf,
                            read,
                        );
                    },
                }
            },
            _ => {},
        }
    }
}

/// Agreement on what is left of a buffer is agreement on the buffer, for
/// a reading that counts the bytes before it.
pub proof fn lemma_shift_agrees(
    outcome: Outcome,
    expected: Result<(Value, nat), CodecError>,
    buf: Seq<u8>,
    read: nat,
)
    requires
        read <= buf.len(),
        agrees(outcome, expected, buf.skip(read as int)),
    ensures
        agrees(outcome, shifted(expected, read), buf),
{
    match expected {
        Ok((v, n)) => {
            assert(buf.skip(read as int).skip(n as int) =~= buf.skip(n + read as int));
        },
        Err(_) => {},
    }
}

/// Opening an array, by the grammar: reading the frame and handing it to
/// the open arrays is reading its elements with the array open.
pub proof fn lemma_finish_opened(
    stack: Seq<Frame>,
    frame: Frame,
    buf: Seq<u8>,
    rest: Seq<u8>,
    read: nat,
    limit: nat,
)
    requires
        frame.missing > 0,
        frame.items == Seq::<Value>::empty(),
        0 < read <= buf.len(),
        rest == buf.skip(read as int),
        forall|i: int| 0 <= i < stack.len() ==> (#[trigger] stack[i]).missing > 0,
        parse_value(buf, limit) == token_meaning(Token::Open(frame), rest, read, limit),
    ensures
        finish(stack, buf, limit) == shifted(finish(stack.push(frame), rest, limit), read),
{
    let opened = stack.push(frame);
    match parse_values(rest, frame.missing, limit) {
        Ok((items, m)) => {
            lemma_parse_values_bounds(rest, frame.missing, limit);
            let array = Value::Array(Some(frame.items + items));
            assert(rest.skip(m as int) =~= buf.skip(read + m as int));
            if stack.len() > 0 {
                let below = stack.last();
                assert(opened.take(opened.len() - 2) =~= stack.drop_last());
                let merged = below.with(array);
                lemma_finish_settled(stack, buf, limit, array, read + m);
                if merged.missing == 0 {
                    lemma_finish_closed(stack.drop_last(), merged, rest.skip(m as int), limit);
                }
            }
        },
        Err(e) => {},
    }
}

/// The decoder reads the grammar. One attempt of a decoder at the start
/// of a frame yields the value of the frame that the buffer begins with
/// and leaves the bytes after it; it asks for more exactly where the
/// buffer ends inside a frame; and it fails, with the grammar's error,
/// exactly where no frame can begin so.
pub proof fn lemma_decoder_reads_grammar(limit: nat, buf: Seq<u8>)
    requires
        limit + 3 <= usize::MAX,
    ensures
        agrees(run(Session::idle(limit), buf), parse_value(buf, limit), buf),
{
    lemma_run_agrees(Session::idle(limit), buf);
}

/// What the grammar reads in a buffer it reads in every extension of
/// the buffer: a frame that is complete stays the frame, and an error
/// other than the want of bytes stays the error.
pub proof fn lemma_parse_value_extends(a: Seq<u8>, b: Seq<u8>, limit: nat)
    requires
        limit + 3 <= usize::MAX,
    ensures
        match parse_value(a, limit) {
            Ok((v, n)) => parse_value(a + b, limit) == Ok::<(Value, nat), CodecError>((v, n)),
            Err(e) => e.is_fatal() ==> parse_value(a + b, limit) == Err::<
                (Value, nat),
                CodecError,
            >(e),
        },
{
    let idle = Session::idle(limit);
    lemma_decoder_reads_grammar(limit, a);
    lemma_decoder_reads_grammar(limit, a + b);
    lemma_resume(idle, a, b);
    match parse_value(a, limit) {
        Ok((v, n)) => {
            match parse_value(a + b, limit) {
                Ok((v2, n2)) => {
                    assert(a.skip(n as int).len() + b.len() == (a + b).skip(n2 as int).len());
                },
                Err(_) => {},
            }
        },
        Err(_) => {},
    }
}

} // verus!
