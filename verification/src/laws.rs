//! What holds of the decoder whatever the stream: an attempt that was
//! suspended goes on as if it had never stopped.
use crate::machine::{
    feed, integer_step, joined, lemma_token_consumes, line_step, payload_step, run, settle,
    tag_step, text_step, token_step, Frame, Op, Outcome, Session, Settled, Step, Token,
};
use crate::wire::{crlf_at, first_crlf, lemma_first_crlf, scan, Scan, Value};
use vstd::prelude::*;

verus! {

/// A terminator found in a buffer is found in every extension of it; one
/// that only the extension holds begins at the buffer's last byte or later.
pub proof fn lemma_first_crlf_extend(a: Seq<u8>, b: Seq<u8>, from: nat)
    ensures
        match first_crlf(a, from) {
            Some(i) => first_crlf(a + b, from) == Some(i),
            None => first_crlf(a + b, from) matches Some(j) ==> j + 1 >= a.len(),
        },
{
    lemma_first_crlf(a, from);
    lemma_first_crlf(a + b, from);
    match first_crlf(a, from) {
        Some(i) => {
            assert(crlf_at(a + b, i as int));
            match first_crlf(a + b, from) {
                Some(k) => {
                    if k < i {
                        assert(crlf_at(a, k as int));
                    }
                },
                None => {},
            }
        },
        None => {
            match first_crlf(a + b, from) {
                Some(j) => {
                    if j + 1 < a.len() {
                        assert(crlf_at(a, j as int));
                    }
                },
                None => {},
            }
        },
    }
}

/// A scan may start later, as long as it skips no terminator.
pub proof fn lemma_first_crlf_later(s: Seq<u8>, from: nat, later: nat)
    requires
        from <= later,
        forall|j: int| from <= j < later ==> !crlf_at(s, j),
    ensures
        first_crlf(s, later) == first_crlf(s, from),
{
    lemma_first_crlf(s, from);
    lemma_first_crlf(s, later);
}

/// Reading a line from a longer buffer: a line that was read is read again,
/// a failure stays, and a scan that found no terminator goes on from where
/// it stopped as if it had started over.
pub proof fn lemma_line_extend(st: Session, a: Seq<u8>, b: Seq<u8>)
    requires
        st.wf(),
        st.in_line(),
        st.fits(a),
    ensures
        match line_step(st, a) {
            Step::Done(line, st2, rest) => line_step(st, a + b) == Step::Done(line, st2, rest + b)
                && st2 == st.rewound() && rest.len() < a.len(),
            Step::Starved(st2, rest) => rest == a && st2.wf() && st2.fits(a) && st2 == (Session {
                cursor: st2.cursor,
                ..st
            }) && line_step(st2, a + b) == line_step(st, a + b),
            Step::Failed(e) => line_step(st, a + b) == Step::<Seq<u8>>::Failed(e),
        },
{
    lemma_first_crlf(a, st.cursor);
    lemma_first_crlf_extend(a, b, st.cursor);
    match scan(a, st.cursor, st.limit) {
        Scan::Found(i) => {
            assert((a + b).take(i as int) =~= a.take(i as int));
            assert((a + b).skip(i + 2 as int) =~= a.skip(i + 2 as int) + b);
        },
        Scan::NeedMore => {
            let st2 = st.stalled(a);
            assert forall|j: int| st.cursor <= j < st2.cursor implies !crlf_at(a + b, j) by {
                if crlf_at(a + b, j) {
                    assert(crlf_at(a, j));
                }
            }
            lemma_first_crlf_later(a + b, st.cursor, st2.cursor);
        },
        Scan::TooLong => {},
    }
}

/// No offset is scanned twice. After a scan that found no terminator,
/// the cursor stands on the last byte of the buffer, or where it stood if
/// that is further on: the only offset before the end at which the next
/// scan looks again is the last, where a terminator may yet begin. And
/// the next scan, which starts at the cursor, reads the line that a scan
/// of the whole buffer from its start would read.
pub proof fn lemma_scan_goes_on(st: Session, a: Seq<u8>, b: Seq<u8>)
    requires
        st.wf(),
        st.in_line(),
        st.fits(a),
        line_step(st, a) is Starved,
    ensures
        ({
            let st2 = st.stalled(a);
            &&& line_step(st, a) == Step::<Seq<u8>>::Starved(st2, a)
            &&& st.cursor <= st2.cursor
            &&& st2.cursor + 1 >= a.len()
            &&& match line_step(st.rewound(), a + b) {
                Step::Done(line, after, rest) => line_step(st2, a + b) == Step::Done(
                    line,
                    after,
                    rest,
                ),
                Step::Starved(after, rest) => line_step(st2, a + b) == Step::<
                    Seq<u8>,
                >::Starved(after, rest),
                Step::Failed(e) => line_step(st2, a + b) == Step::<Seq<u8>>::Failed(e),
            }
        }),
{
    let st2 = st.stalled(a);
    lemma_first_crlf(a, st.cursor);
    assert forall|j: int| 0 <= j < st2.cursor implies !crlf_at(a + b, j) by {
        if crlf_at(a + b, j) {
            assert(crlf_at(a, j));
        }
    }
    lemma_first_crlf_later(a + b, 0, st2.cursor);
}

/// The same for a line of text.
pub proof fn lemma_text_extend(st: Session, a: Seq<u8>, b: Seq<u8>)
    requires
        st.wf(),
        st.in_line(),
        st.fits(a),
    ensures
        match text_step(st, a) {
            Step::Done(text, st2, rest) => text_step(st, a + b) == Step::Done(text, st2, rest + b)
                && st2 == st.rewound() && rest.len() < a.len(),
            Step::Starved(st2, rest) => rest == a && st2.wf() && st2.fits(a) && st2 == (Session {
                cursor: st2.cursor,
                ..st
            }) && text_step(st2, a + b) == text_step(st, a + b),
            Step::Failed(e) => text_step(st, a + b) == Step::<Seq<char>>::Failed(e),
        },
{
    lemma_line_extend(st, a, b);
}

/// The same for a line that holds an integer.
pub proof fn lemma_integer_extend(st: Session, a: Seq<u8>, b: Seq<u8>)
    requires
        st.wf(),
        st.in_line(),
        st.fits(a),
    ensures
        match integer_step(st, a) {
            Step::Done(i, st2, rest) => integer_step(st, a + b) == Step::Done(i, st2, rest + b)
                && st2 == st.rewound() && rest.len() < a.len(),
            Step::Starved(st2, rest) => rest == a && st2.wf() && st2.fits(a) && st2 == (Session {
                cursor: st2.cursor,
                ..st
            }) && integer_step(st2, a + b) == integer_step(st, a + b),
            Step::Failed(e) => integer_step(st, a + b) == Step::<i64>::Failed(e),
        },
{
    lemma_line_extend(st, a, b);
}

/// The same for the payload of a bulk string.
pub proof fn lemma_payload_extend(st: Session, len: nat, a: Seq<u8>, b: Seq<u8>)
    ensures
        match payload_step(st, len, a) {
            Step::Done(v, st2, rest) => payload_step(st, len, a + b) == Step::Done(
                v,
                st2,
                rest + b,
            ),
            Step::Starved(st2, rest) => rest == a && st2 == (Session { pending: Some(len), ..st })
                && payload_step(st2, len, a + b) == payload_step(st, len, a + b),
            Step::Failed(e) => false,
        },
{
    if a.len() >= len + 2 {
        assert((a + b).take(len as int) =~= a.take(len as int));
        assert((a + b).skip(len + 2 as int) =~= a.skip(len + 2 as int) + b);
    }
}

/// The same for any token.
pub proof fn lemma_token_extend(st: Session, op: Op, a: Seq<u8>, b: Seq<u8>)
    requires
        st.wf(),
        st.current == Some(op),
        st.fits(a),
    ensures
        match token_step(st, op, a) {
            Step::Done(token, st2, rest) => token_step(st, op, a + b) == Step::Done(
                token,
                st2,
                rest + b,
            ) && st2 == (Session { pending: None, ..st.rewound() }) && (token matches Token::Open(
                frame,
            ) ==> frame.missing > 0),
            Step::Starved(st2, rest) => st2.wf() && st2.fits(rest) && st2.current == Some(op)
                && st2.stack == st.stack && st2.limit == st.limit && token_step(st2, op, rest + b)
                == token_step(st, op, a + b),
            Step::Failed(e) => token_step(st, op, a + b) == Step::<Token>::Failed(e),
        },
{
    match op {
        Op::SimpleString => {
            lemma_text_extend(st, a, b);
        },
        Op::Error => {
            lemma_text_extend(st, a, b);
        },
        Op::Integer => {
            lemma_integer_extend(st, a, b);
        },
        Op::Array => {
            lemma_integer_extend(st, a, b);
        },
        Op::BulkString => {
            match st.pending {
                Some(len) => {
                    lemma_payload_extend(st, len, a, b);
                },
                None => {
                    lemma_integer_extend(st, a, b);
                    match integer_step(st, a) {
                        Step::Done(len, st1, rest1) => {
                            if len >= 0 {
                                lemma_payload_extend(st1, len as nat, rest1, b);
                                let st2 = Session { pending: Some(len as nat), ..st1 };
                                assert(payload_step(st2, len as nat, rest1 + b) == payload_step(
                                    st1,
                                    len as nat,
                                    rest1 + b,
                                ));
                            }
                        },
                        _ => {},
                    }
                },
            }
        },
    }
}

/// Settling a value leaves no completed array open.
pub proof fn lemma_settle_wf(stack: Seq<Frame>, v: Value)
    requires
        forall|i: int| 0 <= i < stack.len() ==> (#[trigger] stack[i]).missing > 0,
    ensures
        settle(stack, v) matches Settled::Waiting(left) ==> forall|i: int|
            0 <= i < left.len() ==> (#[trigger] left[i]).missing > 0,
    decreases stack.len(),
{
    if stack.len() > 0 {
        let top = stack.last().with(v);
        if top.missing == 0 {
            lemma_settle_wf(stack.drop_last(), Value::Array(Some(top.items)));
        }
    }
}

/// An attempt on a buffer says what the attempt on any extension of the
/// buffer does. A value found is found again, with the extension left
/// over behind it; a failure stays; and after a suspension the next
/// attempt, on what was left with the extension appended, ends as the
/// attempt on the whole would have.
pub proof fn lemma_resume(st: Session, a: Seq<u8>, b: Seq<u8>)
    requires
        st.wf(),
        st.fits(a),
    ensures
        match run(st, a) {
            Outcome::Value(v, rest) => run(st, a + b) == Outcome::Value(v, rest + b),
            Outcome::Suspend(st2, rest) => st2.wf() && st2.fits(rest) && st2.limit == st.limit
                && run(st2, rest + b) == run(st, a + b),
            Outcome::Fatal(e) => run(st, a + b) == Outcome::Fatal(e),
        },
    decreases a.len(), (if st.current is None { 1nat } else { 0nat }),
{
    match st.current {
        None => {
            if a.len() > 0 {
                assert((a + b).skip(1) =~= a.skip(1) + b);
                match tag_step(st, a) {
                    Step::Done(op, st2, rest) => {
                        lemma_resume(Session { current: Some(op), ..st2 }, rest, b);
                    },
                    _ => {},
                }
            }
        },
        Some(op) => {
            lemma_token_extend(st, op, a, b);
            match token_step(st, op, a) {
                Step::Done(token, st2, rest) => {
                    lemma_token_consumes(st, op, a + b);
                    match token {
                        Token::Open(frame) => {
                            let next = Session {
                                current: None,
                                stack: st2.stack.push(frame),
                                ..st2
                            };
                            lemma_resume(next, rest, b);
                        },
                        Token::Leaf(v) => {
                            lemma_settle_wf(st2.stack, v);
                            match settle(st2.stack, v) {
                                Settled::Root(root) => {},
                                Settled::Waiting(stack) => {
                                    let next = Session { current: None, stack, ..st2 };
                                    lemma_resume(next, rest, b);
                                },
                            }
                        },
                    }
                },
                _ => {},
            }
        },
    }
}

/// A session that fits a buffer fits every extension of it.
pub proof fn lemma_fits_extend(st: Session, a: Seq<u8>, b: Seq<u8>)
    requires
        st.fits(a),
    ensures
        st.fits(a + b),
{
    assert forall|j: int| 0 <= j < st.cursor implies !crlf_at(a + b, j) by {
        if crlf_at(a + b, j) {
            assert(crlf_at(a, j));
        }
    }
}

/// Chunking invariance. However the bytes that follow a buffer are cut
/// into fragments, feeding the fragments one by one ends as one attempt on
/// all of them does: with the same value, the same suspended session, or
/// the same failure. A value may be found before the last fragment is fed;
/// then the bytes left over are the beginning of those that the single
/// attempt leaves.
pub proof fn lemma_feed(st: Session, buf: Seq<u8>, fragments: Seq<Seq<u8>>)
    requires
        st.wf(),
        st.fits(buf),
        fragments.len() > 0,
    ensures
        match run(st, buf + joined(fragments)) {
            Outcome::Value(v, rest) => feed(st, buf, fragments) matches Outcome::Value(v2, rest2)
                && v2 == v && rest2.len() <= rest.len() && rest2 == rest.take(rest2.len() as int),
            Outcome::Suspend(st2, rest) => feed(st, buf, fragments) == Outcome::Suspend(st2, rest),
            Outcome::Fatal(e) => feed(st, buf, fragments) == Outcome::Fatal(e),
        },
    decreases fragments.len(),
{
    let first = fragments[0];
    let tail = fragments.skip(1);
    assert(buf + joined(fragments) =~= (buf + first) + joined(tail));
    lemma_fits_extend(st, buf, first);
    if fragments.len() > 1 {
        lemma_resume(st, buf + first, joined(tail));
        match run(st, buf + first) {
            Outcome::Suspend(st2, rest) => {
                lemma_feed(st2, rest, tail);
            },
            _ => {},
        }
    }
}

} // verus!
