//! What holds of a stream as a whole, however its bytes arrive.

use crate::config::ThresholdsView;
use crate::decimal::decimal;
use crate::evaluator::{
    law_confidence_is_mean, law_tokens_are_counted, law_tokens_in_order, sum_of, Decision,
    EvaluatorView,
};
use crate::interceptor::{
    boundary, decision_frame, decision_name, frame_json, frame_logprobs, framed, separator,
    Protocol, ReportedView, StepView, StreamView, UpstreamView,
};
use crate::json::{quoted, unescaped};
use crate::rounding::{real_of, Real64};
use vstd::prelude::*;
use vstd::utf8::{encode_utf8, is_ascii_chars, is_ascii_chars_encode_utf8};

verus! {

/// Zero or one steps, as a sequence.
pub open spec fn at_most_one(out: Option<StepView>) -> Seq<StepView> {
    match out {
        Some(step) => seq![step],
        None => Seq::empty(),
    }
}

/// Every complete frame that is held is processed, up to a cut; and what that
/// yields for the client.
pub open spec fn settled(s: StreamView) -> (StreamView, Seq<StepView>)
    decreases s.partial.len(),
{
    if s.finished {
        (s, Seq::empty())
    } else {
        match s.frame_end() {
            None => (s, Seq::empty()),
            Some(end) => if 0 < end <= s.partial.len() {
                let (next, out) = s.after_frame(end).process(s.partial.take(end));
                if next.partial.len() < s.partial.len() {
                    (settled(next).0, at_most_one(out) + settled(next).1)
                } else {
                    (next, at_most_one(out))
                }
            } else {
                (s, Seq::empty())
            },
        }
    }
}

/// The stream after a number of chunks, and what they yield for the client.
pub open spec fn fed(s: StreamView, chunks: Seq<Seq<u8>>) -> (StreamView, Seq<StepView>)
    decreases chunks.len(),
{
    if chunks.len() == 0 {
        (s, Seq::empty())
    } else {
        let (before, out) = fed(s, chunks.drop_last());
        let (after, more) = settled(before.accept(chunks.last()));
        (after, out + more)
    }
}

/// What is held back, as steps.
pub open spec fn emitting(frames: Seq<Seq<u8>>) -> Seq<StepView> {
    frames.map_values(|frame: Seq<u8>| StepView::Emit(frame))
}

/// All that is still to come when the upstream has closed, up to the end.
pub open spec fn ending(s: StreamView) -> Seq<StepView> {
    if s.finished {
        emitting(s.lookahead)
    } else {
        emitting(
            if s.partial.len() > 0 {
                s.lookahead.push(s.partial)
            } else {
                s.lookahead
            },
        )
    }
}

/// All that the client gets of an upstream that sends some chunks and closes.
pub open spec fn response(s: StreamView, chunks: Seq<Seq<u8>>) -> Seq<StepView> {
    let (after, out) = fed(s, chunks);
    out + ending(after)
}

/// All bytes of a sequence of chunks.
pub open spec fn joined_bytes(chunks: Seq<Seq<u8>>) -> Seq<u8>
    decreases chunks.len(),
{
    if chunks.len() == 0 {
        Seq::empty()
    } else {
        joined_bytes(chunks.drop_last()) + chunks.last()
    }
}

/// All upstream bytes that some steps hand to the client.
pub open spec fn handed_on(steps: Seq<StepView>) -> Seq<u8>
    decreases steps.len(),
{
    if steps.len() == 0 {
        Seq::empty()
    } else {
        let rest = handed_on(steps.drop_last());
        match steps.last() {
            StepView::Emit(bytes) => rest + bytes,
            _ => rest,
        }
    }
}

/// The bytes that a stream holds: those of the frames it holds back, and those
/// that do not make a frame yet.
pub open spec fn held(s: StreamView) -> Seq<u8> {
    joined_bytes(s.lookahead) + s.partial
}

// ---------------------------------------------------------------------------
// Frames
// ---------------------------------------------------------------------------

/// A frame ends with the first separator: what comes out of the search ends with
/// one, and no other starts before it; where nothing comes out there is none.
pub proof fn law_frame_ends_with_first_separator(buf: Seq<u8>, sep: Seq<u8>)
    requires
        sep.len() > 0,
    ensures
        match boundary(buf, sep, 0) {
            Some(end) => {
                &&& sep.len() <= end <= buf.len()
                &&& buf.subrange(end - sep.len(), end) == sep
                &&& forall|i: int|
                    0 <= i < end - sep.len() ==> #[trigger] buf.subrange(i, i + sep.len()) != sep
            },
            None => forall|i: int|
                0 <= i <= buf.len() - sep.len() ==> #[trigger] buf.subrange(i, i + sep.len())
                    != sep,
        },
{
    lemma_boundary_is_first(buf, sep, 0);
}

proof fn lemma_boundary_is_first(buf: Seq<u8>, sep: Seq<u8>, from: int)
    requires
        sep.len() > 0,
        0 <= from,
    ensures
        match boundary(buf, sep, from) {
            Some(end) => {
                &&& from + sep.len() <= end <= buf.len()
                &&& buf.subrange(end - sep.len(), end) == sep
                &&& forall|i: int|
                    from <= i < end - sep.len() ==> #[trigger] buf.subrange(i, i + sep.len())
                        != sep
            },
            None => forall|i: int|
                from <= i <= buf.len() - sep.len() ==> #[trigger] buf.subrange(i, i + sep.len())
                    != sep,
        },
    decreases buf.len() - from,
{
    if from < buf.len() && from + sep.len() <= buf.len() && buf.subrange(from, from + sep.len())
        != sep {
        lemma_boundary_is_first(buf, sep, from + 1);
    }
}

/// Is a text plain ASCII on a single line?
pub open spec fn one_line(text: Seq<char>) -> bool {
    forall|i: int| 0 <= i < text.len() ==> plain(#[trigger] text[i])
}

/// Is a character plain ASCII and not the end of a line?
pub open spec fn plain(c: char) -> bool {
    '\0' <= c <= '\u{7f}' && c != '\n'
}

proof fn lemma_decimal_is_one_line(n: nat)
    ensures
        one_line(decimal(n)),
    decreases n,
{
    if n >= 10 {
        lemma_decimal_is_one_line(n / 10);
    }
}

proof fn lemma_literals_are_one_line(decision: Decision)
    ensures
        one_line("{\"rag_gate_decision\":"@),
        one_line(",\"confidence_score\":"@),
        one_line(",\"tokens_evaluated\":"@),
        one_line(",\"threshold_used\":"@),
        one_line("}"@),
        one_line("data: "@),
        one_line(quoted(decision_name(decision))),
{
    reveal_strlit("{\"rag_gate_decision\":");
    reveal_strlit(",\"confidence_score\":");
    reveal_strlit(",\"tokens_evaluated\":");
    reveal_strlit(",\"threshold_used\":");
    reveal_strlit("}");
    reveal_strlit("data: ");
    reveal_strlit("ABSTAIN");
    reveal_strlit("ESCALATE");
    reveal_strlit("ANSWER");
    reveal_strlit("\"");
    assert(unescaped(decision_name(decision)));
}

/// What a client is told of a cut is one complete frame of the protocol, as long
/// as the texts of its two numbers are plain ASCII on a single line.
pub proof fn law_decision_frame_is_one_frame(
    protocol: Protocol,
    evaluator: EvaluatorView,
    decision: Decision,
    score: Seq<char>,
    threshold: Seq<char>,
)
    requires
        one_line(score),
        one_line(threshold),
    ensures
        ({
            let json = frame_json(decision_frame(evaluator, decision), score, threshold);
            let bytes = encode_utf8(framed(protocol, json));
            boundary(bytes, separator(protocol), 0) == Some(bytes.len() as int)
        }),
{
    let frame = decision_frame(evaluator, decision);
    lemma_literals_are_one_line(decision);
    lemma_decimal_is_one_line(frame.tokens_evaluated);
    let json = frame_json(frame, score, threshold);
    assert(one_line(json));
    reveal_strlit("\n");
    reveal_strlit("\n\n");
    let text = framed(protocol, json);
    let sep = separator(protocol);
    let body = (text.len() - sep.len()) as int;
    assert(is_ascii_chars(text));
    is_ascii_chars_encode_utf8(text);
    let bytes = encode_utf8(text);
    assert forall|i: int| 0 <= i < body implies bytes[i] != 10u8 by {
        assert(plain(text[i]));
        assert(text[i] as u8 == bytes[i]);
    }
    assert(bytes.subrange(body, bytes.len() as int) =~= sep);
    lemma_boundary_at(bytes, sep, 0, body);
}

proof fn lemma_boundary_at(buf: Seq<u8>, sep: Seq<u8>, from: int, at: int)
    requires
        0 <= from <= at,
        sep.len() > 0,
        sep[0] == 10u8,
        at + sep.len() == buf.len(),
        forall|i: int| 0 <= i < at ==> buf[i] != 10u8,
        buf.subrange(at, buf.len() as int) == sep,
    ensures
        boundary(buf, sep, from) == Some(buf.len() as int),
    decreases at - from,
{
    if from < at {
        assert(buf.subrange(from, from + sep.len())[0] == buf[from]);
        lemma_boundary_at(buf, sep, from + 1, at);
    }
}

// ---------------------------------------------------------------------------
// Chunks
// ---------------------------------------------------------------------------

proof fn lemma_boundary_range(buf: Seq<u8>, sep: Seq<u8>, from: int)
    requires
        sep.len() > 0,
        0 <= from,
    ensures
        match boundary(buf, sep, from) {
            Some(end) => from < end <= buf.len(),
            None => true,
        },
    decreases buf.len() - from,
{
    if from + sep.len() <= buf.len() && buf.subrange(from, from + sep.len()) != sep {
        lemma_boundary_range(buf, sep, from + 1);
    }
}

proof fn lemma_boundary_grows(buf: Seq<u8>, more: Seq<u8>, sep: Seq<u8>, from: int)
    requires
        sep.len() > 0,
        0 <= from,
        boundary(buf, sep, from) is Some,
    ensures
        boundary(buf + more, sep, from) == boundary(buf, sep, from),
    decreases buf.len() - from,
{
    assert((buf + more).subrange(from, from + sep.len()) =~= buf.subrange(
        from,
        from + sep.len(),
    ));
    if buf.subrange(from, from + sep.len()) != sep {
        lemma_boundary_grows(buf, more, sep, from + 1);
    }
}

proof fn lemma_frame_end(s: StreamView)
    ensures
        match s.frame_end() {
            Some(end) => 0 < end <= s.partial.len(),
            None => true,
        },
{
    lemma_boundary_range(s.partial, separator(s.protocol), 0);
}

/// A step of [`settled`] that processes a frame.
proof fn lemma_settled_step(s: StreamView, end: int)
    requires
        !s.finished,
        s.frame_end() == Some(end),
    ensures
        0 < end <= s.partial.len(),
        ({
            let (next, out) = s.after_frame(end).process(s.partial.take(end));
            &&& next.partial == s.partial.skip(end)
            &&& next.partial.len() < s.partial.len()
            &&& settled(s) == (settled(next).0, at_most_one(out) + settled(next).1)
        }),
{
    lemma_frame_end(s);
}

/// Bytes that have not arrived yet do not change what a frame does.
proof fn lemma_process_accepts(s: StreamView, frame: Seq<u8>, more: Seq<u8>)
    ensures
        s.accept(more).process(frame) == (
            s.process(frame).0.accept(more),
            s.process(frame).1,
        ),
{
}

/// It does not matter where one chunk ends and the next begins: two chunks one
/// after the other leave the stream as one chunk does that holds the bytes of
/// both, and yield the same for the client.
pub proof fn law_two_chunks_are_one(s: StreamView, a: Seq<u8>, b: Seq<u8>)
    ensures
        ({
            let (first, out) = settled(s.accept(a));
            let (second, more) = settled(first.accept(b));
            settled(s.accept(a + b)) == (second, out + more)
        }),
{
    let t = s.accept(a);
    let whole = s.accept(a + b);
    assert(whole.partial =~= t.partial + b);
    assert(whole == t.accept(b));
    lemma_settled_then(t, b);
}

proof fn lemma_settled_then(t: StreamView, b: Seq<u8>)
    ensures
        ({
            let (first, out) = settled(t);
            let (second, more) = settled(first.accept(b));
            settled(t.accept(b)) == (second, out + more)
        }),
    decreases t.partial.len(),
{
    let (first, out) = settled(t);
    if t.finished || t.frame_end() is None {
        assert(out + settled(t.accept(b)).1 =~= settled(t.accept(b)).1);
    } else {
        let end = t.frame_end().unwrap();
        lemma_settled_step(t, end);
        lemma_boundary_grows(t.partial, b, separator(t.protocol), 0);
        let u = t.accept(b);
        lemma_settled_step(u, end);
        assert(u.partial.take(end) =~= t.partial.take(end));
        assert(u.partial.skip(end) =~= t.partial.skip(end) + b);
        assert(u.after_frame(end) == t.after_frame(end).accept(b));
        let frame = t.partial.take(end);
        lemma_process_accepts(t.after_frame(end), frame, b);
        let next = t.after_frame(end).process(frame).0;
        let step = at_most_one(t.after_frame(end).process(frame).1);
        lemma_settled_then(next, b);
        let rest = settled(next).1;
        let more = settled(settled(next).0.accept(b)).1;
        assert(step + (rest + more) =~= (step + rest) + more);
    }
}

/// It does not matter how the upstream's bytes are cut into chunks: the client
/// gets what it would get of a single chunk with all of them.
pub proof fn law_chunks_do_not_matter(s: StreamView, chunks: Seq<Seq<u8>>)
    requires
        settled(s) == (s, Seq::<StepView>::empty()),
    ensures
        fed(s, chunks) == settled(s.accept(joined_bytes(chunks))),
        response(s, chunks) == response(s, seq![joined_bytes(chunks)]),
{
    lemma_fed_joined(s, chunks);
    lemma_fed_joined(s, seq![joined_bytes(chunks)]);
    let one = seq![joined_bytes(chunks)];
    assert(one.drop_last() =~= Seq::<Seq<u8>>::empty());
    assert(joined_bytes(one.drop_last()) =~= Seq::<u8>::empty());
    assert(joined_bytes(one) =~= joined_bytes(chunks));
}

proof fn lemma_fed_joined(s: StreamView, chunks: Seq<Seq<u8>>)
    requires
        settled(s) == (s, Seq::<StepView>::empty()),
    ensures
        fed(s, chunks) == settled(s.accept(joined_bytes(chunks))),
    decreases chunks.len(),
{
    if chunks.len() == 0 {
        assert(s.accept(joined_bytes(chunks)) =~= s);
    } else {
        lemma_fed_joined(s, chunks.drop_last());
        law_two_chunks_are_one(s, joined_bytes(chunks.drop_last()), chunks.last());
    }
}

/// A new stream is settled.
pub proof fn law_new_stream_is_settled(s: StreamView)
    requires
        s.partial.len() == 0,
    ensures
        settled(s) == (s, Seq::<StepView>::empty()),
{
}

/// Polling an open stream without news yields its settled steps one by one:
/// nothing once they are used up, and otherwise the first, after which the
/// others are left.
pub proof fn law_polling_yields_settled_steps(s: StreamView)
    requires
        !s.finished,
    ensures
        ({
            let (next, step) = s.poll(UpstreamView::Quiet);
            if settled(s).1.len() == 0 {
                step == StepView::NeedUpstream && settled(s).0 == next
            } else {
                &&& step == settled(s).1[0]
                &&& settled(next) == (settled(s).0, settled(s).1.drop_first())
            }
        }),
    decreases s.partial.len(),
{
    if s.frame_end() is Some {
        let end = s.frame_end().unwrap();
        lemma_settled_step(s, end);
        let (next, out) = s.after_frame(end).process(s.partial.take(end));
        match out {
            Some(step) => {
                assert(settled(s).1.drop_first() =~= settled(next).1);
            },
            None => {
                assert(settled(s).1 =~= settled(next).1);
                law_polling_yields_settled_steps(next);
            },
        }
    }
}

/// Polling after the upstream closed yields all that was still to come one by
/// one, and then the end, again and again.
pub proof fn law_closing_yields_the_ending(s: StreamView)
    requires
        settled(s) == (s, Seq::<StepView>::empty()),
    ensures
        ({
            let (next, step) = s.poll(UpstreamView::Closed);
            &&& next.finished
            &&& if ending(s).len() == 0 {
                step == StepView::End && ending(next).len() == 0
            } else {
                step == ending(s)[0] && ending(next) == ending(s).drop_first()
            }
        }),
{
    lemma_settled_has_no_frame(s);
    let (next, step) = s.poll(UpstreamView::Closed);
    if ending(s).len() > 0 {
        assert(ending(next) =~= ending(s).drop_first());
    }
}

/// A settled stream holds no complete frame that is still to be processed.
proof fn lemma_settled_has_no_frame(s: StreamView)
    requires
        settled(s).0 == s,
    ensures
        s.finished || s.frame_end() is None,
{
    if !s.finished && s.frame_end() is Some {
        let end = s.frame_end().unwrap();
        lemma_settled_step(s, end);
        lemma_settled_shrinks(s.after_frame(end).process(s.partial.take(end)).0);
    }
}

proof fn lemma_settled_shrinks(s: StreamView)
    ensures
        settled(s).0.partial.len() <= s.partial.len(),
    decreases s.partial.len(),
{
    if !s.finished && s.frame_end() is Some {
        let end = s.frame_end().unwrap();
        lemma_settled_step(s, end);
        lemma_settled_shrinks(s.after_frame(end).process(s.partial.take(end)).0);
    }
}

/// Where complete frames are still held when the upstream closes, what they
/// yield comes first.
pub proof fn law_frames_come_before_the_close(s: StreamView)
    requires
        settled(s).1.len() > 0,
    ensures
        s.poll(UpstreamView::Closed) == s.poll(UpstreamView::Quiet),
{
    law_polling_yields_settled_steps(s);
    lemma_settled_yields_output(s, 0);
}

/// What a settled stream yields is for the client.
proof fn lemma_settled_yields_output(s: StreamView, i: int)
    requires
        0 <= i < settled(s).1.len(),
    ensures
        settled(s).1[i] is Emit || settled(s).1[i] is Cut,
    decreases s.partial.len(),
{
    let end = s.frame_end().unwrap();
    lemma_settled_step(s, end);
    let (next, out) = s.after_frame(end).process(s.partial.take(end));
    let k = at_most_one(out).len();
    if i >= k {
        lemma_settled_yields_output(next, i - k);
    }
}

/// Once a stream is over, polling it in any way but with more bytes is draining
/// what is held back.
pub proof fn law_finished_stream_drains(s: StreamView)
    requires
        s.finished,
    ensures
        s.poll(UpstreamView::Quiet) == s.drain(),
        s.poll(UpstreamView::Closed) == s.drain(),
        s.drain().0.finished,
        s.drain().0.reports == s.reports,
        s.drain().0.evaluator == s.evaluator,
{
}

// ---------------------------------------------------------------------------
// Bytes
// ---------------------------------------------------------------------------

proof fn lemma_joined_push(chunks: Seq<Seq<u8>>, chunk: Seq<u8>)
    ensures
        joined_bytes(chunks.push(chunk)) == joined_bytes(chunks) + chunk,
{
    assert(chunks.push(chunk).drop_last() =~= chunks);
}

proof fn lemma_joined_first(chunks: Seq<Seq<u8>>)
    requires
        chunks.len() > 0,
    ensures
        joined_bytes(chunks) == chunks[0] + joined_bytes(chunks.drop_first()),
    decreases chunks.len(),
{
    if chunks.len() == 1 {
        assert(chunks.drop_last() =~= Seq::<Seq<u8>>::empty());
        assert(joined_bytes(chunks.drop_last()) =~= Seq::<u8>::empty());
        assert(chunks.drop_first() =~= Seq::<Seq<u8>>::empty());
        assert(joined_bytes(chunks.drop_first()) =~= Seq::<u8>::empty());
        assert(joined_bytes(chunks) =~= chunks[0]);
        assert(chunks[0] + joined_bytes(chunks.drop_first()) =~= chunks[0]);
    } else {
        lemma_joined_first(chunks.drop_last());
        assert(chunks.drop_last().drop_first() =~= chunks.drop_first().drop_last());
        assert(chunks.drop_first().last() == chunks.last());
        assert(joined_bytes(chunks) =~= chunks[0] + joined_bytes(chunks.drop_first()));
    }
}

proof fn lemma_handed_on_concat(a: Seq<StepView>, b: Seq<StepView>)
    ensures
        handed_on(a + b) == handed_on(a) + handed_on(b),
    decreases b.len(),
{
    if b.len() == 0 {
        assert(a + b =~= a);
        assert(handed_on(a) + handed_on(b) =~= handed_on(a));
    } else {
        lemma_handed_on_concat(a, b.drop_last());
        assert((a + b).drop_last() =~= a + b.drop_last());
        assert(handed_on(a + b) =~= handed_on(a) + handed_on(b));
    }
}

proof fn lemma_handed_on_one(step: StepView)
    ensures
        handed_on(seq![step]) == match step {
            StepView::Emit(bytes) => bytes,
            _ => Seq::empty(),
        },
{
    assert(seq![step].drop_last() =~= Seq::<StepView>::empty());
    assert(handed_on(seq![step].drop_last()) =~= Seq::<u8>::empty());
    assert(handed_on(seq![step]) =~= match step {
        StepView::Emit(bytes) => bytes,
        _ => Seq::empty(),
    });
}

proof fn lemma_handed_on_emitting(frames: Seq<Seq<u8>>)
    ensures
        handed_on(emitting(frames)) == joined_bytes(frames),
    decreases frames.len(),
{
    if frames.len() > 0 {
        lemma_handed_on_emitting(frames.drop_last());
        assert(emitting(frames).drop_last() =~= emitting(frames.drop_last()));
    }
}

/// A frame that is forwarded is not lost: what comes out and what is held back
/// are what was held back and the frame.
proof fn lemma_forward_keeps_bytes(s: StreamView, frame: Seq<u8>)
    ensures
        handed_on(at_most_one(s.forward(frame).1)) + joined_bytes(s.forward(frame).0.lookahead)
            == joined_bytes(s.lookahead) + frame,
{
    let queue = s.lookahead.push(frame);
    lemma_joined_push(s.lookahead, frame);
    if queue.len() > s.lookahead_size {
        lemma_joined_first(queue);
        lemma_handed_on_one(StepView::Emit(queue[0]));
    } else {
        let none = Seq::<u8>::empty();
        assert(handed_on(at_most_one(None)) =~= none);
        assert(none + joined_bytes(queue) =~= joined_bytes(queue));
    }
}

/// Where a frame cuts a stream, and what it leaves.
proof fn lemma_gate_cuts(s: StreamView, frame: Seq<u8>, logprobs: Seq<Real64>)
    requires
        !s.finished,
    ensures
        ({
            let (next, out) = s.gate(frame, logprobs);
            &&& next.finished <==> (out is Some && out.unwrap() is Cut)
            &&& next.finished ==> next.lookahead.len() == 0
            &&& !next.finished ==> handed_on(at_most_one(out)) + joined_bytes(next.lookahead)
                == joined_bytes(s.lookahead) + frame
        }),
{
    let with = StreamView { evaluator: s.evaluator.with_all(logprobs), ..s };
    lemma_forward_keeps_bytes(with, frame);
    let off = StreamView {
        gating_disabled: true,
        reports: s.reports.push(ReportedView::Degenerate),
        ..with
    };
    lemma_forward_keeps_bytes(off, frame);
}

/// Nothing is lost, added, changed or put out of order until a cut: what an
/// open stream hands to the client, and what it holds after that, are the bytes
/// it held before.
pub proof fn law_settling_keeps_bytes(s: StreamView)
    requires
        !settled(s).0.finished,
    ensures
        handed_on(settled(s).1) + held(settled(s).0) == held(s),
    decreases s.partial.len(),
{
    if s.frame_end() is Some {
        let end = s.frame_end().unwrap();
        lemma_settled_step(s, end);
        let frame = s.partial.take(end);
        let (next, out) = s.after_frame(end).process(frame);
        assert(!next.finished);
        law_settling_keeps_bytes(next);
        lemma_gate_cuts(s.after_frame(end), frame, frame_logprobs(s.protocol, frame));
        lemma_handed_on_concat(at_most_one(out), settled(next).1);
        let o = handed_on(at_most_one(out));
        let rest = handed_on(settled(next).1);
        assert(frame + s.partial.skip(end) =~= s.partial);
        assert((o + rest) + held(settled(next).0) =~= o + (rest + held(settled(next).0)));
        assert(o + (joined_bytes(next.lookahead) + next.partial) =~= (o + joined_bytes(
            next.lookahead,
        )) + next.partial);
        assert((joined_bytes(s.lookahead) + frame) + s.partial.skip(end) =~= joined_bytes(
            s.lookahead,
        ) + (frame + s.partial.skip(end)));
    } else {
        assert(handed_on(settled(s).1) =~= Seq::<u8>::empty());
        assert(Seq::<u8>::empty() + held(s) =~= held(s));
    }
}

/// A response that is not cut reaches the client byte for byte.
pub proof fn law_answer_passes_unchanged(s: StreamView, chunks: Seq<Seq<u8>>)
    requires
        settled(s) == (s, Seq::<StepView>::empty()),
        !fed(s, chunks).0.finished,
    ensures
        handed_on(response(s, chunks)) == held(s) + joined_bytes(chunks),
{
    law_chunks_do_not_matter(s, chunks);
    let all = s.accept(joined_bytes(chunks));
    law_settling_keeps_bytes(all);
    let (after, out) = settled(all);
    lemma_handed_on_concat(out, ending(after));
    if after.partial.len() > 0 {
        lemma_handed_on_emitting(after.lookahead.push(after.partial));
        lemma_joined_push(after.lookahead, after.partial);
    } else {
        lemma_handed_on_emitting(after.lookahead);
        assert(held(after) =~= joined_bytes(after.lookahead));
    }
    assert(held(all) =~= held(s) + joined_bytes(chunks));
}

/// Is one sequence of bytes the beginning of another?
pub open spec fn starts(part: Seq<u8>, whole: Seq<u8>) -> bool {
    part.len() <= whole.len() && whole.take(part.len() as int) == part
}

/// A stream that is cut hands on some first part of its bytes, and then a single
/// decision frame, after which it is over: nothing that was held back follows.
pub proof fn law_cut_ends_with_a_decision(s: StreamView)
    requires
        !s.finished,
        settled(s).0.finished,
    ensures
        ({
            let (after, out) = settled(s);
            &&& out.len() > 0
            &&& after.evaluator.decision() != Decision::Answer
            &&& out.last() == StepView::Cut(
                decision_frame(after.evaluator, after.evaluator.decision()),
            )
            &&& forall|i: int| 0 <= i < out.len() - 1 ==> out[i] is Emit
            &&& starts(handed_on(out), held(s))
            &&& ending(after).len() == 0
        }),
    decreases s.partial.len(),
{
    let end = s.frame_end().unwrap();
    lemma_settled_step(s, end);
    let frame = s.partial.take(end);
    let (next, out) = s.after_frame(end).process(frame);
    lemma_gate_cuts(s.after_frame(end), frame, frame_logprobs(s.protocol, frame));
    lemma_handed_on_concat(at_most_one(out), settled(next).1);
    let o = handed_on(at_most_one(out));
    let rest = handed_on(settled(next).1);
    if next.finished {
        assert(settled(s).1 =~= at_most_one(out));
        lemma_handed_on_one(out.unwrap());
        assert(handed_on(settled(s).1) =~= Seq::<u8>::empty());
        assert(held(s).take(0) =~= Seq::<u8>::empty());
    } else {
        law_cut_ends_with_a_decision(next);
        let all = settled(s).1;
        assert(all.last() == settled(next).1.last());
        assert forall|i: int| 0 <= i < all.len() - 1 implies all[i] is Emit by {
            if i >= at_most_one(out).len() {
                assert(all[i] == settled(next).1[i - at_most_one(out).len()]);
            }
        }
        assert(o + held(next) =~= (o + joined_bytes(next.lookahead)) + next.partial);
        assert(frame + s.partial.skip(end) =~= s.partial);
        assert((joined_bytes(s.lookahead) + frame) + s.partial.skip(end) =~= held(s));
        assert(o + held(next) == held(s));
        assert(held(s).take((o + rest).len() as int) =~= o + held(next).take(rest.len() as int));
    }
}

// ---------------------------------------------------------------------------
// Gating
// ---------------------------------------------------------------------------

/// A frame that carries no log probability is never cut, and changes neither the
/// confidence nor what is counted.
pub proof fn law_no_signal_no_cut(s: StreamView, frame: Seq<u8>)
    requires
        frame_logprobs(s.protocol, frame).len() == 0,
    ensures
        s.process(frame) == s.forward(frame),
        s.process(frame).0.finished == s.finished,
        s.process(frame).0.evaluator == s.evaluator,
        s.process(frame).0.reports == s.reports,
{
}

/// All log probabilities of the complete frames in some bytes, in order.
pub open spec fn all_logprobs(protocol: Protocol, bytes: Seq<u8>) -> Seq<Real64>
    decreases bytes.len(),
{
    match boundary(bytes, separator(protocol), 0) {
        Some(end) => if 0 < end <= bytes.len() {
            frame_logprobs(protocol, bytes.take(end)) + all_logprobs(protocol, bytes.skip(end))
        } else {
            Seq::empty()
        },
        None => Seq::empty(),
    }
}

proof fn lemma_settled_evaluates_all(s: StreamView)
    requires
        !settled(s).0.finished,
    ensures
        settled(s).0.evaluator == s.evaluator.with_all(all_logprobs(s.protocol, s.partial)),
    decreases s.partial.len(),
{
    if s.frame_end() is Some {
        let end = s.frame_end().unwrap();
        lemma_settled_step(s, end);
        let frame = s.partial.take(end);
        let next = s.after_frame(end).process(frame).0;
        assert(!next.finished);
        lemma_settled_evaluates_all(next);
        law_tokens_in_order(
            s.evaluator,
            frame_logprobs(s.protocol, frame),
            all_logprobs(s.protocol, s.partial.skip(end)),
        );
    }
}

/// The confidence of a stream rests on every token so far: however its bytes
/// arrived, and as long as it is not cut, all log probabilities of all its
/// frames were taken in, in order.
pub proof fn law_every_token_counts(s: StreamView, chunks: Seq<Seq<u8>>)
    requires
        settled(s) == (s, Seq::<StepView>::empty()),
        !fed(s, chunks).0.finished,
    ensures
        fed(s, chunks).0.evaluator == s.evaluator.with_all(
            all_logprobs(s.protocol, s.partial + joined_bytes(chunks)),
        ),
{
    law_chunks_do_not_matter(s, chunks);
    lemma_settled_evaluates_all(s.accept(joined_bytes(chunks)));
}

/// Do the complete frames in these bytes carry no log probability at all?
pub open spec fn silent(protocol: Protocol, bytes: Seq<u8>) -> bool
    decreases bytes.len(),
{
    match boundary(bytes, separator(protocol), 0) {
        Some(end) => 0 < end <= bytes.len() ==> {
            &&& frame_logprobs(protocol, bytes.take(end)).len() == 0
            &&& silent(protocol, bytes.skip(end))
        },
        None => true,
    }
}

proof fn lemma_silent_settles(s: StreamView)
    requires
        !s.finished,
        silent(s.protocol, s.partial),
    ensures
        !settled(s).0.finished,
        settled(s).0.evaluator == s.evaluator,
        settled(s).0.reports == s.reports,
    decreases s.partial.len(),
{
    if s.frame_end() is Some {
        let end = s.frame_end().unwrap();
        lemma_settled_step(s, end);
        law_no_signal_no_cut(s.after_frame(end), s.partial.take(end));
        lemma_silent_settles(s.after_frame(end).process(s.partial.take(end)).0);
    }
}

/// An upstream that sends no log probabilities is not gated: its whole response
/// reaches the client byte for byte, and nothing is counted before the end.
pub proof fn law_silent_stream_passes(s: StreamView, chunks: Seq<Seq<u8>>)
    requires
        settled(s) == (s, Seq::<StepView>::empty()),
        !s.finished,
        silent(s.protocol, s.partial + joined_bytes(chunks)),
    ensures
        !fed(s, chunks).0.finished,
        fed(s, chunks).0.evaluator == s.evaluator,
        fed(s, chunks).0.reports == s.reports,
        handed_on(response(s, chunks)) == held(s) + joined_bytes(chunks),
{
    law_chunks_do_not_matter(s, chunks);
    lemma_silent_settles(s.accept(joined_bytes(chunks)));
    law_answer_passes_unchanged(s, chunks);
}

/// A cut rests on a frame with log probabilities, on at least `min_tokens`
/// tokens, on a signal that is not degenerate, and on a mean that does not reach
/// alpha; and the client is told of it.
pub proof fn law_cut_has_a_reason(s: StreamView, frame: Seq<u8>)
    requires
        !s.finished,
        s.process(frame).0.finished,
    ensures
        ({
            let (next, out) = s.process(frame);
            let e = next.evaluator;
            &&& frame_logprobs(s.protocol, frame).len() > 0
            &&& e == s.evaluator.with_all(frame_logprobs(s.protocol, frame))
            &&& e.count >= e.thresholds.min_tokens
            &&& !e.degenerate()
            &&& !s.gating_disabled
            &&& !e.thresholds.answer_alpha.le(e.confidence())
            &&& out == Some(StepView::Cut(decision_frame(e, e.decision())))
            &&& next.reports == s.reports.push(
                ReportedView::Decided {
                    decision: e.decision(),
                    confidence: e.confidence(),
                    tokens_evaluated: e.count,
                    tokens_saved: s.lookahead.len() + 1,
                },
            )
        }),
{
}

/// While gating is on and the signal is not degenerate, a frame with log
/// probabilities cuts the stream exactly when the decision on all tokens so far
/// is not to answer.
pub proof fn law_cut_is_the_decision(s: StreamView, frame: Seq<u8>)
    requires
        !s.finished,
        !s.gating_disabled,
        frame_logprobs(s.protocol, frame).len() > 0,
        !s.evaluator.with_all(frame_logprobs(s.protocol, frame)).degenerate(),
    ensures
        s.process(frame).0.finished <==> s.evaluator.with_all(
            frame_logprobs(s.protocol, frame),
        ).decision() != Decision::Answer,
{
}

/// No more frames are held back than the lookahead allows, and none comes out
/// of an open stream before that many later ones were looked at.
pub proof fn law_lookahead_is_full_first(s: StreamView, frame: Seq<u8>)
    requires
        s.wf(),
    ensures
        s.process(frame).0.wf(),
        s.process(frame).1 matches Some(StepView::Emit(bytes)) ==> {
            &&& s.process(frame).0.lookahead.len() == s.lookahead_size
            &&& bytes == s.lookahead.push(frame)[0]
        },
{
}

/// A degenerate signal is counted once, when it turns gating off; after that
/// gating stays off, nothing more is counted before the end, and the stream is
/// never cut.
pub proof fn law_degenerate_once(s: StreamView, frame: Seq<u8>)
    ensures
        ({
            let (next, out) = s.process(frame);
            &&& s.gating_disabled ==> next.gating_disabled && next.reports == s.reports
                && next.finished == s.finished
            &&& !s.gating_disabled && next.gating_disabled ==> next.reports == s.reports.push(
                ReportedView::Degenerate,
            ) && next.finished == s.finished && next.evaluator.degenerate()
        }),
{
}

/// With gating off a stream is never cut, whatever is still to come.
pub proof fn law_gate_off_never_cuts(s: StreamView)
    requires
        !s.finished,
        s.gating_disabled,
    ensures
        !settled(s).0.finished,
        settled(s).0.gating_disabled,
        settled(s).0.reports == s.reports,
    decreases s.partial.len(),
{
    if s.frame_end() is Some {
        let end = s.frame_end().unwrap();
        lemma_settled_step(s, end);
        law_degenerate_once(s.after_frame(end), s.partial.take(end));
        law_gate_off_never_cuts(s.after_frame(end).process(s.partial.take(end)).0);
    }
}

/// When the upstream closes an open stream, it counts as answered, once; that
/// log probabilities were missing is counted too exactly when they were asked
/// for and not one came.
pub proof fn law_missing_logprobs_are_counted(s: StreamView)
    requires
        !s.finished,
        settled(s) == (s, Seq::<StepView>::empty()),
    ensures
        ({
            let (next, step) = s.poll(UpstreamView::Closed);
            let answered = ReportedView::Decided {
                decision: Decision::Answer,
                confidence: s.evaluator.confidence(),
                tokens_evaluated: s.evaluator.count,
                tokens_saved: 0,
            };
            &&& s.logprobs_requested && s.evaluator.count == 0 ==> next.reports
                == s.reports.push(ReportedView::NoLogprobs).push(answered)
            &&& !(s.logprobs_requested && s.evaluator.count == 0) ==> next.reports
                == s.reports.push(answered)
            &&& !(step is Cut)
        }),
{
    lemma_settled_has_no_frame(s);
    let (next, step) = s.poll(UpstreamView::Closed);
    let answered = s.closing_reports().last();
    if s.logprobs_requested && s.evaluator.count == 0 {
        assert(next.reports =~= s.reports.push(ReportedView::NoLogprobs).push(answered));
    } else {
        assert(next.reports =~= s.reports.push(answered));
    }
}

/// How many decisions were counted.
pub open spec fn decisions(reports: Seq<ReportedView>) -> nat
    decreases reports.len(),
{
    if reports.len() == 0 {
        0
    } else {
        decisions(reports.drop_last()) + if reports.last() is Decided {
            1nat
        } else {
            0nat
        }
    }
}

proof fn lemma_decisions_push(reports: Seq<ReportedView>, report: ReportedView)
    ensures
        decisions(reports.push(report)) == decisions(reports) + if report is Decided {
            1nat
        } else {
            0nat
        },
{
    assert(reports.push(report).drop_last() =~= reports);
}

/// One decision is counted for every stream: when it is cut, or when the
/// upstream closes it, and never again.
pub proof fn law_one_decision_per_stream(s: StreamView)
    ensures
        decisions(settled(s).0.reports) == decisions(s.reports) + if settled(s).0.finished
            && !s.finished {
            1nat
        } else {
            0nat
        },
        settled(s) == (s, Seq::<StepView>::empty()) ==> decisions(
            s.poll(UpstreamView::Closed).0.reports,
        ) == decisions(s.reports) + if s.finished {
            0nat
        } else {
            1nat
        },
    decreases s.partial.len(),
{
    if !s.finished {
        if settled(s) == (s, Seq::<StepView>::empty()) {
            law_missing_logprobs_are_counted(s);
        }
        let answered = s.closing_reports().last();
        lemma_decisions_push(s.reports, ReportedView::NoLogprobs);
        lemma_decisions_push(s.reports, answered);
        lemma_decisions_push(s.reports.push(ReportedView::NoLogprobs), answered);
        if s.frame_end() is Some {
            let end = s.frame_end().unwrap();
            lemma_settled_step(s, end);
            let next = s.after_frame(end).process(s.partial.take(end)).0;
            law_one_decision_per_stream(next);
            if next.reports.len() > s.reports.len() {
                lemma_decisions_push(s.reports, next.reports.last());
            }
        }
    }
}

// ---------------------------------------------------------------------------
// What comes out
// ---------------------------------------------------------------------------

/// Are these bytes exactly one frame?
pub open spec fn is_frame(protocol: Protocol, bytes: Seq<u8>) -> bool {
    boundary(bytes, separator(protocol), 0) == Some(bytes.len() as int)
}

/// Is everything in a list exactly one frame?
pub open spec fn all_frames(protocol: Protocol, list: Seq<Seq<u8>>) -> bool {
    forall|i: int| 0 <= i < list.len() ==> is_frame(protocol, #[trigger] list[i])
}

/// What is cut off at a boundary is exactly one frame.
proof fn lemma_taken_is_frame(buf: Seq<u8>, sep: Seq<u8>, from: int, end: int)
    requires
        sep.len() > 0,
        0 <= from,
        boundary(buf, sep, from) == Some(end),
    ensures
        from < end <= buf.len(),
        boundary(buf.take(end), sep, from) == Some(end),
    decreases buf.len() - from,
{
    lemma_boundary_is_first(buf, sep, from);
    assert(buf.take(end).subrange(from, from + sep.len()) =~= buf.subrange(
        from,
        from + sep.len(),
    ));
    if buf.subrange(from, from + sep.len()) != sep {
        lemma_taken_is_frame(buf, sep, from + 1, end);
    }
}

proof fn lemma_process_frames(s: StreamView, frame: Seq<u8>)
    requires
        all_frames(s.protocol, s.lookahead),
        is_frame(s.protocol, frame),
    ensures
        all_frames(s.protocol, s.process(frame).0.lookahead),
        s.process(frame).0.protocol == s.protocol,
        s.process(frame).1 matches Some(StepView::Emit(bytes)) ==> is_frame(s.protocol, bytes),
{
    let queue = s.lookahead.push(frame);
    assert forall|i: int| 0 <= i < queue.len() implies is_frame(s.protocol, #[trigger] queue[i]) by {
        if i < s.lookahead.len() {
            assert(queue[i] == s.lookahead[i]);
        }
    }
    let rest = queue.drop_first();
    assert forall|i: int| 0 <= i < rest.len() implies is_frame(s.protocol, #[trigger] rest[i]) by {
        assert(rest[i] == queue[i + 1]);
    }
}

proof fn lemma_settled_frames(s: StreamView)
    requires
        all_frames(s.protocol, s.lookahead),
    ensures
        all_frames(s.protocol, settled(s).0.lookahead),
        settled(s).0.protocol == s.protocol,
        forall|i: int|
            0 <= i < settled(s).1.len() ==> ((#[trigger] settled(s).1[i]) matches StepView::Emit(
                bytes,
            ) ==> is_frame(s.protocol, bytes)),
    decreases s.partial.len(),
{
    if !s.finished && s.frame_end() is Some {
        let end = s.frame_end().unwrap();
        lemma_settled_step(s, end);
        let frame = s.partial.take(end);
        lemma_taken_is_frame(s.partial, separator(s.protocol), 0, end);
        lemma_process_frames(s.after_frame(end), frame);
        let (next, out) = s.after_frame(end).process(frame);
        lemma_settled_frames(next);
        let all = settled(s).1;
        let k = at_most_one(out).len();
        assert forall|i: int| 0 <= i < all.len() implies ((
        #[trigger] all[i]) matches StepView::Emit(bytes) ==> is_frame(s.protocol, bytes)) by {
            if i >= k {
                assert(all[i] == settled(next).1[i - k]);
            }
        }
    }
}

/// Whatever is handed on of a stream before it is cut is exactly one frame.
pub proof fn law_items_before_a_cut_are_frames(s: StreamView)
    requires
        !s.finished,
        settled(s).0.finished,
        all_frames(s.protocol, s.lookahead),
    ensures
        ({
            let out = settled(s).1;
            forall|i: int|
                0 <= i < out.len() - 1 ==> {
                    &&& (#[trigger] out[i]) is Emit
                    &&& is_frame(s.protocol, out[i]->Emit_0)
                }
        }),
{
    law_cut_ends_with_a_decision(s);
    lemma_settled_frames(s);
}

/// Every item of an uncut response is exactly one frame, but for the last, which
/// may be what the upstream left behind without a separator.
pub proof fn law_items_are_frames(s: StreamView, chunks: Seq<Seq<u8>>)
    requires
        settled(s) == (s, Seq::<StepView>::empty()),
        all_frames(s.protocol, s.lookahead),
        !fed(s, chunks).0.finished,
    ensures
        ({
            let items = response(s, chunks);
            &&& forall|i: int| 0 <= i < items.len() ==> (#[trigger] items[i]) is Emit
            &&& forall|i: int|
                0 <= i < items.len() - 1 ==> is_frame(s.protocol, (#[trigger] items[i])->Emit_0)
            &&& fed(s, chunks).0.partial.len() == 0 && items.len() > 0 ==> is_frame(
                s.protocol,
                items.last()->Emit_0,
            )
        }),
{
    law_chunks_do_not_matter(s, chunks);
    let all = s.accept(joined_bytes(chunks));
    lemma_settled_frames(all);
    let (after, out) = settled(all);
    let items = response(s, chunks);
    assert(items == out + ending(after));
    assert forall|i: int| 0 <= i < items.len() implies ({
        &&& (#[trigger] items[i]) is Emit
        &&& (i < items.len() - 1 || after.partial.len() == 0) ==> is_frame(
            s.protocol,
            items[i]->Emit_0,
        )
    }) by {
        if i < out.len() {
            assert(items[i] == out[i]);
            lemma_settled_yields_output(all, i);
            lemma_settled_without_cut(all, i);
        } else {
            let k = i - out.len();
            assert(items[i] == ending(after)[k]);
            if k < after.lookahead.len() {
                assert(is_frame(s.protocol, after.lookahead[k]));
            }
        }
    }
}

/// A stream that stays open yields no cut.
proof fn lemma_settled_without_cut(s: StreamView, i: int)
    requires
        !settled(s).0.finished,
        0 <= i < settled(s).1.len(),
    ensures
        !(settled(s).1[i] is Cut),
    decreases s.partial.len(),
{
    let end = s.frame_end().unwrap();
    lemma_settled_step(s, end);
    let frame = s.partial.take(end);
    let (next, out) = s.after_frame(end).process(frame);
    let k = at_most_one(out).len();
    assert(!next.finished);
    lemma_gate_cuts(s.after_frame(end), frame, frame_logprobs(s.protocol, frame));
    if i >= k {
        lemma_settled_without_cut(next, i - k);
    }
}

/// How many frames an open stream passes before the one that cuts it, or in all
/// where none does.
pub open spec fn passed(s: StreamView) -> nat
    decreases s.partial.len(),
{
    if s.finished {
        0
    } else {
        match s.frame_end() {
            None => 0,
            Some(end) => if 0 < end <= s.partial.len() {
                let next = s.after_frame(end).process(s.partial.take(end)).0;
                if next.finished || next.partial.len() >= s.partial.len() {
                    0
                } else {
                    1 + passed(next)
                }
            } else {
                0
            },
        }
    }
}

/// A cut at the frame after `k` others, with a lookahead of `n` frames of which
/// some may be held back already: all but the last `n` of those frames were
/// handed on, followed by the decision; the ones held back and the one that cuts
/// count as saved.
pub proof fn law_cut_hands_out_and_saves(s: StreamView)
    requires
        s.wf(),
        !s.finished,
        settled(s).0.finished,
    ensures
        ({
            let (after, out) = settled(s);
            let before = s.lookahead.len() + passed(s);
            let held_back = if before <= s.lookahead_size {
                before
            } else {
                s.lookahead_size
            };
            &&& out.len() == before - held_back + 1
            &&& after.reports.len() > 0
            &&& after.reports.last() is Decided
            &&& after.reports.last()->tokens_saved == held_back + 1
        }),
    decreases s.partial.len(),
{
    let end = s.frame_end().unwrap();
    lemma_settled_step(s, end);
    let frame = s.partial.take(end);
    let (next, out) = s.after_frame(end).process(frame);
    lemma_gate_cuts(s.after_frame(end), frame, frame_logprobs(s.protocol, frame));
    if next.finished {
        assert(settled(s).1 =~= at_most_one(out));
    } else {
        law_lookahead_is_full_first(s.after_frame(end), frame);
        law_cut_hands_out_and_saves(next);
    }
}

// ---------------------------------------------------------------------------
// One step at a time
// ---------------------------------------------------------------------------

/// A new stream holds nothing, counts nothing, is open and has gating on.
pub proof fn law_new_stream(
    evaluator: EvaluatorView,
    lookahead_size: nat,
    protocol: Protocol,
    logprobs_requested: bool,
)
    ensures
        ({
            let s = StreamView::fresh(evaluator, lookahead_size, protocol, logprobs_requested);
            &&& s.evaluator == evaluator
            &&& s.lookahead_size == lookahead_size
            &&& s.protocol == protocol
            &&& s.logprobs_requested == logprobs_requested
            &&& s.lookahead.len() == 0
            &&& s.partial.len() == 0
            &&& s.reports.len() == 0
            &&& !s.finished
            &&& !s.gating_disabled
            &&& lookahead_size < usize::MAX ==> s.wf()
        }),
{
}

/// The bytes of a frame end with a line feed on a stream of lines, and with two on
/// a stream of events, and hold no such end before that.
pub proof fn law_frames_of_a_stream(s: StreamView)
    ensures
        ({
            let n: int = if s.protocol == Protocol::Ndjson {
                1
            } else {
                2
            };
            let line_feeds = if s.protocol == Protocol::Ndjson {
                seq![10u8]
            } else {
                seq![10u8, 10u8]
            };
            match s.frame_end() {
                Some(end) => {
                    &&& n <= end <= s.partial.len()
                    &&& s.partial.subrange(end - n, end) == line_feeds
                    &&& forall|i: int|
                        0 <= i < end - n ==> #[trigger] s.partial.subrange(i, i + n) != line_feeds
                },
                None => forall|i: int|
                    0 <= i <= s.partial.len() - n ==> #[trigger] s.partial.subrange(i, i + n)
                        != line_feeds,
            }
        }),
{
    law_frame_ends_with_first_separator(s.partial, separator(s.protocol));
}

/// What a frame with some log probabilities changes. All of them are taken in. The
/// stream is cut exactly when there are some, gating is on, the signal is not
/// degenerate and the decision is not to answer; gating goes off exactly when there
/// are some and the signal is degenerate. Nothing else of the stream changes but
/// what is held back and what is counted.
pub proof fn law_frame_is_gated(s: StreamView, frame: Seq<u8>, logprobs: Seq<Real64>)
    ensures
        ({
            let (next, out) = s.gate(frame, logprobs);
            let e = s.evaluator.with_all(logprobs);
            let gated = logprobs.len() > 0 && !s.gating_disabled;
            let cut = gated && !e.degenerate() && e.decision() != Decision::Answer;
            &&& next.evaluator == e
            &&& next.finished <==> s.finished || cut
            &&& next.gating_disabled <==> s.gating_disabled || (gated && e.degenerate())
            &&& next.protocol == s.protocol
            &&& next.partial == s.partial
            &&& next.lookahead_size == s.lookahead_size
            &&& next.logprobs_requested == s.logprobs_requested
            &&& cut <==> (out matches Some(step) && step is Cut)
            &&& cut ==> next.lookahead.len() == 0
            &&& cut ==> next.reports == s.reports.push(
                ReportedView::Decided {
                    decision: e.decision(),
                    confidence: e.confidence(),
                    tokens_evaluated: e.count,
                    tokens_saved: s.lookahead.len() + 1,
                },
            )
            &&& gated && e.degenerate() ==> next.reports == s.reports.push(ReportedView::Degenerate)
            &&& !cut && !(gated && e.degenerate()) ==> next.reports == s.reports
        }),
{
}

/// A frame that does not cut the stream queues up behind those that are held back.
/// Where that makes more than the lookahead allows, the one at the front goes to
/// the client and the others stay; otherwise all stay and nothing goes out.
pub proof fn law_frame_queues_up(s: StreamView, frame: Seq<u8>, logprobs: Seq<Real64>)
    requires
        !s.finished,
        !s.gate(frame, logprobs).0.finished,
    ensures
        ({
            let (next, out) = s.gate(frame, logprobs);
            let waiting = s.lookahead + seq![frame];
            if s.lookahead.len() >= s.lookahead_size {
                &&& out == Some(StepView::Emit(waiting[0]))
                &&& seq![waiting[0]] + next.lookahead == waiting
            } else {
                &&& out is None
                &&& next.lookahead == waiting
            }
        }),
{
    let waiting = s.lookahead + seq![frame];
    assert(waiting =~= s.lookahead.push(frame));
    if s.lookahead.len() >= s.lookahead_size {
        assert(seq![waiting[0]] + waiting.drop_first() =~= waiting);
    }
}

/// The log probabilities that a frame is gated on are those that are read from it.
pub proof fn law_frame_is_read_and_gated(s: StreamView, frame: Seq<u8>)
    ensures
        s.process(frame) == s.gate(frame, frame_logprobs(s.protocol, frame)),
{
}

/// A chunk does what its bytes do when they stand behind those that are held
/// already, whatever their number.
pub proof fn law_chunk_joins_what_is_held(s: StreamView, bytes: Seq<u8>)
    ensures
        s.poll(UpstreamView::Chunk(bytes)) == (StreamView { partial: s.partial + bytes, ..s }).poll(
            UpstreamView::Quiet,
        ),
{
}

/// Polling an open stream takes its first frame out and processes it: what that
/// yields is the step, and where it yields nothing the next frame follows. Without a
/// complete frame the upstream is asked and nothing changes.
pub proof fn law_polling_takes_the_first_frame(s: StreamView)
    requires
        !s.finished,
    ensures
        match s.frame_end() {
            None => s.poll(UpstreamView::Quiet) == (s, StepView::NeedUpstream),
            Some(end) => {
                let rest = StreamView {
                    partial: s.partial.subrange(end, s.partial.len() as int),
                    ..s
                };
                let (next, out) = rest.process(s.partial.subrange(0, end));
                match out {
                    Some(step) => s.poll(UpstreamView::Quiet) == (next, step),
                    None => s.poll(UpstreamView::Quiet) == next.poll(UpstreamView::Quiet),
                }
            },
        },
{
    lemma_frame_end(s);
}

/// Where complete frames are still held when the upstream closes and none of them
/// yields anything, they are processed all the same, and the close follows.
pub proof fn law_close_comes_after_the_frames(s: StreamView)
    requires
        !s.finished,
        settled(s).1.len() == 0,
    ensures
        s.poll(UpstreamView::Closed) == settled(s).0.poll(UpstreamView::Closed),
    decreases s.partial.len(),
{
    law_polling_yields_settled_steps(s);
    let after = settled(s).0;
    lemma_settled_again(s);
    if !after.finished {
        lemma_settled_has_no_frame(after);
    }
}

/// Settling a stream that is settled changes nothing.
proof fn lemma_settled_again(s: StreamView)
    requires
        settled(s).1.len() == 0,
        !s.finished,
    ensures
        settled(settled(s).0) == (settled(s).0, Seq::<StepView>::empty()),
        !settled(s).0.finished,
    decreases s.partial.len(),
{
    if s.frame_end() is Some {
        let end = s.frame_end().unwrap();
        lemma_settled_step(s, end);
        let frame = s.partial.take(end);
        let (next, out) = s.after_frame(end).process(frame);
        lemma_gate_cuts(s.after_frame(end), frame, frame_logprobs(s.protocol, frame));
        assert(at_most_one(out).len() == 0);
        lemma_settled_again(next);
    }
}

/// A stream is well formed exactly where it holds no more frames back than its
/// lookahead allows, and these and one more can be counted; every step keeps that.
pub proof fn law_well_formed(s: StreamView, frame: Seq<u8>)
    ensures
        s.wf() <==> s.lookahead.len() <= s.lookahead_size && s.lookahead_size < usize::MAX,
        s.wf() ==> s.process(frame).0.wf(),
{
}

/// A stream that is over hands out what it holds back, one frame at a time and in
/// order, then ends, and changes in nothing else.
pub proof fn law_finished_stream_hands_out(s: StreamView)
    requires
        s.finished,
    ensures
        ({
            let (next, step) = s.poll(UpstreamView::Quiet);
            &&& s.poll(UpstreamView::Closed) == (next, step)
            &&& if s.lookahead.len() == 0 {
                step == StepView::End && next == s
            } else {
                &&& step == StepView::Emit(s.lookahead[0])
                &&& next == (StreamView { lookahead: next.lookahead, ..s })
                &&& seq![s.lookahead[0]] + next.lookahead == s.lookahead
            }
        }),
{
    if s.lookahead.len() > 0 {
        assert(seq![s.lookahead[0]] + s.lookahead.drop_first() =~= s.lookahead);
    }
}

/// When the upstream closes a stream that holds no complete frame, the bytes left
/// over wait behind the frames that are held back, and the stream is over.
pub proof fn law_close_keeps_what_is_left(s: StreamView)
    requires
        !s.finished,
        s.frame_end() is None,
    ensures
        ({
            let (next, step) = s.poll(UpstreamView::Closed);
            let waiting = if s.partial.len() > 0 {
                s.lookahead + seq![s.partial]
            } else {
                s.lookahead
            };
            &&& next.finished
            &&& next.partial.len() == 0
            &&& next.evaluator == s.evaluator
            &&& next.gating_disabled == s.gating_disabled
            &&& if waiting.len() == 0 {
                step == StepView::End && next.lookahead.len() == 0
            } else {
                step == StepView::Emit(waiting[0]) && seq![waiting[0]] + next.lookahead == waiting
            }
        }),
{
    let waiting = if s.partial.len() > 0 {
        s.lookahead + seq![s.partial]
    } else {
        s.lookahead
    };
    assert(s.lookahead + seq![s.partial] =~= s.lookahead.push(s.partial));
    if waiting.len() > 0 {
        assert(seq![waiting[0]] + waiting.drop_first() =~= waiting);
    }
}

// ---------------------------------------------------------------------------
// What a cut tells
// ---------------------------------------------------------------------------

proof fn lemma_settled_takes_a_prefix(s: StreamView)
    requires
        !s.finished,
    ensures
        ({
            let after = settled(s).0;
            let taken = s.partial.take(s.partial.len() - after.partial.len());
            &&& after.partial.len() <= s.partial.len()
            &&& after.partial == s.partial.skip(taken.len() as int)
            &&& after.evaluator == s.evaluator.with_all(all_logprobs(s.protocol, taken))
        }),
    decreases s.partial.len(),
{
    let after = settled(s).0;
    if s.frame_end() is Some {
        let end = s.frame_end().unwrap();
        lemma_settled_step(s, end);
        let frame = s.partial.take(end);
        let next = s.after_frame(end).process(frame).0;
        lemma_taken_is_frame(s.partial, separator(s.protocol), 0, end);
        if next.finished {
            let taken = s.partial.take(end);
            assert(s.partial.len() - after.partial.len() == end);
            assert(taken.take(end) =~= frame);
            assert(all_logprobs(s.protocol, taken.skip(end)) =~= Seq::<Real64>::empty());
            assert(all_logprobs(s.protocol, taken) =~= frame_logprobs(s.protocol, frame));
        } else {
            lemma_settled_takes_a_prefix(next);
            let rest = next.partial.take(next.partial.len() - after.partial.len());
            let taken = s.partial.take(s.partial.len() - after.partial.len());
            assert(taken =~= frame + rest);
            lemma_boundary_grows(frame, rest, separator(s.protocol), 0);
            assert(taken.take(end) =~= frame);
            assert(taken.skip(end) =~= rest);
            assert(after.partial =~= s.partial.skip(taken.len() as int));
            law_tokens_in_order(
                s.evaluator,
                frame_logprobs(s.protocol, frame),
                all_logprobs(s.protocol, rest),
            );
        }
    } else {
        let taken = s.partial.take(0);
        assert(s.partial.skip(0) =~= s.partial);
        assert(all_logprobs(s.protocol, taken) =~= Seq::<Real64>::empty());
    }
}

/// When a stream from its start is cut, the last thing the client gets tells of all
/// tokens in the bytes up to there: their number, and their mean, which is their sum
/// in order over their number. It says to abstain, with beta, where that mean is
/// below beta, and otherwise to escalate, with alpha, and alpha was not reached.
pub proof fn law_cut_tells_of_all_tokens(
    thresholds: ThresholdsView,
    lookahead_size: nat,
    protocol: Protocol,
    logprobs_requested: bool,
    chunks: Seq<Seq<u8>>,
)
    requires
        ({
            let s = StreamView::fresh(
                EvaluatorView::fresh(thresholds),
                lookahead_size,
                protocol,
                logprobs_requested,
            );
            &&& fed(s, chunks).0.finished
            &&& all_logprobs(
                protocol,
                joined_bytes(chunks).take(
                    joined_bytes(chunks).len() - fed(s, chunks).0.partial.len(),
                ),
            ).len() <= usize::MAX
        }),
    ensures
        ({
            let s = StreamView::fresh(
                EvaluatorView::fresh(thresholds),
                lookahead_size,
                protocol,
                logprobs_requested,
            );
            let bytes = joined_bytes(chunks);
            let tokens = all_logprobs(
                protocol,
                bytes.take(bytes.len() - fed(s, chunks).0.partial.len()),
            );
            let mean = sum_of(tokens).over(real_of(tokens.len()));
            &&& tokens.len() > 0
            &&& tokens.len() >= thresholds.min_tokens
            &&& fed(s, chunks).1.len() > 0
            &&& fed(s, chunks).1.last() matches StepView::Cut(f) && {
                &&& f.tokens_evaluated == tokens.len()
                &&& f.confidence_score == mean
                &&& !thresholds.answer_alpha.le(mean)
                &&& mean.lt(thresholds.abstain_beta) ==> f.rag_gate_decision == "ABSTAIN"@
                    && f.threshold_used == thresholds.abstain_beta
                &&& !mean.lt(thresholds.abstain_beta) ==> f.rag_gate_decision == "ESCALATE"@
                    && f.threshold_used == thresholds.answer_alpha
            }
        }),
{
    let s = StreamView::fresh(
        EvaluatorView::fresh(thresholds),
        lookahead_size,
        protocol,
        logprobs_requested,
    );
    let bytes = joined_bytes(chunks);
    law_new_stream_is_settled(s);
    law_chunks_do_not_matter(s, chunks);
    let all = s.accept(bytes);
    assert(all.partial =~= bytes);
    lemma_settled_takes_a_prefix(all);
    law_cut_ends_with_a_decision(all);
    let after = settled(all).0;
    let tokens = all_logprobs(protocol, bytes.take(bytes.len() - after.partial.len()));
    law_tokens_are_counted(thresholds, tokens);
    lemma_cut_takes_tokens(all);
    if tokens.len() > 0 {
        law_confidence_is_mean(thresholds, tokens);
    }
}

/// A stream is not cut without a token.
proof fn lemma_cut_takes_tokens(s: StreamView)
    requires
        !s.finished,
        settled(s).0.finished,
    ensures
        settled(s).0.evaluator.count > 0,
        settled(s).0.evaluator.count >= settled(s).0.evaluator.thresholds.min_tokens,
    decreases s.partial.len(),
{
    let end = s.frame_end().unwrap();
    lemma_settled_step(s, end);
    let frame = s.partial.take(end);
    let next = s.after_frame(end).process(frame).0;
    if next.finished {
        law_cut_has_a_reason(s.after_frame(end), frame);
    } else {
        lemma_cut_takes_tokens(next);
    }
}

} // verus!
