//! Gating of one stream: reassembles frames, reads log probabilities out of
//! them, and forwards the stream or cuts it.

use crate::binary64::Binary64;
use crate::decimal::{decimal, number_text};
use crate::evaluator::{ConfidenceEvaluator, Decision, EvaluatorView};
use crate::json::{
    elements, json_tree, json_trees, member, number, parse_text, parsed_text, quoted, write_text,
    Json,
};
use crate::rounding::Real64;
use crate::text::{after, begins_with, same_text, starts_with, trim, trimmed};
use crate::wire::{bytes_of, chunk_from, contents, lossy_text, text_of};
use bytes::Bytes;
use std::collections::VecDeque;
use vstd::prelude::*;
use vstd::string::{StrSliceExecFns, StringExecFns};
use vstd::utf8::encode_utf8;

verus! {

/// Wire protocol of the upstream's stream.
#[derive(Debug, Clone, Copy, PartialEq, Eq, Structural)]
pub enum Protocol {
    /// Server-sent events of an OpenAI-compatible upstream: `data: {json}`, each
    /// followed by a blank line, the last one `data: [DONE]`.
    Sse,
    /// One JSON object per line, as Ollama's native endpoints send.
    Ndjson,
    /// Server-sent events of Gemini's native endpoints.
    Gemini,
}

/// The bytes that end a frame.
pub open spec fn separator(protocol: Protocol) -> Seq<u8> {
    match protocol {
        Protocol::Ndjson => seq![10u8],
        _ => seq![10u8, 10u8],
    }
}

impl Protocol {
    /// The byte sequence that terminates one complete frame on this protocol.
    pub fn frame_separator(self) -> (r: &'static [u8])
        ensures
            r@ == separator(self),
    {
        match self {
            Protocol::Ndjson => &[10u8],
            _ => &[10u8, 10u8],
        }
    }
}

// ---------------------------------------------------------------------------
// Frames
// ---------------------------------------------------------------------------

/// The offset just past the first separator that starts at `from` or later.
pub open spec fn boundary(buf: Seq<u8>, sep: Seq<u8>, from: int) -> Option<int>
    decreases buf.len() - from,
{
    if from < 0 || from >= buf.len() || from + sep.len() > buf.len() {
        None
    } else if buf.subrange(from, from + sep.len()) == sep {
        Some(from + sep.len())
    } else {
        boundary(buf, sep, from + 1)
    }
}

/// Byte offset just past the first frame separator in `buf`, if any.
pub fn find_frame_boundary(protocol: Protocol, buf: &[u8]) -> (r: Option<usize>)
    ensures
        match r {
            Some(k) => boundary(buf@, separator(protocol), 0) == Some(k as int) && 0 < k
                <= buf@.len(),
            None => boundary(buf@, separator(protocol), 0) is None,
        },
{
    let sep = protocol.frame_separator();
    let n: usize = sep.len();
    let mut i: usize = 0;
    while i < buf.len() && n <= buf.len() - i
        invariant
            0 < n == sep@.len() <= 2,
            sep@ == separator(protocol),
            i <= buf@.len(),
            boundary(buf@, sep@, 0) == boundary(buf@, sep@, i as int),
        decreases buf@.len() - i,
    {
        let hit = buf[i] == sep[0] && (n == 1 || buf[i + 1] == sep[1]);
        proof {
            let window = buf@.subrange(i as int, i + n);
            if hit {
                assert(window =~= sep@);
            } else {
                assert(window[0] == buf@[i as int]);
                if n == 2 {
                    assert(window[1] == buf@[i + 1]);
                }
            }
        }
        if hit {
            return Some(i + n);
        }
        i = i + 1;
    }
    None
}

// ---------------------------------------------------------------------------
// Log probabilities
// ---------------------------------------------------------------------------

/// The numbers that the items of a list have as a member, in order. Items
/// without one are passed over.
pub open spec fn listed(items: Seq<Json>, key: Seq<char>) -> Seq<Real64>
    decreases items.len(),
{
    if items.len() == 0 {
        Seq::empty()
    } else {
        let rest = listed(items.drop_last(), key);
        match items.last().member(key) {
            Some(item) => match item.number() {
                Some(x) => rest.push(x),
                None => rest,
            },
            None => rest,
        }
    }
}

/// `listed` of the list at a path of two names; nothing where there is none.
pub open spec fn listed_at(
    tree: Json,
    outer: Seq<char>,
    inner: Seq<char>,
    key: Seq<char>,
) -> Seq<Real64> {
    match tree.member(outer) {
        Some(found) => match found.member(inner) {
            Some(list) => match list.elements() {
                Some(items) => listed(items, key),
                None => Seq::empty(),
            },
            None => Seq::empty(),
        },
        None => Seq::empty(),
    }
}

/// The first element of the list that is a member of an object.
pub open spec fn first_of_member(tree: Json, key: Seq<char>) -> Option<Json> {
    match tree.member(key) {
        Some(list) => match list.elements() {
            Some(items) => if items.len() > 0 {
                Some(items[0])
            } else {
                None
            },
            None => None,
        },
        None => None,
    }
}

/// `choices[0].logprobs.content[].logprob`.
pub open spec fn openai_logprobs(tree: Json) -> Seq<Real64> {
    match first_of_member(tree, "choices"@) {
        Some(choice) => listed_at(choice, "logprobs"@, "content"@, "logprob"@),
        None => Seq::empty(),
    }
}

/// `candidates[0].logprobsResult.chosenCandidates[].logProbability`.
pub open spec fn gemini_logprobs(tree: Json) -> Seq<Real64> {
    match first_of_member(tree, "candidates"@) {
        Some(candidate) => listed_at(
            candidate,
            "logprobsResult"@,
            "chosenCandidates"@,
            "logProbability"@,
        ),
        None => Seq::empty(),
    }
}

/// The OpenAI shape, or else the same list at the top of the document.
pub open spec fn ndjson_logprobs(tree: Json) -> Seq<Real64> {
    let nested = openai_logprobs(tree);
    if nested.len() > 0 {
        nested
    } else {
        listed_at(tree, "logprobs"@, "content"@, "logprob"@)
    }
}

/// The log probabilities in a document, by protocol.
pub open spec fn document_logprobs(protocol: Protocol, tree: Json) -> Seq<Real64> {
    match protocol {
        Protocol::Sse => openai_logprobs(tree),
        Protocol::Gemini => gemini_logprobs(tree),
        Protocol::Ndjson => ndjson_logprobs(tree),
    }
}

/// The text of a frame that may be a document, if it has one.
pub open spec fn payload(protocol: Protocol, text: Seq<char>) -> Option<Seq<char>> {
    match protocol {
        Protocol::Ndjson => Some(trimmed(text)),
        _ => if !begins_with(text, "data: "@) || trimmed(text) == "data: [DONE]"@ {
            None
        } else {
            Some(text.skip(6))
        },
    }
}

/// The log probabilities in the text of a frame; none where it holds no
/// document.
pub open spec fn text_logprobs(protocol: Protocol, text: Seq<char>) -> Seq<Real64> {
    match payload(protocol, text) {
        Some(json) => match parsed_text(json) {
            Ok(tree) => document_logprobs(protocol, tree),
            Err(_) => Seq::empty(),
        },
        None => Seq::empty(),
    }
}

/// The log probabilities in a frame.
pub open spec fn frame_logprobs(protocol: Protocol, frame: Seq<u8>) -> Seq<Real64> {
    text_logprobs(protocol, lossy_text(frame))
}

/// What a vector of numbers holds.
pub open spec fn numbers(values: Seq<Binary64>) -> Seq<Real64> {
    values.map_values(|x: Binary64| x@)
}

/// The numbers that the items of a list have as a member.
fn list(items: &Vec<serde_json::Value>, key: &str) -> (r: Vec<Binary64>)
    ensures
        numbers(r@) == listed(json_trees(items@), key@),
{
    let mut r: Vec<Binary64> = Vec::new();
    let mut i: usize = 0;
    let ghost trees = json_trees(items@);
    proof {
        assert(trees.take(0) =~= Seq::<Json>::empty());
        assert(numbers(r@) =~= Seq::<Real64>::empty());
    }
    while i < items.len()
        invariant
            i <= items@.len(),
            trees == json_trees(items@),
            numbers(r@) == listed(trees.take(i as int), key@),
        decreases items@.len() - i,
    {
        assert(trees.take(i + 1).drop_last() =~= trees.take(i as int));
        assert(trees.take(i + 1).last() == json_tree(items@[i as int]));
        let ghost before = numbers(r@);
        if let Some(item) = member(&items[i], key) {
            if let Some(x) = number(item) {
                r.push(x);
                assert(numbers(r@) =~= before.push(x@));
            }
        }
        i = i + 1;
    }
    assert(trees.take(i as int) =~= trees);
    r
}

fn list_at(value: &serde_json::Value, outer: &str, inner: &str, key: &str) -> (r: Vec<Binary64>)
    ensures
        numbers(r@) == listed_at(json_tree(*value), outer@, inner@, key@),
{
    if let Some(found) = member(value, outer) {
        if let Some(part) = member(found, inner) {
            if let Some(items) = elements(part) {
                return list(items, key);
            }
        }
    }
    let r: Vec<Binary64> = Vec::new();
    assert(numbers(r@) =~= Seq::<Real64>::empty());
    r
}

fn first_element<'a>(value: &'a serde_json::Value, key: &str) -> (r: Option<
    &'a serde_json::Value,
>)
    ensures
        match r {
            Some(item) => first_of_member(json_tree(*value), key@) == Some(json_tree(*item)),
            None => first_of_member(json_tree(*value), key@) is None,
        },
{
    match member(value, key) {
        Some(part) => match elements(part) {
            Some(items) => if items.len() > 0 {
                assert(json_trees(items@)[0] == json_tree(items@[0]));
                Some(&items[0])
            } else {
                None
            },
            None => None,
        },
        None => None,
    }
}

/// The log probabilities in a document, by protocol.
pub fn read_logprobs(protocol: Protocol, value: &serde_json::Value) -> (r: Vec<Binary64>)
    ensures
        numbers(r@) == document_logprobs(protocol, json_tree(*value)),
{
    match protocol {
        Protocol::Gemini => match first_element(value, "candidates") {
            Some(candidate) => list_at(
                candidate,
                "logprobsResult",
                "chosenCandidates",
                "logProbability",
            ),
            None => {
                let r: Vec<Binary64> = Vec::new();
                assert(numbers(r@) =~= Seq::<Real64>::empty());
                r
            },
        },
        _ => {
            let nested: Vec<Binary64> = match first_element(value, "choices") {
                Some(choice) => list_at(choice, "logprobs", "content", "logprob"),
                None => {
                    let r: Vec<Binary64> = Vec::new();
                    assert(numbers(r@) =~= Seq::<Real64>::empty());
                    r
                },
            };
            assert(numbers(nested@) == openai_logprobs(json_tree(*value)));
            assert(numbers(nested@).len() == nested@.len());
            if protocol == Protocol::Ndjson && nested.len() == 0 {
                list_at(value, "logprobs", "content", "logprob")
            } else {
                nested
            }
        },
    }
}

/// Takes a sequence of log probabilities in.
fn feed(evaluator: &mut ConfidenceEvaluator, logprobs: &Vec<Binary64>)
    ensures
        final(evaluator)@ == old(evaluator)@.with_all(numbers(logprobs@)),
{
    let ghost start = evaluator@;
    let ghost all = numbers(logprobs@);
    let mut i: usize = 0;
    assert(all.take(0) =~= Seq::<Real64>::empty());
    while i < logprobs.len()
        invariant
            i <= logprobs@.len(),
            all == numbers(logprobs@),
            evaluator@ == start.with_all(all.take(i as int)),
        decreases logprobs@.len() - i,
    {
        assert(all.take(i + 1).drop_last() =~= all.take(i as int));
        evaluator.add_logprob(logprobs[i]);
        i = i + 1;
    }
    assert(all.take(i as int) =~= all);
}

/// The log probabilities in the text of a frame.
pub fn extract_logprobs(protocol: Protocol, text: &str) -> (r: Vec<Binary64>)
    ensures
        numbers(r@) == text_logprobs(protocol, text@),
{
    let nothing: Vec<Binary64> = Vec::new();
    assert(numbers(nothing@) =~= Seq::<Real64>::empty());
    let json = if protocol == Protocol::Ndjson {
        trim(text)
    } else {
        if !starts_with(text, "data: ") || same_text(trim(text), "data: [DONE]") {
            return nothing;
        }
        proof {
            reveal_strlit("data: ");
        }
        after(text, 6)
    };
    match parse_text(json) {
        Ok(value) => read_logprobs(protocol, &value),
        Err(_) => nothing,
    }
}

// ---------------------------------------------------------------------------
// Decision frames
// ---------------------------------------------------------------------------

/// What a client is told when its stream is cut.
#[derive(Debug)]
pub struct RagGateDecisionFrame {
    pub rag_gate_decision: String,
    pub confidence_score: Binary64,
    pub tokens_evaluated: usize,
    pub threshold_used: Binary64,
}

/// What a [`RagGateDecisionFrame`] holds.
#[verifier::ext_equal]
pub ghost struct DecisionFrameView {
    pub rag_gate_decision: Seq<char>,
    pub confidence_score: Real64,
    pub tokens_evaluated: nat,
    pub threshold_used: Real64,
}

impl View for RagGateDecisionFrame {
    type V = DecisionFrameView;

    open spec fn view(&self) -> DecisionFrameView {
        DecisionFrameView {
            rag_gate_decision: self.rag_gate_decision@,
            confidence_score: self.confidence_score@,
            tokens_evaluated: self.tokens_evaluated as nat,
            threshold_used: self.threshold_used@,
        }
    }
}

/// How a decision is written.
pub open spec fn decision_name(decision: Decision) -> Seq<char> {
    match decision {
        Decision::Abstain => "ABSTAIN"@,
        Decision::Escalate => "ESCALATE"@,
        Decision::Answer => "ANSWER"@,
    }
}

/// How a decision is written.
pub fn decision_label(decision: Decision) -> (r: &'static str)
    ensures
        r@ == decision_name(decision),
{
    match decision {
        Decision::Abstain => "ABSTAIN",
        Decision::Escalate => "ESCALATE",
        Decision::Answer => "ANSWER",
    }
}

/// The frame that tells of a decision: the confidence it rests on, the number
/// of tokens, and the threshold that was not reached.
pub open spec fn decision_frame(evaluator: EvaluatorView, decision: Decision) -> DecisionFrameView {
    DecisionFrameView {
        rag_gate_decision: decision_name(decision),
        confidence_score: evaluator.confidence(),
        tokens_evaluated: evaluator.count,
        threshold_used: match decision {
            Decision::Abstain => evaluator.thresholds.abstain_beta,
            _ => evaluator.thresholds.answer_alpha,
        },
    }
}

/// A decision frame as a JSON object, given the texts of its two numbers.
pub open spec fn frame_json(
    frame: DecisionFrameView,
    score: Seq<char>,
    threshold: Seq<char>,
) -> Seq<char> {
    "{\"rag_gate_decision\":"@ + quoted(frame.rag_gate_decision) + ",\"confidence_score\":"@ + score
        + ",\"tokens_evaluated\":"@ + decimal(frame.tokens_evaluated) + ",\"threshold_used\":"@
        + threshold + "}"@
}

/// A document as a frame of a protocol.
pub open spec fn framed(protocol: Protocol, json: Seq<char>) -> Seq<char> {
    match protocol {
        Protocol::Ndjson => json + "\n"@,
        _ => "data: "@ + json + "\n\n"@,
    }
}

impl RagGateDecisionFrame {
    /// The frame as a JSON object. The texts of the two numbers are given.
    pub fn to_json(&self, score: &str, threshold: &str) -> (r: String)
        ensures
            r@ == frame_json(self@, score@, threshold@),
    {
        let mut r = "{\"rag_gate_decision\":".to_owned();
        r.append(write_text(self.rag_gate_decision.as_str()).as_str());
        r.append(",\"confidence_score\":");
        r.append(score);
        r.append(",\"tokens_evaluated\":");
        r.append(number_text(self.tokens_evaluated as u128).as_str());
        r.append(",\"threshold_used\":");
        r.append(threshold);
        r.append("}");
        r
    }

    /// The bytes that go to the client. The texts of the two numbers are given.
    pub fn to_wire(&self, protocol: Protocol, score: &str, threshold: &str) -> (r: Bytes)
        ensures
            bytes_of(r) == encode_utf8(
                framed(protocol, frame_json(self@, score@, threshold@)),
            ),
    {
        let json = self.to_json(score, threshold);
        let mut text = String::new();
        if protocol == Protocol::Ndjson {
            text.append(json.as_str());
            assert(text@ =~= json@);
            text.append("\n");
        } else {
            text.append("data: ");
            assert(text@ =~= "data: "@);
            text.append(json.as_str());
            text.append("\n\n");
        }
        chunk_from(text.as_str().as_bytes_vec())
    }
}

// ---------------------------------------------------------------------------
// The stream
// ---------------------------------------------------------------------------

/// Something about a stream that is counted.
#[derive(Debug, Clone, Copy)]
pub enum StreamReport {
    /// The signal was too perfect to trust; gating is off for this stream.
    Degenerate,
    /// Log probabilities were asked for and none came.
    NoLogprobs,
    /// The stream was decided on.
    Decided {
        decision: Decision,
        confidence: Binary64,
        tokens_evaluated: usize,
        /// Frames that were received and not forwarded.
        tokens_saved: usize,
    },
}

/// What a [`StreamReport`] says.
pub ghost enum ReportedView {
    Degenerate,
    NoLogprobs,
    Decided { decision: Decision, confidence: Real64, tokens_evaluated: nat, tokens_saved: nat },
}

impl View for StreamReport {
    type V = ReportedView;

    open spec fn view(&self) -> ReportedView {
        match *self {
            StreamReport::Degenerate => ReportedView::Degenerate,
            StreamReport::NoLogprobs => ReportedView::NoLogprobs,
            StreamReport::Decided { decision, confidence, tokens_evaluated, tokens_saved } =>
                ReportedView::Decided {
                decision,
                confidence: confidence@,
                tokens_evaluated: tokens_evaluated as nat,
                tokens_saved: tokens_saved as nat,
            },
        }
    }
}

/// What a stream does next.
pub enum Step {
    /// Hand these bytes to the client.
    Emit(Bytes),
    /// Hand this frame to the client; the stream is cut.
    Cut(RagGateDecisionFrame),
    /// Wait for the upstream.
    NeedUpstream,
    /// The stream is over.
    End,
}

/// What a [`Step`] holds.
pub ghost enum StepView {
    Emit(Seq<u8>),
    Cut(DecisionFrameView),
    NeedUpstream,
    End,
}

impl View for Step {
    type V = StepView;

    open spec fn view(&self) -> StepView {
        match *self {
            Step::Emit(bytes) => StepView::Emit(bytes_of(bytes)),
            Step::Cut(frame) => StepView::Cut(frame@),
            Step::NeedUpstream => StepView::NeedUpstream,
            Step::End => StepView::End,
        }
    }
}

/// What the upstream did since the last step.
pub enum Upstream {
    /// Nothing, or it was not asked.
    Quiet,
    /// It sent bytes.
    Chunk(Bytes),
    /// It closed the stream.
    Closed,
}

/// What an [`Upstream`] holds.
pub ghost enum UpstreamView {
    Quiet,
    Chunk(Seq<u8>),
    Closed,
}

impl View for Upstream {
    type V = UpstreamView;

    open spec fn view(&self) -> UpstreamView {
        match *self {
            Upstream::Quiet => UpstreamView::Quiet,
            Upstream::Chunk(bytes) => UpstreamView::Chunk(bytes_of(bytes)),
            Upstream::Closed => UpstreamView::Closed,
        }
    }
}

/// A stream that is gated.
pub struct InterceptedStream<S> {
    /// Where the upstream's bytes come from.
    inner: S,
    evaluator: ConfidenceEvaluator,
    lookahead_buffer: VecDeque<Bytes>,
    lookahead_size: usize,
    finished: bool,
    protocol: Protocol,
    /// Bytes that do not yet make a complete frame. The end of a chunk can fall
    /// anywhere in a frame, so frames are put together here.
    partial_frame: Vec<u8>,
    logprobs_requested: bool,
    gating_disabled: bool,
    reports: Vec<StreamReport>,
}

/// What an [`InterceptedStream`] holds, but for the source of its bytes.
#[verifier::ext_equal]
pub ghost struct StreamView {
    pub evaluator: EvaluatorView,
    pub lookahead: Seq<Seq<u8>>,
    pub lookahead_size: nat,
    pub finished: bool,
    pub protocol: Protocol,
    pub partial: Seq<u8>,
    pub logprobs_requested: bool,
    pub gating_disabled: bool,
    pub reports: Seq<ReportedView>,
}

/// The bytes of every chunk.
pub open spec fn all_bytes(chunks: Seq<Bytes>) -> Seq<Seq<u8>> {
    chunks.map_values(|c: Bytes| bytes_of(c))
}

/// What a sequence of reports says.
pub open spec fn all_reported(reports: Seq<StreamReport>) -> Seq<ReportedView> {
    reports.map_values(|r: StreamReport| r@)
}

impl<S> View for InterceptedStream<S> {
    type V = StreamView;

    closed spec fn view(&self) -> StreamView {
        StreamView {
            evaluator: self.evaluator@,
            lookahead: all_bytes(self.lookahead_buffer@),
            lookahead_size: self.lookahead_size as nat,
            finished: self.finished,
            protocol: self.protocol,
            partial: self.partial_frame@,
            logprobs_requested: self.logprobs_requested,
            gating_disabled: self.gating_disabled,
            reports: all_reported(self.reports@),
        }
    }
}

impl StreamView {
    /// A stream that nothing came from yet.
    pub open spec fn fresh(
        evaluator: EvaluatorView,
        lookahead_size: nat,
        protocol: Protocol,
        logprobs_requested: bool,
    ) -> StreamView {
        StreamView {
            evaluator,
            lookahead: Seq::empty(),
            lookahead_size,
            finished: false,
            protocol,
            partial: Seq::empty(),
            logprobs_requested,
            gating_disabled: false,
            reports: Seq::empty(),
        }
    }

    /// No more frames are held back than the lookahead allows.
    pub open spec fn wf(self) -> bool {
        self.lookahead.len() <= self.lookahead_size < usize::MAX
    }

    /// A frame goes in at the back of the lookahead; the one at its front comes
    /// out where it is over full.
    pub open spec fn forward(self, frame: Seq<u8>) -> (StreamView, Option<StepView>) {
        let queue = self.lookahead.push(frame);
        if queue.len() > self.lookahead_size {
            (
                StreamView { lookahead: queue.drop_first(), ..self },
                Some(StepView::Emit(queue[0])),
            )
        } else {
            (StreamView { lookahead: queue, ..self }, None)
        }
    }

    /// The stream ends with a decision frame; what is held back is dropped.
    pub open spec fn cut(self, decision: Decision) -> (StreamView, Option<StepView>) {
        (
            StreamView {
                finished: true,
                lookahead: Seq::empty(),
                reports: self.reports.push(
                    ReportedView::Decided {
                        decision,
                        confidence: self.evaluator.confidence(),
                        tokens_evaluated: self.evaluator.count,
                        tokens_saved: self.lookahead.len() + 1,
                    },
                ),
                ..self
            },
            Some(StepView::Cut(decision_frame(self.evaluator, decision))),
        )
    }

    /// What a frame with the given log probabilities does. Without any it is
    /// forwarded. With some, a degenerate signal turns gating off for the rest
    /// of the stream; while it is on, a decision other than to answer cuts the
    /// stream.
    pub open spec fn gate(self, frame: Seq<u8>, logprobs: Seq<Real64>) -> (
        StreamView,
        Option<StepView>,
    ) {
        let next = StreamView { evaluator: self.evaluator.with_all(logprobs), ..self };
        if logprobs.len() == 0 || self.gating_disabled {
            next.forward(frame)
        } else if next.evaluator.degenerate() {
            StreamView {
                gating_disabled: true,
                reports: self.reports.push(ReportedView::Degenerate),
                ..next
            }.forward(frame)
        } else if next.evaluator.decision() == Decision::Answer {
            next.forward(frame)
        } else {
            next.cut(next.evaluator.decision())
        }
    }

    /// What a frame does.
    pub open spec fn process(self, frame: Seq<u8>) -> (StreamView, Option<StepView>) {
        self.gate(frame, frame_logprobs(self.protocol, frame))
    }

    /// The end of the first complete frame that is held.
    pub open spec fn frame_end(self) -> Option<int> {
        boundary(self.partial, separator(self.protocol), 0)
    }

    /// The stream without its first complete frame.
    pub open spec fn after_frame(self, end: int) -> StreamView {
        StreamView { partial: self.partial.skip(end), ..self }
    }

    /// What is held back comes out, one frame at a time, and then the end.
    pub open spec fn drain(self) -> (StreamView, StepView) {
        if self.lookahead.len() > 0 {
            (
                StreamView { lookahead: self.lookahead.drop_first(), ..self },
                StepView::Emit(self.lookahead[0]),
            )
        } else {
            (self, StepView::End)
        }
    }

    /// The next step without news from the upstream: complete frames are
    /// processed until one of them yields something for the client.
    pub open spec fn advance(self) -> (StreamView, StepView)
        decreases self.partial.len(),
    {
        if self.finished {
            self.drain()
        } else {
            match self.frame_end() {
                None => (self, StepView::NeedUpstream),
                Some(end) => if 0 < end <= self.partial.len() {
                    let (next, out) = self.after_frame(end).process(self.partial.take(end));
                    match out {
                        Some(step) => (next, step),
                        None => if next.partial.len() < self.partial.len() {
                            next.advance()
                        } else {
                            (next, StepView::NeedUpstream)
                        },
                    }
                } else {
                    (self, StepView::NeedUpstream)
                },
            }
        }
    }

    /// The upstream sent bytes.
    pub open spec fn accept(self, bytes: Seq<u8>) -> StreamView {
        StreamView { partial: self.partial + bytes, ..self }
    }

    /// What is to be counted when the upstream closes: that log probabilities
    /// were asked for in vain, and that the stream was answered.
    pub open spec fn closing_reports(self) -> Seq<ReportedView> {
        let answered = ReportedView::Decided {
            decision: Decision::Answer,
            confidence: self.evaluator.confidence(),
            tokens_evaluated: self.evaluator.count,
            tokens_saved: 0,
        };
        if self.logprobs_requested && self.evaluator.count == 0 {
            seq![ReportedView::NoLogprobs, answered]
        } else {
            seq![answered]
        }
    }

    /// The upstream closed the stream: bytes after the last complete frame are
    /// held back like a frame, and everything held back comes out.
    pub open spec fn close(self) -> (StreamView, StepView) {
        if self.finished {
            self.drain()
        } else {
            StreamView {
                finished: true,
                lookahead: if self.partial.len() > 0 {
                    self.lookahead.push(self.partial)
                } else {
                    self.lookahead
                },
                partial: Seq::empty(),
                reports: self.reports + self.closing_reports(),
                ..self
            }.drain()
        }
    }

    /// The next step, given what the upstream did. Complete frames that are held
    /// come before the close.
    pub open spec fn poll(self, upstream: UpstreamView) -> (StreamView, StepView) {
        match upstream {
            UpstreamView::Quiet => self.advance(),
            UpstreamView::Chunk(bytes) => self.accept(bytes).advance(),
            UpstreamView::Closed => {
                let (next, step) = self.advance();
                if step == StepView::NeedUpstream {
                    next.close()
                } else {
                    (next, step)
                }
            },
        }
    }
}

/// Does an optional step hold what is expected of it?
pub open spec fn same_step(r: Option<Step>, expected: Option<StepView>) -> bool {
    match r {
        Some(step) => expected == Some(step@),
        None => expected is None,
    }
}

impl<S> InterceptedStream<S> {
    /// Gates an OpenAI-compatible stream of server-sent events. As many frames as
    /// the lookahead says must fit in a memory.
    pub fn new(inner: S, evaluator: ConfidenceEvaluator, lookahead_size: usize) -> (r: Self)
        requires
            lookahead_size < usize::MAX,
        ensures
            r.source() == inner,
            r@ == StreamView::fresh(evaluator@, lookahead_size as nat, Protocol::Sse, false),
            r@.wf(),
    {
        Self::new_with_protocol(inner, evaluator, lookahead_size, Protocol::Sse)
    }

    /// Gates a stream of a given protocol.
    pub fn new_with_protocol(
        inner: S,
        evaluator: ConfidenceEvaluator,
        lookahead_size: usize,
        protocol: Protocol,
    ) -> (r: Self)
        requires
            lookahead_size < usize::MAX,
        ensures
            r.source() == inner,
            r@ == StreamView::fresh(evaluator@, lookahead_size as nat, protocol, false),
            r@.wf(),
    {
        Self::new_with_protocol_and_request(inner, evaluator, lookahead_size, protocol, false)
    }

    /// Gates a stream of a given protocol, whose request asked for log
    /// probabilities or did not.
    pub fn new_with_protocol_and_request(
        inner: S,
        evaluator: ConfidenceEvaluator,
        lookahead_size: usize,
        protocol: Protocol,
        logprobs_requested: bool,
    ) -> (r: Self)
        requires
            lookahead_size < usize::MAX,
        ensures
            r.source() == inner,
            r@ == StreamView::fresh(
                evaluator@,
                lookahead_size as nat,
                protocol,
                logprobs_requested,
            ),
            r@.wf(),
    {
        let r = InterceptedStream {
            inner,
            evaluator,
            lookahead_buffer: VecDeque::new(),
            lookahead_size,
            finished: false,
            protocol,
            partial_frame: Vec::new(),
            logprobs_requested,
            gating_disabled: false,
            reports: Vec::new(),
        };
        proof {
            assert(all_bytes(r.lookahead_buffer@) =~= Seq::<Seq<u8>>::empty());
            assert(all_reported(r.reports@) =~= Seq::<ReportedView>::empty());
        }
        r
    }

    /// Where the upstream's bytes come from.
    pub closed spec fn source(&self) -> S {
        self.inner
    }

    /// Lends the source of the upstream's bytes.
    pub fn source_mut(&mut self) -> (r: &mut S)
        ensures
            *r == old(self).source(),
            final(self).source() == *final(r),
            final(self)@ == old(self)@,
    {
        &mut self.inner
    }

    /// The protocol of the stream.
    pub fn protocol(&self) -> (r: Protocol)
        ensures
            r == self@.protocol,
    {
        self.protocol
    }

    /// Hands out what is to be counted since the last call.
    pub fn take_reports(&mut self) -> (r: Vec<StreamReport>)
        ensures
            all_reported(r@) == old(self)@.reports,
            final(self)@ == (StreamView { reports: Seq::empty(), ..old(self)@ }),
            final(self).source() == old(self).source(),
    {
        let mut r: Vec<StreamReport> = Vec::new();
        std::mem::swap(&mut r, &mut self.reports);
        assert(all_reported(self.reports@) =~= Seq::<ReportedView>::empty());
        r
    }

    fn report(&mut self, report: StreamReport)
        ensures
            final(self)@ == (StreamView { reports: old(self)@.reports.push(report@), ..old(self)@ }),
            final(self).source() == old(self).source(),
    {
        self.reports.push(report);
        assert(all_reported(self.reports@) =~= old(self)@.reports.push(report@));
    }

    /// Pulls one complete frame out of the bytes that are held, if there is one.
    fn take_complete_frame(&mut self) -> (r: Option<Vec<u8>>)
        ensures
            match r {
                Some(frame) => match old(self)@.frame_end() {
                    Some(end) => {
                        &&& 0 < end <= old(self)@.partial.len()
                        &&& frame@ == old(self)@.partial.take(end)
                        &&& final(self)@ == old(self)@.after_frame(end)
                    },
                    None => false,
                },
                None => old(self)@.frame_end() is None && final(self)@ == old(self)@,
            },
            final(self).source() == old(self).source(),
    {
        match find_frame_boundary(self.protocol, self.partial_frame.as_slice()) {
            None => None,
            Some(end) => {
                let rest = self.partial_frame.split_off(end);
                let mut frame = rest;
                std::mem::swap(&mut frame, &mut self.partial_frame);
                assert(self.partial_frame@ =~= old(self)@.partial.skip(end as int));
                assert(frame@ =~= old(self)@.partial.take(end as int));
                Some(frame)
            },
        }
    }

    fn forward(&mut self, chunk: Bytes) -> (r: Option<Step>)
        requires
            old(self)@.wf(),
        ensures
            old(self)@.forward(bytes_of(chunk)).0 == final(self)@,
            same_step(r, old(self)@.forward(bytes_of(chunk)).1),
            final(self)@.wf(),
            final(self).source() == old(self).source(),
    {
        let ghost before = self@.lookahead;
        self.lookahead_buffer.push_back(chunk);
        assert(all_bytes(self.lookahead_buffer@) =~= before.push(bytes_of(chunk)));
        let ghost queue = self.lookahead_buffer@;
        if self.lookahead_buffer.len() > self.lookahead_size {
            if let Some(out) = self.lookahead_buffer.pop_front() {
                assert(all_bytes(self.lookahead_buffer@) =~= all_bytes(queue).drop_first());
                assert(bytes_of(out) == all_bytes(queue)[0]);
                return Some(Step::Emit(out));
            }
        }
        None
    }

    /// The frame that tells of a decision.
    fn generate_decision_frame(&self, decision: Decision) -> (r: RagGateDecisionFrame)
        ensures
            r@ == decision_frame(self@.evaluator, decision),
    {
        let threshold_used = match decision {
            Decision::Abstain => self.evaluator.thresholds().abstain_beta,
            _ => self.evaluator.thresholds().answer_alpha,
        };
        RagGateDecisionFrame {
            rag_gate_decision: decision_label(decision).to_owned(),
            confidence_score: self.evaluator.current_confidence(),
            tokens_evaluated: self.evaluator.count(),
            threshold_used,
        }
    }

    fn cut(&mut self, decision: Decision) -> (r: Option<Step>)
        requires
            old(self)@.wf(),
        ensures
            old(self)@.cut(decision).0 == final(self)@,
            same_step(r, old(self)@.cut(decision).1),
            final(self)@.wf(),
            final(self).source() == old(self).source(),
    {
        let saved: usize = self.lookahead_buffer.len() + 1;
        self.report(
            StreamReport::Decided {
                decision,
                confidence: self.evaluator.current_confidence(),
                tokens_evaluated: self.evaluator.count(),
                tokens_saved: saved,
            },
        );
        self.finished = true;
        self.lookahead_buffer.clear();
        assert(all_bytes(self.lookahead_buffer@) =~= Seq::<Seq<u8>>::empty());
        Some(Step::Cut(self.generate_decision_frame(decision)))
    }

    /// Decides on one complete frame whose log probabilities are known: forward
    /// it, subject to the lookahead, or cut the stream. `None` where there is
    /// nothing for the client yet.
    pub fn gate_frame(&mut self, chunk: Bytes, logprobs: &Vec<Binary64>) -> (r: Option<Step>)
        requires
            old(self)@.wf(),
        ensures
            old(self)@.gate(bytes_of(chunk), numbers(logprobs@)).0 == final(self)@,
            same_step(r, old(self)@.gate(bytes_of(chunk), numbers(logprobs@)).1),
            final(self)@.wf(),
            final(self).source() == old(self).source(),
    {
        feed(&mut self.evaluator, logprobs);
        assert(numbers(logprobs@).len() == logprobs@.len());
        if logprobs.len() == 0 || self.gating_disabled {
            return self.forward(chunk);
        }
        if self.evaluator.is_degenerate() {
            self.gating_disabled = true;
            self.report(StreamReport::Degenerate);
            return self.forward(chunk);
        }
        match self.evaluator.evaluate() {
            Decision::Answer => self.forward(chunk),
            Decision::Abstain => self.cut(Decision::Abstain),
            Decision::Escalate => self.cut(Decision::Escalate),
        }
    }

    /// Processes one complete frame: takes its log probabilities in, and forwards
    /// it or cuts the stream.
    pub fn process_frame(&mut self, chunk: Bytes) -> (r: Option<Step>)
        requires
            old(self)@.wf(),
        ensures
            old(self)@.process(bytes_of(chunk)).0 == final(self)@,
            same_step(r, old(self)@.process(bytes_of(chunk)).1),
            final(self)@.wf(),
            final(self).source() == old(self).source(),
    {
        let text = text_of(contents(&chunk));
        let logprobs = extract_logprobs(self.protocol, text.as_str());
        self.gate_frame(chunk, &logprobs)
    }

    fn drain(&mut self) -> (r: Step)
        ensures
            old(self)@.drain() == (final(self)@, r@),
            old(self)@.lookahead_size == final(self)@.lookahead_size,
            final(self).source() == old(self).source(),
    {
        let ghost queue = self.lookahead_buffer@;
        match self.lookahead_buffer.pop_front() {
            Some(chunk) => {
                assert(all_bytes(self.lookahead_buffer@) =~= all_bytes(queue).drop_first());
                assert(bytes_of(chunk) == all_bytes(queue)[0]);
                Step::Emit(chunk)
            },
            None => {
                assert(all_bytes(queue).len() == 0);
                Step::End
            },
        }
    }

    fn advance(&mut self) -> (r: Step)
        requires
            old(self)@.wf(),
        ensures
            old(self)@.advance() == (final(self)@, r@),
            final(self)@.wf(),
            final(self).source() == old(self).source(),
    {
        loop
            invariant
                self@.wf(),
                old(self)@.advance() == self@.advance(),
                self.source() == old(self).source(),
            decreases self@.partial.len(),
        {
            if self.finished {
                return self.drain();
            }
            let ghost before = self@;
            match self.take_complete_frame() {
                None => {
                    return Step::NeedUpstream;
                },
                Some(frame) => {
                    let chunk = chunk_from(frame);
                    let out = self.process_frame(chunk);
                    proof {
                        lemma_process_keeps(before.after_frame(before.frame_end().unwrap()), frame@);
                    }
                    if let Some(step) = out {
                        return step;
                    }
                },
            }
        }
    }

    /// The next step, given what the upstream did. The upstream is asked again
    /// where the step says so, and only then; an error of it changes nothing here
    /// and goes to the client as it is.
    pub fn poll_next(&mut self, upstream: Upstream) -> (r: Step)
        requires
            old(self)@.wf(),
        ensures
            old(self)@.poll(upstream@) == (final(self)@, r@),
            final(self)@.wf(),
            final(self).source() == old(self).source(),
    {
        match upstream {
            Upstream::Quiet => self.advance(),
            Upstream::Chunk(chunk) => {
                self.partial_frame.extend_from_slice(contents(&chunk));
                assert(self.partial_frame@ =~= old(self)@.partial + bytes_of(chunk));
                self.advance()
            },
            Upstream::Closed => match self.advance() {
                Step::NeedUpstream => self.close(),
                step => step,
            },
        }
    }

    fn close(&mut self) -> (r: Step)
        requires
            old(self)@.wf(),
        ensures
            old(self)@.close() == (final(self)@, r@),
            final(self)@.wf(),
            final(self).source() == old(self).source(),
    {
        if self.finished {
            return self.drain();
        }
        let ghost start = self@;
        if self.partial_frame.len() > 0 {
            let mut leftover: Vec<u8> = Vec::new();
            std::mem::swap(&mut leftover, &mut self.partial_frame);
            self.lookahead_buffer.push_back(chunk_from(leftover));
            assert(all_bytes(self.lookahead_buffer@) =~= start.lookahead.push(start.partial));
        }
        assert(self.partial_frame@ =~= Seq::<u8>::empty());
        if self.logprobs_requested && self.evaluator.count() == 0 {
            self.report(StreamReport::NoLogprobs);
        }
        self.report(
            StreamReport::Decided {
                decision: Decision::Answer,
                confidence: self.evaluator.current_confidence(),
                tokens_evaluated: self.evaluator.count(),
                tokens_saved: 0,
            },
        );
        self.finished = true;
        assert(self@.reports =~= start.reports + start.closing_reports());
        self.drain()
    }
}

/// Processing a frame does not touch the bytes that are held.
proof fn lemma_process_keeps(s: StreamView, frame: Seq<u8>)
    ensures
        s.process(frame).0.partial == s.partial,
{
}

} // verus!
