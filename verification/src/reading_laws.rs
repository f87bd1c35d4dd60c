//! What is read out of a frame, and what a client is told: laws over documents,
//! texts and the fields of a frame.

use crate::binary64::Binary64;
use crate::decimal::decimal;
use crate::evaluator::{Decision, EvaluatorView};
use crate::interceptor::{
    all_bytes, all_reported, decision_frame, decision_name, document_logprobs, frame_json,
    frame_logprobs, framed, listed, numbers, same_step, separator, text_logprobs,
    DecisionFrameView, Protocol, RagGateDecisionFrame, ReportedView, Step, StepView, StreamReport, StreamView, Upstream,
    UpstreamView,
};
use crate::json::{parsed_text, quoted, unescaped, Json};
use crate::rounding::Real64;
use crate::text::{begins_with, trimmed};
use crate::wire::{bytes_of, lossy_text};
use bytes::Bytes;
use vstd::prelude::*;

verus! {

// ---------------------------------------------------------------------------
// Documents
// ---------------------------------------------------------------------------

/// The number that an item has under a name, if it has one.
pub open spec fn number_in(item: Json, key: Seq<char>) -> Option<Real64> {
    match item.member(key) {
        Some(found) => found.number(),
        None => None,
    }
}

/// The numbers that the items of a list have under a name, in order.
pub open spec fn numbers_in(items: Seq<Json>, key: Seq<char>) -> Seq<Real64> {
    items.filter_map(|item: Json| number_in(item, key))
}

proof fn lemma_listed(items: Seq<Json>, key: Seq<char>)
    ensures
        listed(items, key) == numbers_in(items, key),
    decreases items.len(),
{
    if items.len() > 0 {
        lemma_listed(items.drop_last(), key);
        match number_in(items.last(), key) {
            Some(x) => {
                let rest = listed(items.drop_last(), key);
                assert(rest + seq![x] =~= rest.push(x));
            },
            None => {},
        }
    }
}

proof fn lemma_every_item(items: Seq<Json>, key: Seq<char>)
    requires
        forall|i: int| 0 <= i < items.len() ==> number_in(#[trigger] items[i], key) is Some,
    ensures
        numbers_in(items, key).len() == items.len(),
        forall|i: int|
            0 <= i < items.len() ==> number_in(#[trigger] items[i], key) == Some(
                numbers_in(items, key)[i],
            ),
    decreases items.len(),
{
    if items.len() > 0 {
        let rest = items.drop_last();
        assert forall|i: int| 0 <= i < rest.len() implies number_in(
            #[trigger] rest[i],
            key,
        ) is Some by {
            assert(rest[i] == items[i]);
        }
        lemma_every_item(rest, key);
        assert(items.last() == items[items.len() - 1]);
        let all = numbers_in(items, key);
        assert forall|i: int| 0 <= i < items.len() implies number_in(#[trigger] items[i], key)
            == Some(all[i]) by {
            if i < rest.len() {
                assert(rest[i] == items[i]);
            }
        }
    }
}

/// Where a document has a list of tokens at `choices[0].logprobs.content`, the log
/// probabilities read from it are the numbers that these tokens have as `logprob`,
/// in order, whatever else the document, the choice or a token holds; and where
/// every token has one there are as many, each that of its token.
pub proof fn law_openai_tokens_are_read(
    tree: Json,
    choices: Seq<Json>,
    logprobs: Json,
    tokens: Seq<Json>,
)
    requires
        tree.member("choices"@) == Some(Json::Array(choices)),
        choices.len() > 0,
        choices[0].member("logprobs"@) == Some(logprobs),
        logprobs.member("content"@) == Some(Json::Array(tokens)),
    ensures
        ({
            let read = document_logprobs(Protocol::Sse, tree);
            &&& read == numbers_in(tokens, "logprob"@)
            &&& read.len() > 0 ==> document_logprobs(Protocol::Ndjson, tree) == read
            &&& (forall|i: int|
                0 <= i < tokens.len() ==> number_in(#[trigger] tokens[i], "logprob"@) is Some)
                ==> {
                &&& read.len() == tokens.len()
                &&& forall|i: int|
                    0 <= i < tokens.len() ==> number_in(#[trigger] tokens[i], "logprob"@) == Some(
                        read[i],
                    )
            }
        }),
{
    lemma_listed(tokens, "logprob"@);
    if forall|i: int|
        0 <= i < tokens.len() ==> number_in(#[trigger] tokens[i], "logprob"@) is Some {
        lemma_every_item(tokens, "logprob"@);
    }
}

/// Log probabilities are read from an OpenAI document only where it has that list.
pub proof fn law_openai_needs_the_list(tree: Json)
    requires
        document_logprobs(Protocol::Sse, tree).len() > 0,
    ensures
        exists|choices: Seq<Json>, logprobs: Json, tokens: Seq<Json>|
            {
                &&& #[trigger] tree.member("choices"@) == Some(Json::Array(choices))
                &&& choices.len() > 0
                &&& choices[0].member("logprobs"@) == Some(logprobs)
                &&& #[trigger] logprobs.member("content"@) == Some(Json::Array(tokens))
                &&& #[trigger] numbers_in(tokens, "logprob"@).len() > 0
                &&& #[trigger] choices.len() > 0
            },
{
    let choices = tree.member("choices"@)->0->Array_0;
    let logprobs = choices[0].member("logprobs"@)->0;
    let tokens = logprobs.member("content"@)->0->Array_0;
    lemma_listed(tokens, "logprob"@);
    assert(tree.member("choices"@) == Some(Json::Array(choices)));
    assert(choices.len() > 0);
    assert(logprobs.member("content"@) == Some(Json::Array(tokens)));
    assert(numbers_in(tokens, "logprob"@).len() > 0);
}

/// The same of a Gemini document and its list at
/// `candidates[0].logprobsResult.chosenCandidates`, under `logProbability`.
pub proof fn law_gemini_tokens_are_read(
    tree: Json,
    candidates: Seq<Json>,
    result: Json,
    tokens: Seq<Json>,
)
    requires
        tree.member("candidates"@) == Some(Json::Array(candidates)),
        candidates.len() > 0,
        candidates[0].member("logprobsResult"@) == Some(result),
        result.member("chosenCandidates"@) == Some(Json::Array(tokens)),
    ensures
        ({
            let read = document_logprobs(Protocol::Gemini, tree);
            &&& read == numbers_in(tokens, "logProbability"@)
            &&& (forall|i: int|
                0 <= i < tokens.len() ==> number_in(#[trigger] tokens[i], "logProbability"@)
                    is Some) ==> {
                &&& read.len() == tokens.len()
                &&& forall|i: int|
                    0 <= i < tokens.len() ==> number_in(#[trigger] tokens[i], "logProbability"@)
                        == Some(read[i])
            }
        }),
{
    lemma_listed(tokens, "logProbability"@);
    if forall|i: int|
        0 <= i < tokens.len() ==> number_in(#[trigger] tokens[i], "logProbability"@) is Some {
        lemma_every_item(tokens, "logProbability"@);
    }
}

/// Log probabilities are read from a Gemini document only where it has that list.
pub proof fn law_gemini_needs_the_list(tree: Json)
    requires
        document_logprobs(Protocol::Gemini, tree).len() > 0,
    ensures
        tree.member("candidates"@) matches Some(list) && (list matches Json::Array(candidates)
            && candidates.len() > 0 && (candidates[0].member("logprobsResult"@) matches Some(result)
            && (result.member("chosenCandidates"@) matches Some(tokens) && tokens is Array))),
{
}

/// A line of Ollama's whose nested list holds no log probability is read at the
/// top: the numbers of the tokens at `logprobs.content`, in order.
pub proof fn law_ndjson_tokens_are_read_at_the_top(
    tree: Json,
    logprobs: Json,
    tokens: Seq<Json>,
)
    requires
        document_logprobs(Protocol::Sse, tree).len() == 0,
        tree.member("logprobs"@) == Some(logprobs),
        logprobs.member("content"@) == Some(Json::Array(tokens)),
    ensures
        document_logprobs(Protocol::Ndjson, tree) == numbers_in(tokens, "logprob"@),
{
    lemma_listed(tokens, "logprob"@);
}

/// Without a list in either place nothing is read from a line of Ollama's.
pub proof fn law_ndjson_needs_a_list(tree: Json)
    requires
        document_logprobs(Protocol::Sse, tree).len() == 0,
        !(tree.member("logprobs"@) matches Some(logprobs) && (logprobs.member("content"@)
            matches Some(list) && list is Array)),
    ensures
        document_logprobs(Protocol::Ndjson, tree).len() == 0,
{
}

/// Two documents that agree on their lists of tokens give the same log
/// probabilities.
pub proof fn law_only_the_tokens_matter(
    a: Json,
    b: Json,
    first: Seq<Json>,
    second: Seq<Json>,
    p: Json,
    q: Json,
    tokens: Seq<Json>,
)
    requires
        a.member("choices"@) == Some(Json::Array(first)),
        b.member("choices"@) == Some(Json::Array(second)),
        first.len() > 0,
        second.len() > 0,
        first[0].member("logprobs"@) == Some(p),
        second[0].member("logprobs"@) == Some(q),
        p.member("content"@) == Some(Json::Array(tokens)),
        q.member("content"@) == Some(Json::Array(tokens)),
    ensures
        document_logprobs(Protocol::Sse, a) == document_logprobs(Protocol::Sse, b),
{
    law_openai_tokens_are_read(a, first, p, tokens);
    law_openai_tokens_are_read(b, second, q, tokens);
}

// ---------------------------------------------------------------------------
// Texts and frames
// ---------------------------------------------------------------------------

/// An event that holds a document is read as that document, however long it is:
/// the text behind `data: `, unless the event is the one that says the stream is
/// done.
pub proof fn law_event_is_read(protocol: Protocol, frame: Seq<u8>, json: Seq<char>, tree: Json)
    requires
        protocol != Protocol::Ndjson,
        lossy_text(frame) == "data: "@ + json,
        trimmed(lossy_text(frame)) != "data: [DONE]"@,
        parsed_text(json) == Ok::<Json, Seq<char>>(tree),
    ensures
        frame_logprobs(protocol, frame) == document_logprobs(protocol, tree),
        text_logprobs(protocol, lossy_text(frame)) == document_logprobs(protocol, tree),
{
    reveal_strlit("data: ");
    let text = lossy_text(frame);
    assert(text.take(6) =~= "data: "@);
    assert(text.skip(6) =~= json);
}

/// An event of any other kind holds no log probability: one that does not begin
/// with `data: `, the last one, or one whose text is no document.
pub proof fn law_other_events_are_not_read(protocol: Protocol, frame: Seq<u8>)
    requires
        protocol != Protocol::Ndjson,
        !(exists|json: Seq<char>| lossy_text(frame) == #[trigger] ("data: "@ + json)) || trimmed(
            lossy_text(frame),
        ) == "data: [DONE]"@ || parsed_text(lossy_text(frame).skip(6)) is Err,
    ensures
        frame_logprobs(protocol, frame).len() == 0,
        text_logprobs(protocol, lossy_text(frame)).len() == 0,
{
    let text = lossy_text(frame);
    if begins_with(text, "data: "@) {
        assert(text =~= "data: "@ + text.skip("data: "@.len() as int));
    }
}

/// A line that holds a document, with white space round it or not, is read as that
/// document; any other holds no log probability.
pub proof fn law_line_is_read(frame: Seq<u8>)
    ensures
        parsed_text(trimmed(lossy_text(frame))) matches Ok(tree) ==> frame_logprobs(
            Protocol::Ndjson,
            frame,
        ) == document_logprobs(Protocol::Ndjson, tree),
        parsed_text(trimmed(lossy_text(frame))) is Err ==> frame_logprobs(
            Protocol::Ndjson,
            frame,
        ).len() == 0,
        text_logprobs(Protocol::Ndjson, lossy_text(frame)) == frame_logprobs(
            Protocol::Ndjson,
            frame,
        ),
{
}

/// A blank line ends an event, and the end of a line a line.
pub proof fn law_separators()
    ensures
        separator(Protocol::Sse) == seq![10u8, 10u8],
        separator(Protocol::Gemini) == seq![10u8, 10u8],
        separator(Protocol::Ndjson) == seq![10u8],
{
}

// ---------------------------------------------------------------------------
// Decision frames
// ---------------------------------------------------------------------------

/// What a frame says of a decision, for any number of tokens: its name; the
/// confidence and the number of tokens; and beta where it is to abstain, alpha
/// otherwise.
pub proof fn law_frame_tells_the_decision(e: EvaluatorView, decision: Decision)
    ensures
        ({
            let f = decision_frame(e, decision);
            &&& f.confidence_score == e.confidence()
            &&& f.tokens_evaluated == e.count
            &&& decision == Decision::Abstain ==> f.rag_gate_decision == "ABSTAIN"@
                && f.threshold_used == e.thresholds.abstain_beta
            &&& decision == Decision::Escalate ==> f.rag_gate_decision == "ESCALATE"@
                && f.threshold_used == e.thresholds.answer_alpha
            &&& decision == Decision::Answer ==> f.rag_gate_decision == "ANSWER"@
                && f.threshold_used == e.thresholds.answer_alpha
            &&& f.rag_gate_decision == decision_name(decision)
        }),
{
}

/// What a client is told when a frame cuts its stream: to abstain, and beta, where
/// the mean is below beta; to escalate, and alpha, where it lies from beta up to
/// alpha, or is no number; with the mean and the number of all tokens so far.
pub proof fn law_cut_tells_the_truth(s: StreamView, frame: Seq<u8>, logprobs: Seq<Real64>)
    requires
        !s.finished,
        s.gate(frame, logprobs).0.finished,
    ensures
        ({
            let e = s.evaluator.with_all(logprobs);
            let mean = e.confidence();
            let alpha = e.thresholds.answer_alpha;
            let beta = e.thresholds.abstain_beta;
            s.gate(frame, logprobs).1 matches Some(StepView::Cut(f)) && {
                &&& f.confidence_score == mean
                &&& f.tokens_evaluated == e.count
                &&& !alpha.le(mean)
                &&& mean.lt(beta) ==> f.rag_gate_decision == "ABSTAIN"@ && f.threshold_used == beta
                &&& !mean.lt(beta) ==> f.rag_gate_decision == "ESCALATE"@ && f.threshold_used
                    == alpha
            }
        }),
{
}

/// A decision frame as JSON: the four members in order, each with its own value.
pub proof fn law_decision_json(
    e: EvaluatorView,
    decision: Decision,
    score: Seq<char>,
    threshold: Seq<char>,
)
    ensures
        ({
            let text = frame_json(decision_frame(e, decision), score, threshold);
            let rest = ",\"confidence_score\":"@ + score + ",\"tokens_evaluated\":"@ + decimal(
                e.count,
            ) + ",\"threshold_used\":"@ + threshold + "}"@;
            &&& decision == Decision::Abstain ==> text == "{\"rag_gate_decision\":\"ABSTAIN\""@
                + rest
            &&& decision == Decision::Escalate ==> text == "{\"rag_gate_decision\":\"ESCALATE\""@
                + rest
            &&& decision == Decision::Answer ==> text == "{\"rag_gate_decision\":\"ANSWER\""@
                + rest
        }),
{
    reveal_strlit("{\"rag_gate_decision\":");
    reveal_strlit("\"");
    reveal_strlit("ABSTAIN");
    reveal_strlit("ESCALATE");
    reveal_strlit("ANSWER");
    reveal_strlit("{\"rag_gate_decision\":\"ABSTAIN\"");
    reveal_strlit("{\"rag_gate_decision\":\"ESCALATE\"");
    reveal_strlit("{\"rag_gate_decision\":\"ANSWER\"");
    let name = decision_name(decision);
    assert(unescaped(name));
    let head = "{\"rag_gate_decision\":"@ + quoted(name);
    assert(decision == Decision::Abstain ==> head =~= "{\"rag_gate_decision\":\"ABSTAIN\""@);
    assert(decision == Decision::Escalate ==> head =~= "{\"rag_gate_decision\":\"ESCALATE\""@);
    assert(decision == Decision::Answer ==> head =~= "{\"rag_gate_decision\":\"ANSWER\""@);
    let text = frame_json(decision_frame(e, decision), score, threshold);
    let rest = ",\"confidence_score\":"@ + score + ",\"tokens_evaluated\":"@ + decimal(e.count)
        + ",\"threshold_used\":"@ + threshold + "}"@;
    assert(text =~= head + rest);
}

/// The label of any frame stands in quotation marks as it is, where nothing in it has
/// to be escaped, and behind it the texts of the numbers and the number of tokens.
pub proof fn law_any_frame_json(f: DecisionFrameView, score: Seq<char>, threshold: Seq<char>)
    requires
        forall|i: int|
            0 <= i < f.rag_gate_decision.len() ==> ' ' <= #[trigger] f.rag_gate_decision[i]
                && f.rag_gate_decision[i] != '"' && f.rag_gate_decision[i] != '\\',
    ensures
        frame_json(f, score, threshold) == "{\"rag_gate_decision\":\""@ + f.rag_gate_decision
            + "\",\"confidence_score\":"@ + score + ",\"tokens_evaluated\":"@ + decimal(
            f.tokens_evaluated,
        ) + ",\"threshold_used\":"@ + threshold + "}"@,
{
    reveal_strlit("{\"rag_gate_decision\":");
    reveal_strlit("{\"rag_gate_decision\":\"");
    reveal_strlit("\"");
    reveal_strlit(",\"confidence_score\":");
    reveal_strlit("\",\"confidence_score\":");
    let label = f.rag_gate_decision;
    assert(unescaped(label));
    assert("{\"rag_gate_decision\":"@ + quoted(label) + ",\"confidence_score\":"@
        =~= "{\"rag_gate_decision\":\""@ + label + "\",\"confidence_score\":"@);
}

/// A document is one event behind `data: `, or one line of Ollama's.
pub proof fn law_framed(json: Seq<char>)
    ensures
        framed(Protocol::Sse, json) == "data: "@ + json + "\n\n"@,
        framed(Protocol::Gemini, json) == "data: "@ + json + "\n\n"@,
        framed(Protocol::Ndjson, json) == json + "\n"@,
{
}

// ---------------------------------------------------------------------------
// Views
// ---------------------------------------------------------------------------

/// The views of what goes in and out show every part as it is.
pub proof fn law_parts_are_seen(
    frame: RagGateDecisionFrame,
    report: StreamReport,
    bytes: Bytes,
)
    ensures
        frame@.rag_gate_decision == frame.rag_gate_decision@,
        frame@.confidence_score == frame.confidence_score@,
        frame@.tokens_evaluated == frame.tokens_evaluated,
        frame@.threshold_used == frame.threshold_used@,
        report is Degenerate <==> report@ is Degenerate,
        report is NoLogprobs <==> report@ is NoLogprobs,
        report matches StreamReport::Decided {
            decision,
            confidence,
            tokens_evaluated,
            tokens_saved,
        } ==> report@ == (ReportedView::Decided {
            decision,
            confidence: confidence@,
            tokens_evaluated: tokens_evaluated as nat,
            tokens_saved: tokens_saved as nat,
        }),
        Step::Emit(bytes)@ == StepView::Emit(bytes_of(bytes)),
        Step::Cut(frame)@ == StepView::Cut(frame@),
        Step::NeedUpstream@ == StepView::NeedUpstream,
        Step::End@ == StepView::End,
        Upstream::Quiet@ == UpstreamView::Quiet,
        Upstream::Chunk(bytes)@ == UpstreamView::Chunk(bytes_of(bytes)),
        Upstream::Closed@ == UpstreamView::Closed,
{
}

/// The views of lists show every item in its place.
pub proof fn law_lists_are_seen(
    values: Seq<Binary64>,
    chunks: Seq<Bytes>,
    reports: Seq<StreamReport>,
)
    ensures
        numbers(values).len() == values.len(),
        forall|i: int| 0 <= i < values.len() ==> #[trigger] numbers(values)[i] == values[i]@,
        all_bytes(chunks).len() == chunks.len(),
        forall|i: int| 0 <= i < chunks.len() ==> #[trigger] all_bytes(chunks)[i] == bytes_of(chunks[i]),
        all_reported(reports).len() == reports.len(),
        forall|i: int| 0 <= i < reports.len() ==> #[trigger] all_reported(reports)[i] == reports[i]@,
{
}

/// A step that may be missing is there where one is expected, and is that one.
pub proof fn law_same_step(r: Option<Step>, expected: Option<StepView>)
    ensures
        same_step(r, expected) <==> {
            &&& r is Some <==> expected is Some
            &&& r is Some ==> r->0@ == expected->0
        },
{
}

} // verus!
