use bytes::Bytes;
use rag_gate::binary64::Binary64;
use rag_gate::interceptor::{
    decision_label, extract_logprobs, find_frame_boundary, read_logprobs, RagGateDecisionFrame,
    Step, StreamReport, Upstream,
};
use rag_gate::{ConfidenceEvaluator, Decision, GatingThresholds, InterceptedStream, Protocol};

fn b(x: f64) -> Binary64 {
    Binary64::from_bits(x.to_bits())
}

fn f(x: Binary64) -> f64 {
    f64::from_bits(x.to_bits())
}

fn number(x: Binary64) -> String {
    serde_json::to_string(&f(x)).unwrap()
}

fn thresholds() -> GatingThresholds {
    GatingThresholds {
        answer_alpha: b(-0.5),
        abstain_beta: b(-1.2),
        min_tokens: 1, // disable warmup floor so cut-behavior tests fire immediately
        degenerate_guard: true,
    }
}

fn sse_chunk(logprob: f64) -> Bytes {
    let json = format!(
        r#"{{"choices":[{{"logprobs":{{"content":[{{"logprob":{}}}]}}}}]}}"#,
        logprob
    );
    Bytes::from(format!("data: {}\n\n", json))
}

/// Runs a stream over chunks that the upstream sends before it closes.
fn drive(stream: &mut InterceptedStream<()>, chunks: Vec<Bytes>) -> Vec<Bytes> {
    let protocol = stream.protocol();
    let mut source = chunks.into_iter();
    let mut output = Vec::new();
    let mut news = Upstream::Quiet;
    loop {
        match stream.poll_next(news) {
            Step::Emit(chunk) => {
                output.push(chunk);
                news = Upstream::Quiet;
            }
            Step::Cut(frame) => {
                let score = number(frame.confidence_score);
                let threshold = number(frame.threshold_used);
                output.push(frame.to_wire(protocol, &score, &threshold));
                news = Upstream::Quiet;
            }
            Step::NeedUpstream => {
                news = match source.next() {
                    Some(chunk) => Upstream::Chunk(chunk),
                    None => Upstream::Closed,
                };
            }
            Step::End => return output,
        }
    }
}

fn run(chunks: Vec<Bytes>) -> Vec<Bytes> {
    let evaluator = ConfidenceEvaluator::new(thresholds());
    drive(&mut InterceptedStream::new((), evaluator, 4), chunks)
}

/// One Ollama `/api/chat` NDJSON line: bare JSON, no `data:` prefix, no
/// logprobs field, terminated by a single `\n`.
fn ndjson_chunk(content: &str, done: bool) -> Bytes {
    let json = format!(
        r#"{{"model":"llama3.2","message":{{"role":"assistant","content":"{}"}},"done":{}}}"#,
        content, done
    );
    Bytes::from(format!("{}\n", json))
}

fn run_ndjson(chunks: Vec<Bytes>) -> Vec<Bytes> {
    let evaluator = ConfidenceEvaluator::new(thresholds());
    drive(
        &mut InterceptedStream::new_with_protocol((), evaluator, 4, Protocol::Ndjson),
        chunks,
    )
}

/// One frame of Gemini's native endpoints, with or without a log probability.
fn gemini_chunk(logprob: Option<f64>) -> Bytes {
    let lp = match logprob {
        Some(v) => format!(
            r#","logprobsResult":{{"chosenCandidates":[{{"token":"a","logProbability":{}}}]}}"#,
            v
        ),
        None => String::new(),
    };
    let json = format!(
        r#"{{"candidates":[{{"content":{{"parts":[{{"text":"a"}}]}}{}}}]}}"#,
        lp
    );
    Bytes::from(format!("data: {}\n\n", json))
}

fn gemini_stream() -> InterceptedStream<()> {
    let evaluator = ConfidenceEvaluator::new(thresholds());
    InterceptedStream::new_with_protocol((), evaluator, 4, Protocol::Gemini)
}

fn run_gemini(chunks: Vec<Bytes>) -> Vec<Bytes> {
    drive(&mut gemini_stream(), chunks)
}

fn degenerate_count(reports: &[StreamReport]) -> usize {
    reports.iter().filter(|r| matches!(r, StreamReport::Degenerate)).count()
}

fn no_logprobs_count(reports: &[StreamReport]) -> usize {
    reports.iter().filter(|r| matches!(r, StreamReport::NoLogprobs)).count()
}

#[test]
fn ndjson_without_logprobs_passes_through_ungated() {
    // Ollama emits no logprobs, so gating must no-op and forward every frame
    // verbatim rather than cut the stream on a phantom zero-confidence.
    let chunks = vec![
        ndjson_chunk("The", false),
        ndjson_chunk(" capital", false),
        ndjson_chunk(" is Paris.", false),
        ndjson_chunk("", true),
    ];
    let expected = chunks.len();
    let output = run_ndjson(chunks);
    assert_eq!(output.len(), expected);
    // No decision frame should be injected when ungated.
    for frame in &output {
        let text = String::from_utf8_lossy(frame);
        assert!(!text.contains("rag_gate_decision"));
    }
}

#[test]
fn ndjson_line_split_across_chunks_is_reassembled() {
    // A TCP fragment lands mid-line; the `\n`-delimited frame must be
    // reassembled and forwarded as one intact line, not broken JSON.
    let whole = ndjson_chunk("hello", false);
    let bytes = whole.to_vec();
    let x = bytes[..8].to_vec();
    let y = bytes[8..20].to_vec();
    let z = bytes[20..].to_vec();

    let output = run_ndjson(vec![Bytes::from(x), Bytes::from(y), Bytes::from(z)]);

    assert_eq!(output.len(), 1);
    let text = String::from_utf8_lossy(&output[0]);
    assert!(text.contains(r#""content":"hello""#));
    assert!(text.ends_with('\n'));
}

#[test]
fn high_confidence_stream_passes_through_all_chunks() {
    let chunks = vec![
        sse_chunk(-0.1),
        sse_chunk(-0.2),
        sse_chunk(-0.1),
        sse_chunk(-0.15),
        sse_chunk(-0.1),
        Bytes::from_static(b"data: [DONE]\n\n"),
    ];
    let expected_len = chunks.len();

    let output = run(chunks);

    // All chunks should flow through since confidence stays above alpha.
    assert_eq!(output.len(), expected_len);
}

#[test]
fn low_confidence_stream_cuts_and_emits_decision_frame() {
    let chunks = vec![sse_chunk(-2.0), sse_chunk(-2.5), sse_chunk(-3.0)];

    let output = run(chunks);

    // Stream should be cut short with a decision frame, not all 3 chunks passed through.
    assert!(!output.is_empty());
    let last = output.last().unwrap();
    let text = String::from_utf8_lossy(last);
    assert!(text.contains("ABSTAIN") || text.contains("ESCALATE"));
}

#[test]
fn sse_event_split_across_chunks_is_reassembled() {
    // A fragment boundary lands mid-JSON: one complete event, split into three
    // raw pieces that don't align with the event boundary at all.
    let whole = sse_chunk(-0.1);
    let bytes = whole.to_vec();
    let split_a = bytes[..10].to_vec();
    let split_b = bytes[10..20].to_vec();
    let split_c = bytes[20..].to_vec();

    let chunks = vec![
        Bytes::from(split_a),
        Bytes::from(split_b),
        Bytes::from(split_c),
        Bytes::from_static(b"data: [DONE]\n\n"),
    ];

    let output = run(chunks);

    // Exactly one forwarded event plus [DONE].
    assert_eq!(output.len(), 2);
    let first = String::from_utf8_lossy(&output[0]);
    assert!(first.contains("\"logprob\":-0.1"));
}

#[test]
fn stream_ending_without_trailing_blank_line_flushes_leftover() {
    // Upstream closes the connection right after the JSON body, without the
    // usual trailing "\n\n": the leftover bytes must still be flushed.
    let whole = sse_chunk(-0.1);
    let mut bytes = whole.to_vec();
    bytes.truncate(bytes.len() - 2);

    let chunks = vec![Bytes::from(bytes)];

    let output = run(chunks);

    assert_eq!(output.len(), 1);
    let text = String::from_utf8_lossy(&output[0]);
    assert!(text.contains("\"logprob\":-0.1"));
}

#[test]
fn degenerate_greedy_stream_disables_gating_and_counts_metric() {
    // Every logprob about 0 is the temperature-0 artifact. Gating must notice
    // it, count it, and pass the whole stream through.
    let chunks: Vec<Bytes> = (0..30).map(|_| sse_chunk(-0.0001)).collect();
    let mut stream = InterceptedStream::new((), ConfidenceEvaluator::new(thresholds()), 4);
    let output = drive(&mut stream, chunks);

    assert_eq!(degenerate_count(&stream.take_reports()), 1);
    assert_eq!(output.len(), 30); // no cut, no injected decision frame
    for frame in &output {
        let text = String::from_utf8_lossy(frame);
        assert!(!text.contains("rag_gate_decision"));
    }
}

#[test]
fn gemini_frames_without_logprobs_pass_through_ungated() {
    let chunks: Vec<Bytes> = (0..5).map(|_| gemini_chunk(None)).collect();
    let expected = chunks.len();
    let output = run_gemini(chunks);
    assert_eq!(output.len(), expected);
    for frame in &output {
        let text = String::from_utf8_lossy(frame);
        assert!(!text.contains("rag_gate_decision"));
    }
}

#[test]
fn gemini_low_confidence_stream_cuts_and_emits_decision_frame() {
    let chunks = vec![
        gemini_chunk(Some(-2.0)),
        gemini_chunk(Some(-2.5)),
        gemini_chunk(Some(-3.0)),
    ];
    let output = run_gemini(chunks);
    assert!(!output.is_empty());
    let last = String::from_utf8_lossy(output.last().unwrap());
    assert!(last.contains("ABSTAIN") || last.contains("ESCALATE"));
    assert!(last.starts_with("data: ")); // SSE-wrapped, like the protocol's framing
}

#[test]
fn gemini_degenerate_stream_disables_gating_and_counts_metric() {
    // The guard is provider-agnostic.
    let chunks: Vec<Bytes> = (0..30).map(|_| gemini_chunk(Some(-0.0001))).collect();
    let mut stream = gemini_stream();
    let output = drive(&mut stream, chunks);

    assert_eq!(degenerate_count(&stream.take_reports()), 1);
    assert_eq!(output.len(), 30);
    for frame in &output {
        let text = String::from_utf8_lossy(frame);
        assert!(!text.contains("rag_gate_decision"));
    }
}

/// A frame that carries real content but no logprobs field at all.
fn sse_chunk_no_logprobs() -> Bytes {
    Bytes::from(r#"data: {"choices":[{"delta":{"content":"hi"}}]}"#.to_string() + "\n\n")
}

#[test]
fn stream_with_zero_logprobs_despite_request_warns_and_counts_metric() {
    let chunks: Vec<Bytes> = (0..5).map(|_| sse_chunk_no_logprobs()).collect();
    let evaluator = ConfidenceEvaluator::new(thresholds());
    let mut stream = InterceptedStream::new_with_protocol_and_request(
        (),
        evaluator,
        4,
        Protocol::Sse,
        true, // logprobs_requested
    );
    let output = drive(&mut stream, chunks);

    assert_eq!(no_logprobs_count(&stream.take_reports()), 1);
    // Every frame still passes through: there is no confidence signal to act on.
    assert_eq!(output.len(), 5);
}

#[test]
fn stream_with_zero_logprobs_when_not_requested_does_not_warn() {
    let chunks: Vec<Bytes> = (0..5).map(|_| sse_chunk_no_logprobs()).collect();
    let evaluator = ConfidenceEvaluator::new(thresholds());
    let mut stream = InterceptedStream::new_with_protocol_and_request(
        (),
        evaluator,
        4,
        Protocol::Sse,
        false, // logprobs_requested, e.g. inject_logprobs = false
    );
    let output = drive(&mut stream, chunks);

    assert_eq!(no_logprobs_count(&stream.take_reports()), 0);
    assert_eq!(output.len(), 5);
}

#[test]
fn decision_frame_on_the_wire() {
    let output = run(vec![sse_chunk(-2.0)]);
    assert_eq!(output.len(), 1);
    assert_eq!(
        &output[0][..],
        &b"data: {\"rag_gate_decision\":\"ABSTAIN\",\"confidence_score\":-2.0,\"tokens_evaluated\":1,\"threshold_used\":-1.2}\n\n"[..]
    );
    let output = run(vec![sse_chunk(-0.75)]);
    assert_eq!(
        &output[0][..],
        &b"data: {\"rag_gate_decision\":\"ESCALATE\",\"confidence_score\":-0.75,\"tokens_evaluated\":1,\"threshold_used\":-0.5}\n\n"[..]
    );
    let frame = RagGateDecisionFrame {
        rag_gate_decision: decision_label(Decision::Answer).to_string(),
        confidence_score: b(-1.47),
        tokens_evaluated: 23,
        threshold_used: b(-1.2),
    };
    assert_eq!(
        &frame.to_wire(Protocol::Ndjson, "-1.47", "-1.2")[..],
        &b"{\"rag_gate_decision\":\"ANSWER\",\"confidence_score\":-1.47,\"tokens_evaluated\":23,\"threshold_used\":-1.2}\n"[..]
    );
    let value: serde_json::Value =
        serde_json::from_str(&frame.to_json("-1.47", "-1.2")).unwrap();
    assert_eq!(value.get("tokens_evaluated").unwrap().as_u64(), Some(23));
}

#[test]
fn chunk_boundaries_do_not_matter() {
    let mut all = Vec::new();
    for lp in [-0.1, -0.4, -0.2, -0.3, -0.1, -0.9, -0.2, -4.0, -5.0, -0.1] {
        all.extend_from_slice(&sse_chunk(lp));
    }
    let whole = run(vec![Bytes::from(all.clone())]);
    assert!(String::from_utf8_lossy(whole.last().unwrap()).contains("rag_gate_decision"));
    for size in [1usize, 2, 3, 7, 50, 100, 1000] {
        let chunks: Vec<Bytes> =
            all.chunks(size).map(|c| Bytes::from(c.to_vec())).collect();
        assert_eq!(run(chunks), whole);
    }
}

#[test]
fn answered_stream_passes_byte_for_byte() {
    let mut all = Vec::new();
    for lp in [-0.1, -0.4, -0.2, -0.3, -0.1, -0.2, -0.2] {
        all.extend_from_slice(&sse_chunk(lp));
    }
    all.extend_from_slice(b": comment\n\ndata: not json\n\n\xff\xfe\n\ndata: [DONE]\n\ntail");
    for size in [1usize, 5, 64, 4096] {
        let chunks: Vec<Bytes> =
            all.chunks(size).map(|c| Bytes::from(c.to_vec())).collect();
        let out: Vec<u8> = run(chunks).iter().flat_map(|c| c.to_vec()).collect();
        assert_eq!(out, all);
    }
}

#[test]
fn cut_drops_what_is_held_back() {
    // Seven good frames, then a terrible one: three frames are out by then, four
    // are held back, and those are dropped with the one that cuts.
    let mut chunks: Vec<Bytes> = (0..7).map(|_| sse_chunk(-0.1)).collect();
    chunks.push(sse_chunk(-100.0));
    chunks.push(sse_chunk(-0.1));
    let mut stream = InterceptedStream::new((), ConfidenceEvaluator::new(thresholds()), 4);
    let output = drive(&mut stream, chunks);
    assert_eq!(output.len(), 4);
    let reports = stream.take_reports();
    assert_eq!(reports.len(), 1);
    match reports[0] {
        StreamReport::Decided { decision, confidence, tokens_evaluated, tokens_saved } => {
            assert_eq!(decision, Decision::Abstain);
            let mut sum = 0.0;
            for _ in 0..7 {
                sum += -0.1;
            }
            assert_eq!(f(confidence), (sum - 100.0) / 8.0);
            assert_eq!(tokens_evaluated, 8);
            assert_eq!(tokens_saved, 5);
        }
        _ => panic!("not a decision"),
    }
    assert!(stream.take_reports().is_empty());
    assert!(matches!(stream.poll_next(Upstream::Quiet), Step::End));
    assert!(matches!(stream.poll_next(Upstream::Closed), Step::End));
}

#[test]
fn answered_stream_is_counted_once() {
    let mut stream = InterceptedStream::new((), ConfidenceEvaluator::new(thresholds()), 4);
    let output = drive(&mut stream, vec![sse_chunk(-0.25), sse_chunk(-0.25)]);
    assert_eq!(output.len(), 2);
    let reports = stream.take_reports();
    assert_eq!(reports.len(), 1);
    match reports[0] {
        StreamReport::Decided { decision, confidence, tokens_evaluated, tokens_saved } => {
            assert_eq!(decision, Decision::Answer);
            assert_eq!(f(confidence), -0.25);
            assert_eq!(tokens_evaluated, 2);
            assert_eq!(tokens_saved, 0);
        }
        _ => panic!("not a decision"),
    }
}

#[test]
fn nothing_is_emitted_before_the_lookahead_is_full() {
    let mut stream = InterceptedStream::new((), ConfidenceEvaluator::new(thresholds()), 4);
    for _ in 0..4 {
        let step = stream.poll_next(Upstream::Chunk(sse_chunk(-0.1)));
        assert!(matches!(step, Step::NeedUpstream));
    }
    let step = stream.poll_next(Upstream::Chunk(sse_chunk(-0.1)));
    assert!(matches!(step, Step::Emit(_)));
    let mut eager = InterceptedStream::new((), ConfidenceEvaluator::new(thresholds()), 0);
    let step = eager.poll_next(Upstream::Chunk(sse_chunk(-0.1)));
    assert!(matches!(step, Step::Emit(_)));
}

#[test]
fn warmup_floor_holds_in_a_stream() {
    let mut floor = thresholds();
    floor.min_tokens = 3;
    let mut stream = InterceptedStream::new((), ConfidenceEvaluator::new(floor), 4);
    let step = stream.poll_next(Upstream::Chunk(sse_chunk(-9.0)));
    assert!(matches!(step, Step::NeedUpstream));
    let step = stream.poll_next(Upstream::Chunk(sse_chunk(-9.0)));
    assert!(matches!(step, Step::NeedUpstream));
    let step = stream.poll_next(Upstream::Chunk(sse_chunk(-9.0)));
    assert!(matches!(step, Step::Cut(_)));
}

#[test]
fn gate_stays_off_after_a_degenerate_signal() {
    let mut chunks: Vec<Bytes> = (0..16).map(|_| sse_chunk(-0.0001)).collect();
    chunks.extend((0..10).map(|_| sse_chunk(-50.0)));
    let mut stream = InterceptedStream::new((), ConfidenceEvaluator::new(thresholds()), 4);
    let output = drive(&mut stream, chunks);
    assert_eq!(output.len(), 26);
    let reports = stream.take_reports();
    assert_eq!(degenerate_count(&reports), 1);
    assert_eq!(reports.len(), 2);
}

#[test]
fn ndjson_logprobs_in_either_place() {
    let nested = "{\"choices\":[{\"logprobs\":{\"content\":[{\"logprob\":-2.5},{\"x\":1},{\"logprob\":-1}]}}],\"logprobs\":{\"content\":[{\"logprob\":-9}]}}\n";
    let got: Vec<f64> =
        extract_logprobs(Protocol::Ndjson, nested).iter().map(|x| f(*x)).collect();
    assert_eq!(got, vec![-2.5, -1.0]);
    let top = " {\"logprobs\":{\"content\":[{\"logprob\":-9},{\"logprob\":\"x\"}]}}\n";
    let got: Vec<f64> = extract_logprobs(Protocol::Ndjson, top).iter().map(|x| f(*x)).collect();
    assert_eq!(got, vec![-9.0]);
    let output = run_ndjson(vec![Bytes::from(top)]);
    assert!(output[0].starts_with(b"{\"rag_gate_decision\":\"ABSTAIN\""));
}

#[test]
fn only_data_frames_carry_logprobs() {
    let frame = "data: {\"choices\":[{\"logprobs\":{\"content\":[{\"logprob\":-2.5}]}}]}\n\n";
    assert_eq!(extract_logprobs(Protocol::Sse, frame).len(), 1);
    assert_eq!(extract_logprobs(Protocol::Gemini, frame).len(), 0);
    assert_eq!(extract_logprobs(Protocol::Sse, &frame[1..]).len(), 0);
    assert_eq!(extract_logprobs(Protocol::Sse, "data: [DONE]\n\n").len(), 0);
    assert_eq!(extract_logprobs(Protocol::Sse, "data: {\n\n").len(), 0);
    assert_eq!(extract_logprobs(Protocol::Sse, "").len(), 0);
}

#[test]
fn documents_are_read_by_protocol() {
    let value: serde_json::Value = serde_json::from_str(
        "{\"choices\":[{\"logprobs\":{\"content\":[{\"logprob\":-1.5}]}},{\"logprobs\":{\"content\":[{\"logprob\":-7}]}}],\"candidates\":[{\"logprobsResult\":{\"chosenCandidates\":[{\"logProbability\":-3}]}}]}",
    )
    .unwrap();
    let read = |protocol: Protocol| -> Vec<f64> {
        read_logprobs(protocol, &value).iter().map(|x| f(*x)).collect()
    };
    assert_eq!(read(Protocol::Sse), vec![-1.5]);
    assert_eq!(read(Protocol::Ndjson), vec![-1.5]);
    assert_eq!(read(Protocol::Gemini), vec![-3.0]);
}

#[test]
fn frames_end_at_their_separator() {
    assert_eq!(Protocol::Sse.frame_separator(), &b"\n\n"[..]);
    assert_eq!(Protocol::Gemini.frame_separator(), &b"\n\n"[..]);
    assert_eq!(Protocol::Ndjson.frame_separator(), &b"\n"[..]);
    assert_eq!(find_frame_boundary(Protocol::Sse, b"a\nb\n\nc\n\n"), Some(5));
    assert_eq!(find_frame_boundary(Protocol::Sse, b"a\nb\n"), None);
    assert_eq!(find_frame_boundary(Protocol::Ndjson, b"a\nb"), Some(2));
    assert_eq!(find_frame_boundary(Protocol::Ndjson, b""), None);
}

#[test]
fn gate_on_given_log_probabilities() {
    let mut stream = InterceptedStream::new(7u8, ConfidenceEvaluator::new(thresholds()), 0);
    let out = stream.gate_frame(Bytes::from_static(b"x"), &vec![b(-0.1), b(-0.2)]);
    match out {
        Some(Step::Emit(chunk)) => assert_eq!(&chunk[..], b"x"),
        _ => panic!("not forwarded"),
    }
    let out = stream.gate_frame(Bytes::from_static(b"y"), &vec![b(-3.0)]);
    match out {
        Some(Step::Cut(frame)) => {
            assert_eq!(frame.rag_gate_decision, "ESCALATE");
            assert_eq!(f(frame.confidence_score), (-0.1 + -0.2 + -3.0) / 3.0);
            assert_eq!(frame.tokens_evaluated, 3);
            assert_eq!(f(frame.threshold_used), -0.5);
        }
        _ => panic!("not cut"),
    }
    assert_eq!(*stream.source_mut(), 7);
    *stream.source_mut() = 8;
    assert_eq!(*stream.source_mut(), 8);
}

#[test]
fn frame_that_is_no_utf8_is_processed() {
    let mut stream = InterceptedStream::new((), ConfidenceEvaluator::new(thresholds()), 0);
    let mut bytes = b"data: {\"x\":\"\xff\",\"choices\":[{\"logprobs\":{\"content\":[{\"logprob\":-8}]}}]}".to_vec();
    bytes.extend_from_slice(b"\n\n");
    let step = stream.process_frame(Bytes::from(bytes));
    assert!(matches!(step, Some(Step::Cut(_))));
}

#[test]
fn frames_come_before_the_close() {
    // Two frames in one chunk and no lookahead: the close waits for the second.
    let mut stream = InterceptedStream::new((), ConfidenceEvaluator::new(thresholds()), 0);
    let mut both = sse_chunk(-0.1).to_vec();
    both.extend_from_slice(&sse_chunk(-9.0));
    assert!(matches!(stream.poll_next(Upstream::Chunk(Bytes::from(both))), Step::Emit(_)));
    assert!(matches!(stream.poll_next(Upstream::Closed), Step::Cut(_)));
    assert!(matches!(stream.poll_next(Upstream::Closed), Step::End));
    assert_eq!(stream.take_reports().len(), 1);
}

#[test]
fn every_token_of_every_frame_counts() {
    let frame = Bytes::from_static(
        b"data: {\"choices\":[{\"logprobs\":{\"content\":[{\"logprob\":-0.125},{\"logprob\":-0.375}]}}]}\n\n",
    );
    let mut stream = InterceptedStream::new((), ConfidenceEvaluator::new(thresholds()), 4);
    let output = drive(&mut stream, vec![frame.clone(), frame.clone(), frame]);
    assert_eq!(output.len(), 3);
    match stream.take_reports()[0] {
        StreamReport::Decided { confidence, tokens_evaluated, .. } => {
            assert_eq!(f(confidence), -0.25);
            assert_eq!(tokens_evaluated, 6);
        }
        _ => panic!("not a decision"),
    }
}

#[test]
fn decision_text_is_escaped() {
    let frame = RagGateDecisionFrame {
        rag_gate_decision: "a\"b\\c\nd\u{e9}".to_string(),
        confidence_score: b(0.0),
        tokens_evaluated: 0,
        threshold_used: b(0.0),
    };
    assert_eq!(
        frame.to_json("0.0", "0.0"),
        "{\"rag_gate_decision\":\"a\\\"b\\\\c\\nd\u{e9}\",\"confidence_score\":0.0,\"tokens_evaluated\":0,\"threshold_used\":0.0}"
    );
}

#[test]
fn decision_frame_is_one_frame() {
    for protocol in [Protocol::Sse, Protocol::Ndjson, Protocol::Gemini] {
        let frame = RagGateDecisionFrame {
            rag_gate_decision: decision_label(Decision::Escalate).to_string(),
            confidence_score: b(-0.75),
            tokens_evaluated: 1234567,
            threshold_used: b(-0.5),
        };
        let wire = frame.to_wire(protocol, "-0.75", "-0.5");
        assert_eq!(find_frame_boundary(protocol, &wire), Some(wire.len()));
    }
}

#[test]
fn items_of_an_uncut_response_are_frames() {
    let mut all = Vec::new();
    for lp in [-0.1, -0.4, -0.2, -0.3, -0.1, -0.2, -0.2] {
        all.extend_from_slice(&sse_chunk(lp));
    }
    all.extend_from_slice(b"tail");
    let chunks: Vec<Bytes> = all.chunks(13).map(|c| Bytes::from(c.to_vec())).collect();
    let output = run(chunks);
    assert_eq!(output.len(), 8);
    for item in &output[..7] {
        assert_eq!(find_frame_boundary(Protocol::Sse, item), Some(item.len()));
    }
    assert_eq!(&output[7][..], b"tail");
}

#[test]
fn cut_hands_out_and_saves_by_the_lookahead() {
    for k in 0..8usize {
        for lookahead in 0..6usize {
            let mut chunks: Vec<Bytes> = (0..k).map(|_| sse_chunk(-0.1)).collect();
            chunks.push(sse_chunk(-100.0));
            let evaluator = ConfidenceEvaluator::new(thresholds());
            let mut stream = InterceptedStream::new((), evaluator, lookahead);
            let output = drive(&mut stream, chunks);
            assert_eq!(output.len(), k.saturating_sub(lookahead) + 1);
            match stream.take_reports()[0] {
                StreamReport::Decided { tokens_saved, .. } => {
                    assert_eq!(tokens_saved, k.min(lookahead) + 1);
                }
                _ => panic!("not a decision"),
            }
        }
    }
}

#[test]
fn items_before_a_cut_are_frames() {
    let mut all = Vec::new();
    for lp in [-0.1, -0.4, -0.2, -0.3, -0.1, -0.2, -0.2, -90.0, -0.1] {
        all.extend_from_slice(&sse_chunk(lp));
    }
    let chunks: Vec<Bytes> = all.chunks(17).map(|c| Bytes::from(c.to_vec())).collect();
    let output = run(chunks);
    assert_eq!(output.len(), 4);
    for item in &output {
        assert_eq!(find_frame_boundary(Protocol::Sse, item), Some(item.len()));
    }
    assert!(output[3].starts_with(b"data: {\"rag_gate_decision\":"));
}
