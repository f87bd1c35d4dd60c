use bytes::Bytes;
use rag_gate::binary64::Binary64;
use rag_gate::headers::{forward_headers, is_hop_by_hop};
use rag_gate::proxy::{
    adapt_request, content_type, failure_status, gated_reply, gemini_target, ollama_chat_target,
    openai_chat_target, plan_request, prepare_body, upstream_address, Failure, Target,
};
use rag_gate::interceptor::{Step, Upstream};
use rag_gate::{Protocol, ProxyConfig};
use reqwest::header::{HeaderMap, HeaderName, HeaderValue};
use serde_json::Value;

fn parsed(bytes: &[u8]) -> Value {
    serde_json::from_slice(bytes).unwrap()
}

fn json(text: &str) -> Value {
    serde_json::from_str(text).unwrap()
}

fn target(path: &str, query: Option<&str>) -> Target {
    Target {
        path: path.to_string(),
        query: query.map(|q| q.to_string()),
        protocol: Protocol::Sse,
    }
}

#[test]
fn hop_by_hop_headers_are_not_forwarded() {
    let mut src = HeaderMap::new();
    for name in [
        "connection",
        "keep-alive",
        "proxy-authenticate",
        "proxy-authorization",
        "te",
        "trailer",
        "transfer-encoding",
        "upgrade",
        "host",
        "content-length",
    ] {
        assert!(is_hop_by_hop(name));
        src.insert(name, HeaderValue::from_static("x"));
    }
    src.insert("authorization", HeaderValue::from_static("Bearer t"));
    src.insert("api-key", HeaderValue::from_static("k"));
    src.insert("openai-organization", HeaderValue::from_static("o"));
    src.append("x-many", HeaderValue::from_static("1"));
    src.append("x-many", HeaderValue::from_static("2"));
    let out = forward_headers(&src);
    assert_eq!(out.len(), 5);
    assert_eq!(out.get("authorization").unwrap(), "Bearer t");
    assert_eq!(out.get("api-key").unwrap(), "k");
    assert_eq!(out.get("openai-organization").unwrap(), "o");
    let many: Vec<&HeaderValue> = out.get_all("x-many").iter().collect();
    assert_eq!(many, vec!["1", "2"]);
    assert_eq!(src.len(), 15);
    assert!(!is_hop_by_hop("content-type"));
}

#[test]
fn targets_of_the_two_chat_endpoints() {
    let t = openai_chat_target();
    assert_eq!(t.path, "/v1/chat/completions");
    assert_eq!(t.query, None);
    assert_eq!(t.protocol, Protocol::Sse);
    let t = ollama_chat_target();
    assert_eq!(t.path, "/api/chat");
    assert_eq!(t.query, None);
    assert_eq!(t.protocol, Protocol::Ndjson);
}

#[test]
fn gemini_paths_are_forwarded_with_a_query_for_events() {
    let path = "/v1beta/models/gemini-2.5-flash:streamGenerateContent";
    let query = |q: Option<&str>| gemini_target(path, q).unwrap().query.unwrap();
    assert_eq!(query(None), "alt=sse");
    assert_eq!(query(Some("")), "alt=sse");
    assert_eq!(query(Some("key=1")), "key=1&alt=sse");
    assert_eq!(query(Some("alt=sse")), "alt=sse");
    assert_eq!(query(Some("key=1&alt=json")), "key=1&alt=json");
    assert_eq!(query(Some("xalt=1&salt=2")), "xalt=1&salt=2&alt=sse");
    assert_eq!(query(Some("key=alt=")), "key=alt=&alt=sse");
    assert_eq!(query(Some("a=1&")), "a=1&&alt=sse");
    let t = gemini_target(path, None).unwrap();
    assert_eq!(t.path, path);
    assert_eq!(t.protocol, Protocol::Gemini);
    assert!(gemini_target("/v1beta/models/a:b:streamGenerateContent", None).is_ok());
}

#[test]
fn other_gemini_paths_are_refused() {
    let refusal = gemini_target("/v1beta/models/gemini", None).unwrap_err();
    assert_eq!(refusal.status, 404);
    assert_eq!(
        refusal.message,
        "expected a Gemini path ending in :streamGenerateContent"
    );
    let refusal = gemini_target("/v1beta/models/gemini:generateContent", None).unwrap_err();
    assert_eq!(refusal.status, 501);
    assert_eq!(
        refusal.message,
        "rag-gate gates streams only; ':generateContent' is not supported"
    );
    let refusal = gemini_target("/x:streamGenerateContent:", None).unwrap_err();
    assert_eq!(refusal.message, "rag-gate gates streams only; ':' is not supported");
}

#[test]
fn addresses_at_the_upstream() {
    let base = "https://api.openai.com";
    assert_eq!(upstream_address(base, &target("/p", None)), "https://api.openai.com/p");
    assert_eq!(upstream_address(base, &target("/p", Some(""))), "https://api.openai.com/p");
    assert_eq!(
        upstream_address(base, &target("/p", Some("alt=sse"))),
        "https://api.openai.com/p?alt=sse"
    );
}

#[test]
fn openai_body_streams_with_logprobs() {
    let body = Bytes::from_static(
        b"{\"model\":\"m\",\"stream\":false,\"messages\":[{\"role\":\"user\",\"content\":\"\\u00e9\"}],\"n\":1.5}",
    );
    let (out, asked) = prepare_body(Protocol::Sse, true, body.clone());
    assert!(asked);
    assert_eq!(
        parsed(&out),
        json("{\"model\":\"m\",\"stream\":true,\"logprobs\":true,\"messages\":[{\"role\":\"user\",\"content\":\"\u{e9}\"}],\"n\":1.5}")
    );
    let (out, asked) = prepare_body(Protocol::Sse, false, body);
    assert!(!asked);
    assert_eq!(parsed(&out).get("logprobs"), None);
    assert_eq!(parsed(&out).get("stream"), Some(&Value::Bool(true)));
    let (out, asked) =
        prepare_body(Protocol::Sse, false, Bytes::from_static(b"{\"logprobs\":true}"));
    assert!(asked);
    assert_eq!(&out[..], b"{\"logprobs\":true,\"stream\":true}");
    let (_, asked) =
        prepare_body(Protocol::Sse, false, Bytes::from_static(b"{\"logprobs\":\"true\"}"));
    assert!(!asked);
}

#[test]
fn ollama_body_streams_only() {
    let (out, asked) = prepare_body(Protocol::Ndjson, true, Bytes::from_static(b"{\"a\":1}"));
    assert!(!asked);
    assert_eq!(&out[..], b"{\"a\":1,\"stream\":true}");
}

#[test]
fn gemini_body_asks_for_logprobs() {
    let (out, asked) = prepare_body(Protocol::Gemini, true, Bytes::from_static(b"{\"a\":1}"));
    assert!(asked);
    assert_eq!(parsed(&out), json("{\"a\":1,\"generationConfig\":{\"responseLogprobs\":true}}"));
    let body = Bytes::from_static(
        b"{\"generationConfig\":{\"temperature\":1,\"responseLogprobs\":false},\"b\":[]}",
    );
    let (out, asked) = prepare_body(Protocol::Gemini, true, body.clone());
    assert!(asked);
    assert_eq!(
        parsed(&out),
        json("{\"generationConfig\":{\"temperature\":1,\"responseLogprobs\":true},\"b\":[]}")
    );
    let (out, asked) = prepare_body(Protocol::Gemini, false, body.clone());
    assert!(!asked);
    assert_eq!(parsed(&out), parsed(&body));
    let body = Bytes::from_static(b"{\"generationConfig\":{\"responseLogprobs\":true}}");
    assert!(prepare_body(Protocol::Gemini, false, body).1);
    // Options that are no object stay as they are.
    let body = Bytes::from_static(b"{\"generationConfig\":7}");
    let (out, asked) = prepare_body(Protocol::Gemini, true, body);
    assert!(asked);
    assert_eq!(&out[..], b"{\"generationConfig\":7}");
}

#[test]
fn body_that_is_no_object_goes_on_as_it_is() {
    for text in ["[1, 2]", "nope", "", "3", "{\"a\":"] {
        for protocol in [Protocol::Sse, Protocol::Ndjson, Protocol::Gemini] {
            let body = Bytes::from(text.to_string());
            let (out, asked) = prepare_body(protocol, true, body.clone());
            assert_eq!(out, body);
            assert!(!asked);
        }
    }
}

#[test]
fn adapting_twice_is_adapting_once() {
    for protocol in [Protocol::Sse, Protocol::Ndjson, Protocol::Gemini] {
        for inject in [true, false] {
            let request = json("{\"model\":\"m\",\"generationConfig\":{\"topK\":3}}");
            let (once, asked) = adapt_request(protocol, inject, request);
            let (twice, again) = adapt_request(protocol, inject, once.clone());
            assert_eq!(once, twice);
            assert_eq!(asked, again);
        }
    }
}

#[test]
fn planned_request_has_all_parts() {
    let mut config = ProxyConfig::default();
    config.upstream_url = "http://up".to_string();
    let mut headers = HeaderMap::new();
    headers.insert("host", HeaderValue::from_static("me"));
    headers.insert("x-api-key", HeaderValue::from_static("SECRET-REDACTED"));
    let plan = plan_request(
        &config,
        &openai_chat_target(),
        &headers,
        Bytes::from_static(b"{}"),
    );
    assert_eq!(plan.url, "http://up/v1/chat/completions");
    assert_eq!(plan.headers.len(), 1);
    assert!(plan.headers.contains_key("x-api-key"));
    assert_eq!(&plan.body[..], b"{\"logprobs\":true,\"stream\":true}");
    assert!(plan.logprobs_requested);
}

#[test]
fn replies_have_a_type_and_failures_a_status() {
    assert_eq!(content_type(Protocol::Sse), "text/event-stream");
    assert_eq!(content_type(Protocol::Gemini), "text/event-stream");
    assert_eq!(content_type(Protocol::Ndjson), "application/x-ndjson");
    assert_eq!(failure_status(Failure::Body), 413);
    assert_eq!(failure_status(Failure::Upstream), 502);
}

#[test]
fn gated_reply_uses_the_configured_thresholds() {
    let mut config = ProxyConfig::default();
    config.thresholds.min_tokens = 2;
    config.thresholds.abstain_beta = Binary64::from_bits((-100.0f64).to_bits());
    let mut stream = gated_reply((), &config, Protocol::Ndjson, true);
    let frame = Bytes::from_static(b"{\"logprobs\":{\"content\":[{\"logprob\":-50}]}}\n");
    assert!(matches!(stream.poll_next(Upstream::Chunk(frame.clone())), Step::NeedUpstream));
    match stream.poll_next(Upstream::Chunk(frame)) {
        Step::Cut(frame) => assert_eq!(frame.rag_gate_decision, "ESCALATE"),
        _ => panic!("not cut"),
    }
    let mut stream = gated_reply((), &config, Protocol::Sse, false);
    for _ in 0..4 {
        let chunk = Bytes::from_static(b"data: x\n\n");
        assert!(matches!(stream.poll_next(Upstream::Chunk(chunk)), Step::NeedUpstream));
    }
    let chunk = Bytes::from_static(b"data: x\n\n");
    assert!(matches!(stream.poll_next(Upstream::Chunk(chunk)), Step::Emit(_)));
}

#[test]
fn header_with_a_quotation_mark_is_forwarded() {
    let odd = HeaderName::from_lowercase(b"a\"b").unwrap();
    let mut src = HeaderMap::new();
    src.insert(odd.clone(), HeaderValue::from_static("1"));
    src.insert("te", HeaderValue::from_static("2"));
    let out = forward_headers(&src);
    assert_eq!(out.len(), 1);
    assert_eq!(out.get(&odd).unwrap(), "1");
}
