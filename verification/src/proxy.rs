//! What a request of a client becomes at the upstream, and what becomes of the
//! reply.

use crate::config::ProxyConfig;
use crate::evaluator::{ConfidenceEvaluator, EvaluatorView};
use crate::headers::{end_to_end, forward_headers, headers_of};
use crate::interceptor::{InterceptedStream, Protocol, StreamView};
use crate::json::{
    empty_object, is_object, json_tree, member, parse_bytes, parsed_bytes, set_member,
    take_member, truth, truth_value, write_bytes, written_bytes, Json,
};
use crate::text::{after, begins_with, characters, joined, same_text, starts_with};
use crate::wire::{bytes_of, chunk_from, contents};
use bytes::Bytes;
use vstd::prelude::*;
use vstd::string::{StrSliceExecFns, StringExecFns};

verus! {

/// Frames that are held back while the confidence is looked at.
pub const LOOKAHEAD: usize = 4;

// ---------------------------------------------------------------------------
// Where a request goes
// ---------------------------------------------------------------------------

/// The part of an upstream that a request is for.
#[derive(Debug)]
pub struct Target {
    pub path: String,
    pub query: Option<String>,
    pub protocol: Protocol,
}

/// A request that is not passed on: the status of the reply, and its text.
#[derive(Debug)]
pub struct Refusal {
    pub status: u16,
    pub message: String,
}

/// The target of the OpenAI-compatible endpoint.
pub fn openai_chat_target() -> (r: Target)
    ensures
        r.path@ == "/v1/chat/completions"@,
        r.query is None,
        r.protocol == Protocol::Sse,
{
    Target { path: "/v1/chat/completions".to_owned(), query: None, protocol: Protocol::Sse }
}

/// The target of Ollama's native endpoint.
pub fn ollama_chat_target() -> (r: Target)
    ensures
        r.path@ == "/api/chat"@,
        r.query is None,
        r.protocol == Protocol::Ndjson,
{
    Target { path: "/api/chat".to_owned(), query: None, protocol: Protocol::Ndjson }
}

/// The index of the last occurrence of a character.
pub open spec fn last_at(text: Seq<char>, c: char) -> Option<int>
    decreases text.len(),
{
    if text.len() == 0 {
        None
    } else if text.last() == c {
        Some(text.len() - 1)
    } else {
        last_at(text.drop_last(), c)
    }
}

/// What follows the last colon of a path.
pub open spec fn action(path: Seq<char>) -> Option<Seq<char>> {
    match last_at(path, ':') {
        Some(k) => Some(path.skip(k + 1)),
        None => None,
    }
}

/// Does a parameter of a query start at this index?
pub open spec fn parameter_at(query: Seq<char>, i: int) -> bool {
    0 <= i <= query.len() && (i == 0 || query[i - 1] == '&')
}

/// Does a query say in what form the reply is to come?
pub open spec fn names_form(query: Seq<char>) -> bool {
    exists|i: int| #[trigger]
        parameter_at(query, i) && begins_with(query.skip(i), "alt="@)
}

/// A query that asks for events, unless it names a form itself.
pub open spec fn event_query(query: Seq<char>) -> Seq<char> {
    if names_form(query) {
        query
    } else if query.len() == 0 {
        "alt=sse"@
    } else {
        query + "&alt=sse"@
    }
}

fn path_action(path: &str) -> (r: Option<&str>)
    ensures
        match r {
            Some(found) => action(path@) == Some(found@),
            None => action(path@) is None,
        },
{
    let all = characters(path);
    let mut n: usize = all.len();
    assert(path@.take(n as int) =~= path@);
    while n > 0
        invariant
            n <= all@.len(),
            all@ == path@,
            last_at(path@, ':') == last_at(path@.take(n as int), ':'),
        decreases n,
    {
        assert(path@.take(n as int).drop_last() =~= path@.take(n - 1));
        if all[n - 1] == ':' {
            return Some(after(path, n));
        }
        n = n - 1;
    }
    None
}

fn query_names_form(query: &str) -> (r: bool)
    ensures
        r == names_form(query@),
{
    let all = characters(query);
    let mut i: usize = 0;
    while i < all.len()
        invariant
            i <= all@.len(),
            all@ == query@,
            forall|k: int|
                0 <= k < i && #[trigger] parameter_at(query@, k) ==> !begins_with(
                    query@.skip(k),
                    "alt="@,
                ),
        decreases all@.len() - i,
    {
        if (i == 0 || all[i - 1] == '&') && starts_with(after(query, i), "alt=") {
            assert(parameter_at(query@, i as int));
            return true;
        }
        i = i + 1;
    }
    proof {
        reveal_strlit("alt=");
    }
    false
}

fn streaming_query(query: &str) -> (r: String)
    ensures
        r@ == event_query(query@),
{
    if query_names_form(query) {
        query.to_owned()
    } else if query.unicode_len() == 0 {
        "alt=sse".to_owned()
    } else {
        joined(query, "&alt=sse")
    }
}

/// The target of a path of Gemini's native endpoints, and of the query with it.
/// The path goes on as it is. Only streams can be gated, so only
/// `streamGenerateContent` is passed on; without `alt=sse` its reply would be a
/// single array, so that is asked for unless the client names a form.
pub fn gemini_target(path: &str, query: Option<&str>) -> (r: Result<Target, Refusal>)
    ensures
        match r {
            Ok(target) => {
                &&& action(path@) == Some("streamGenerateContent"@)
                &&& target.path@ == path@
                &&& target.query is Some
                &&& target.query->0@ == event_query(
                    match query {
                        Some(q) => q@,
                        None => Seq::empty(),
                    },
                )
                &&& target.protocol == Protocol::Gemini
            },
            Err(refusal) => match action(path@) {
                None => {
                    &&& refusal.status == 404
                    &&& refusal.message@
                        == "expected a Gemini path ending in :streamGenerateContent"@
                },
                Some(other) => {
                    &&& other != "streamGenerateContent"@
                    &&& refusal.status == 501
                    &&& refusal.message@ == "rag-gate gates streams only; ':"@ + other
                        + "' is not supported"@
                },
            },
        },
{
    match path_action(path) {
        None => Err(
            Refusal {
                status: 404,
                message: "expected a Gemini path ending in :streamGenerateContent".to_owned(),
            },
        ),
        Some(found) => if same_text(found, "streamGenerateContent") {
            let query = match query {
                Some(q) => streaming_query(q),
                None => {
                    let nothing = String::new();
                    assert(nothing@ =~= Seq::<char>::empty());
                    streaming_query(nothing.as_str())
                },
            };
            Ok(Target { path: path.to_owned(), query: Some(query), protocol: Protocol::Gemini })
        } else {
            let mut message = "rag-gate gates streams only; ':".to_owned();
            message.append(found);
            message.append("' is not supported");
            Err(Refusal { status: 501, message })
        },
    }
}

/// The address of a target at an upstream.
pub open spec fn address(base: Seq<char>, target: Target) -> Seq<char> {
    match target.query {
        Some(q) => if q@.len() > 0 {
            base + target.path@ + "?"@ + q@
        } else {
            base + target.path@
        },
        None => base + target.path@,
    }
}

/// The address of a target at an upstream.
pub fn upstream_address(base: &str, target: &Target) -> (r: String)
    ensures
        r@ == address(base@, *target),
{
    let mut url = joined(base, target.path.as_str());
    if let Some(q) = &target.query {
        if q.as_str().unicode_len() > 0 {
            url.append("?");
            url.append(q.as_str());
        }
    }
    url
}

// ---------------------------------------------------------------------------
// The body of a request
// ---------------------------------------------------------------------------

/// Is a member of an object the truth value `true`?
pub open spec fn switched_on(tree: Json, key: Seq<char>) -> bool {
    match tree.member(key) {
        Some(item) => item.truth() == Some(true),
        None => false,
    }
}

/// The options of a Gemini request, or none.
pub open spec fn options(tree: Json) -> Json {
    match tree.member("generationConfig"@) {
        Some(found) => found,
        None => Json::Object(Map::empty()),
    }
}

/// The object that is sent upstream for one that a client sent, and whether it
/// asks for log probabilities. Streaming is forced on, where it is not implied
/// by the path; and so are log probabilities, where there is such an option and
/// that is not disabled.
pub open spec fn adapted(protocol: Protocol, inject: bool, tree: Json) -> (Json, bool) {
    match protocol {
        Protocol::Sse => {
            let streaming = tree.with_member("stream"@, Json::Bool(true));
            if inject {
                (streaming.with_member("logprobs"@, Json::Bool(true)), true)
            } else {
                (streaming, switched_on(streaming, "logprobs"@))
            }
        },
        Protocol::Ndjson => (tree.with_member("stream"@, Json::Bool(true)), false),
        Protocol::Gemini => if inject {
            (
                tree.with_member(
                    "generationConfig"@,
                    options(tree).with_member("responseLogprobs"@, Json::Bool(true)),
                ),
                true,
            )
        } else {
            (tree, switched_on(options(tree), "responseLogprobs"@))
        },
    }
}

fn is_switched_on(value: &serde_json::Value, key: &str) -> (r: bool)
    ensures
        r == switched_on(json_tree(*value), key@),
{
    match member(value, key) {
        Some(item) => match truth(item) {
            Some(b) => b,
            None => false,
        },
        None => false,
    }
}

/// The object that is sent upstream for one that a client sent, and whether it
/// asks for log probabilities.
pub fn adapt_request(protocol: Protocol, inject: bool, request: serde_json::Value) -> (r: (
    serde_json::Value,
    bool,
))
    requires
        json_tree(request) is Object,
    ensures
        adapted(protocol, inject, json_tree(request)) == (json_tree(r.0), r.1),
{
    let ghost start = json_tree(request);
    let mut value = request;
    match protocol {
        Protocol::Gemini => {
            if inject {
                let mut config = match take_member(&mut value, "generationConfig") {
                    Some(found) => found,
                    None => empty_object(),
                };
                if is_object(&config) {
                    set_member(&mut config, "responseLogprobs", truth_value(true));
                }
                set_member(&mut value, "generationConfig", config);
                assert(start->Object_0.remove("generationConfig"@).insert(
                    "generationConfig"@,
                    json_tree(config),
                ) =~= start->Object_0.insert("generationConfig"@, json_tree(config)));
                (value, true)
            } else {
                let asked = match member(&value, "generationConfig") {
                    Some(config) => is_switched_on(config, "responseLogprobs"),
                    None => false,
                };
                (value, asked)
            }
        },
        Protocol::Sse => {
            set_member(&mut value, "stream", truth_value(true));
            if inject {
                set_member(&mut value, "logprobs", truth_value(true));
                (value, true)
            } else {
                let asked = is_switched_on(&value, "logprobs");
                (value, asked)
            }
        },
        Protocol::Ndjson => {
            set_member(&mut value, "stream", truth_value(true));
            (value, false)
        },
    }
}

/// The body that is sent upstream for one that a client sent, and whether it
/// asks for log probabilities. A body that is no object goes on as it is.
pub open spec fn prepared(protocol: Protocol, inject: bool, body: Seq<u8>) -> (Seq<u8>, bool) {
    match parsed_bytes(body) {
        Some(tree) => if tree is Object {
            let (object, asked) = adapted(protocol, inject, tree);
            match written_bytes(object) {
                Some(bytes) => (bytes, asked),
                None => (body, asked),
            }
        } else {
            (body, false)
        },
        None => (body, false),
    }
}

/// The body that is sent upstream for one that a client sent, and whether it
/// asks for log probabilities.
pub fn prepare_body(protocol: Protocol, inject: bool, body: Bytes) -> (r: (Bytes, bool))
    ensures
        prepared(protocol, inject, bytes_of(body)) == (bytes_of(r.0), r.1),
{
    match parse_bytes(contents(&body)) {
        Some(value) => if is_object(&value) {
            let (object, asked) = adapt_request(protocol, inject, value);
            match write_bytes(&object) {
                Some(bytes) => (chunk_from(bytes), asked),
                None => (body, asked),
            }
        } else {
            (body, false)
        },
        None => (body, false),
    }
}

// ---------------------------------------------------------------------------
// Request and reply
// ---------------------------------------------------------------------------

/// A request to an upstream.
pub struct UpstreamRequest {
    pub url: String,
    pub headers: reqwest::header::HeaderMap<reqwest::header::HeaderValue>,
    pub body: Bytes,
    /// Does the body ask for log probabilities?
    pub logprobs_requested: bool,
}

/// The request to the upstream that a request of a client becomes.
pub fn plan_request(
    config: &ProxyConfig,
    target: &Target,
    headers: &reqwest::header::HeaderMap<reqwest::header::HeaderValue>,
    body: Bytes,
) -> (r: UpstreamRequest)
    ensures
        r.url@ == address(config@.upstream_url, *target),
        headers_of(r.headers) == end_to_end(headers_of(*headers)),
        prepared(target.protocol, config@.inject_logprobs, bytes_of(body)) == (
            bytes_of(r.body),
            r.logprobs_requested,
        ),
{
    let url = upstream_address(config.upstream_url.as_str(), target);
    let (body, logprobs_requested) = prepare_body(target.protocol, config.inject_logprobs, body);
    UpstreamRequest { url, headers: forward_headers(headers), body, logprobs_requested }
}

/// Why a request gets no reply of the upstream.
#[derive(Debug, Clone, Copy, PartialEq, Eq, Structural)]
pub enum Failure {
    /// Its body could not be read, or is longer than allowed.
    Body,
    /// The upstream could not be reached, or did not reply.
    Upstream,
}

/// The status of the reply to a request that failed.
pub fn failure_status(failure: Failure) -> (r: u16)
    ensures
        r == match failure {
            Failure::Body => 413u16,
            Failure::Upstream => 502u16,
        },
{
    match failure {
        Failure::Body => 413,
        Failure::Upstream => 502,
    }
}

/// The type of the content of a reply.
pub fn content_type(protocol: Protocol) -> (r: &'static str)
    ensures
        r@ == match protocol {
            Protocol::Ndjson => "application/x-ndjson"@,
            _ => "text/event-stream"@,
        },
{
    match protocol {
        Protocol::Ndjson => "application/x-ndjson",
        _ => "text/event-stream",
    }
}

/// The reply of an upstream that is gated.
pub fn gated_reply<S>(
    reply: S,
    config: &ProxyConfig,
    protocol: Protocol,
    logprobs_requested: bool,
) -> (r: InterceptedStream<S>)
    ensures
        r.source() == reply,
        r@ == StreamView::fresh(
            EvaluatorView::fresh(config@.thresholds),
            LOOKAHEAD as nat,
            protocol,
            logprobs_requested,
        ),
        r@.wf(),
{
    let evaluator = ConfidenceEvaluator::new(config.thresholds);
    InterceptedStream::new_with_protocol_and_request(
        reply,
        evaluator,
        LOOKAHEAD,
        protocol,
        logprobs_requested,
    )
}

// ---------------------------------------------------------------------------
// Laws
// ---------------------------------------------------------------------------

/// Streaming is always asked for where it is an option.
pub proof fn law_streaming_is_forced(protocol: Protocol, inject: bool, tree: Json)
    requires
        tree is Object,
        protocol != Protocol::Gemini,
    ensures
        adapted(protocol, inject, tree).0.member("stream"@) == Some(Json::Bool(true)),
{
    reveal_strlit("stream");
    reveal_strlit("logprobs");
    assert("stream"@.len() != "logprobs"@.len());
}

/// Unless that is disabled, log probabilities are always asked for where they
/// are an option, and known to be.
pub proof fn law_logprobs_are_injected(tree: Json)
    requires
        tree is Object,
    ensures
        adapted(Protocol::Sse, true, tree).0.member("logprobs"@) == Some(Json::Bool(true)),
        adapted(Protocol::Sse, true, tree).1,
        adapted(Protocol::Gemini, true, tree).1,
        options(tree) is Object ==> options(adapted(Protocol::Gemini, true, tree).0).member(
            "responseLogprobs"@,
        ) == Some(Json::Bool(true)),
{
}

/// Where that is disabled, log probabilities are asked for exactly where the
/// client asks for them, and its option is what it was.
pub proof fn law_logprobs_are_left_to_the_client(tree: Json)
    requires
        tree is Object,
    ensures
        adapted(Protocol::Sse, false, tree).0.member("logprobs"@) == tree.member("logprobs"@),
        adapted(Protocol::Sse, false, tree).1 == switched_on(tree, "logprobs"@),
        adapted(Protocol::Gemini, false, tree).0 == tree,
        adapted(Protocol::Gemini, false, tree).1 == switched_on(
            options(tree),
            "responseLogprobs"@,
        ),
{
    reveal_strlit("stream");
    reveal_strlit("logprobs");
    assert("stream"@.len() != "logprobs"@.len());
}

/// Is a member of a request one that may be set for the upstream?
pub open spec fn may_be_set(protocol: Protocol, key: Seq<char>) -> bool {
    match protocol {
        Protocol::Sse => key == "stream"@ || key == "logprobs"@,
        Protocol::Ndjson => key == "stream"@,
        Protocol::Gemini => key == "generationConfig"@,
    }
}

/// Everything else that a client sends reaches the upstream unchanged: every
/// other member of its request, and every other option of a Gemini request.
pub proof fn law_the_rest_is_unchanged(
    protocol: Protocol,
    inject: bool,
    tree: Json,
    key: Seq<char>,
)
    requires
        tree is Object,
    ensures
        !may_be_set(protocol, key) ==> adapted(protocol, inject, tree).0.member(key)
            == tree.member(key),
        key != "responseLogprobs"@ ==> options(adapted(Protocol::Gemini, inject, tree).0).member(
            key,
        ) == options(tree).member(key),
{
}

/// Preparing a request that was prepared before changes nothing.
pub proof fn law_adapting_twice_is_adapting_once(protocol: Protocol, inject: bool, tree: Json)
    requires
        tree is Object,
    ensures
        adapted(protocol, inject, adapted(protocol, inject, tree).0) == adapted(
            protocol,
            inject,
            tree,
        ),
{
    let once = adapted(protocol, inject, tree).0;
    let twice = adapted(protocol, inject, once).0;
    let members = tree->Object_0;
    let yes = Json::Bool(true);
    match protocol {
        Protocol::Sse => {
            if inject {
                assert(members.insert("stream"@, yes).insert("logprobs"@, yes).insert(
                    "stream"@,
                    yes,
                ).insert("logprobs"@, yes) =~= members.insert("stream"@, yes).insert(
                    "logprobs"@,
                    yes,
                ));
            } else {
                assert(members.insert("stream"@, yes).insert("stream"@, yes) =~= members.insert(
                    "stream"@,
                    yes,
                ));
            }
        },
        Protocol::Ndjson => {
            assert(members.insert("stream"@, yes).insert("stream"@, yes) =~= members.insert(
                "stream"@,
                yes,
            ));
        },
        Protocol::Gemini => {
            if inject {
                let set = options(tree).with_member("responseLogprobs"@, yes);
                let again = set.with_member("responseLogprobs"@, yes);
                if options(tree) is Object {
                    assert(set->Object_0.insert("responseLogprobs"@, yes) =~= set->Object_0);
                }
                assert(again == set);
                assert(members.insert("generationConfig"@, set).insert("generationConfig"@, again)
                    =~= members.insert("generationConfig"@, set));
            }
        },
    }
}

/// A Gemini request always names the form of its reply, and keeps the query that
/// the client sent at its front.
pub proof fn law_event_query(query: Seq<char>)
    ensures
        names_form(event_query(query)),
        begins_with(event_query(query), query),
        names_form(query) ==> event_query(query) == query,
{
    reveal_strlit("alt=");
    reveal_strlit("alt=sse");
    reveal_strlit("&alt=sse");
    let full = event_query(query);
    assert(full.take(query.len() as int) =~= query);
    if !names_form(query) {
        let i: int = if query.len() == 0 {
            0
        } else {
            query.len() as int + 1
        };
        assert(parameter_at(full, i));
        assert(full.skip(i).take(4) =~= "alt="@);
    }
}

/// What is sent for an OpenAI request of whatever length: the client's object with
/// `stream` true, and with `logprobs` true unless that is disabled. Log
/// probabilities count as asked for where they are injected or the client asks.
pub proof fn law_openai_body_is_sent(inject: bool, body: Seq<u8>, members: Map<Seq<char>, Json>)
    requires
        parsed_bytes(body) == Some(Json::Object(members)),
    ensures
        ({
            let yes = Json::Bool(true);
            let streaming = members.insert("stream"@, yes);
            let object = Json::Object(
                if inject {
                    streaming.insert("logprobs"@, yes)
                } else {
                    streaming
                },
            );
            let (sent, asked) = prepared(Protocol::Sse, inject, body);
            &&& written_bytes(object) matches Some(bytes) ==> sent == bytes
            &&& written_bytes(object) is None ==> sent == body
            &&& asked == (inject || (members.dom().contains("logprobs"@) && members["logprobs"@]
                == yes))
        }),
{
    reveal_strlit("stream");
    reveal_strlit("logprobs");
    assert("stream"@.len() != "logprobs"@.len());
}

/// What is sent for an Ollama request: the client's object with `stream` true. Log
/// probabilities do not count as asked for.
pub proof fn law_ollama_body_is_sent(inject: bool, body: Seq<u8>, members: Map<Seq<char>, Json>)
    requires
        parsed_bytes(body) == Some(Json::Object(members)),
    ensures
        ({
            let object = Json::Object(members.insert("stream"@, Json::Bool(true)));
            let (sent, asked) = prepared(Protocol::Ndjson, inject, body);
            &&& written_bytes(object) matches Some(bytes) ==> sent == bytes
            &&& written_bytes(object) is None ==> sent == body
            &&& !asked
        }),
{
}

/// What is sent for a Gemini request: the client's object; unless that is disabled
/// with `responseLogprobs` true in its `generationConfig`, which is made where it
/// is missing and left alone where it is no object.
pub proof fn law_gemini_body_is_sent(inject: bool, body: Seq<u8>, members: Map<Seq<char>, Json>)
    requires
        parsed_bytes(body) == Some(Json::Object(members)),
    ensures
        ({
            let yes = Json::Bool(true);
            let given = members.dom().contains("generationConfig"@);
            let config = members["generationConfig"@];
            let object = Json::Object(
                if !inject || (given && !(config is Object)) {
                    members
                } else if given {
                    members.insert(
                        "generationConfig"@,
                        Json::Object(config->Object_0.insert("responseLogprobs"@, yes)),
                    )
                } else {
                    members.insert(
                        "generationConfig"@,
                        Json::Object(Map::<Seq<char>, Json>::empty().insert("responseLogprobs"@, yes)),
                    )
                },
            );
            let (sent, asked) = prepared(Protocol::Gemini, inject, body);
            &&& written_bytes(object) matches Some(bytes) ==> sent == bytes
            &&& written_bytes(object) is None ==> sent == body
            &&& asked == (inject || (given && config is Object
                && config->Object_0.dom().contains("responseLogprobs"@)
                && config->Object_0["responseLogprobs"@] == yes))
        }),
{
    let config = members["generationConfig"@];
    if members.dom().contains("generationConfig"@) && !(config is Object) {
        assert(members.insert("generationConfig"@, config) =~= members);
    }
}

/// A body that is no JSON object, and only such a one, goes on as it is for that
/// reason, and asks for nothing.
pub proof fn law_other_bodies_are_sent_as_they_are(protocol: Protocol, inject: bool, body: Seq<u8>)
    requires
        !(parsed_bytes(body) matches Some(tree) && tree is Object),
    ensures
        prepared(protocol, inject, body) == (body, false),
{
}

/// What is asked for after the last colon: the path is made up of something, a
/// colon, and an action without a colon; without a colon there is no action.
pub proof fn law_action(path: Seq<char>)
    ensures
        match action(path) {
            Some(found) => {
                &&& exists|front: Seq<char>| path == #[trigger] (front + ":"@) + found
                &&& !found.contains(':')
            },
            None => !path.contains(':'),
        },
{
    lemma_last_at(path, ':');
    match last_at(path, ':') {
        Some(k) => {
            let front = path.take(k);
            reveal_strlit(":");
            assert(path =~= (front + ":"@) + path.skip(k + 1));
            let found = path.skip(k + 1);
            if found.contains(':') {
                let i = choose|i: int| 0 <= i < found.len() && found[i] == ':';
                assert(path[k + 1 + i] == ':');
            }
        },
        None => {},
    }
}

proof fn lemma_last_at(text: Seq<char>, c: char)
    ensures
        match last_at(text, c) {
            Some(k) => 0 <= k < text.len() && text[k] == c && forall|i: int|
                k < i < text.len() ==> #[trigger] text[i] != c,
            None => forall|i: int| 0 <= i < text.len() ==> #[trigger] text[i] != c,
        },
    decreases text.len(),
{
    if text.len() > 0 && text.last() != c {
        let rest = text.drop_last();
        lemma_last_at(rest, c);
        match last_at(rest, c) {
            Some(k) => {
                assert(rest[k] == text[k]);
                assert forall|i: int| k < i < text.len() implies #[trigger] text[i] != c by {
                    if i < rest.len() {
                        assert(rest[i] == text[i]);
                    }
                }
            },
            None => {
                assert forall|i: int| 0 <= i < text.len() implies #[trigger] text[i] != c by {
                    if i < rest.len() {
                        assert(rest[i] == text[i]);
                    }
                }
            },
        }
    }
}

/// A query names the form of the reply where one of its parameters is `alt`: it
/// has `alt=` at its front or behind an ampersand.
pub proof fn law_names_form(query: Seq<char>)
    ensures
        names_form(query) <==> exists|front: Seq<char>, back: Seq<char>|
            {
                &&& query == #[trigger] (front + "alt="@ + back)
                &&& front.len() == 0 || front.last() == '&'
            },
{
    reveal_strlit("alt=");
    let alt = "alt="@;
    if names_form(query) {
        let i = choose|i: int| #[trigger]
            parameter_at(query, i) && begins_with(query.skip(i), "alt="@);
        let front = query.take(i);
        let back = query.skip(i + 4);
        assert(query.skip(i).take(4) == alt);
        assert forall|k: int| 0 <= k < 4 implies query[i + k] == alt[k] by {
            assert(query.skip(i).take(4)[k] == query[i + k]);
        }
        assert(query =~= front + alt + back);
    }
    if exists|front: Seq<char>, back: Seq<char>|
        {
            &&& query == #[trigger] (front + alt + back)
            &&& front.len() == 0 || front.last() == '&'
        } {
        let (front, back) = choose|front: Seq<char>, back: Seq<char>|
            {
                &&& query == #[trigger] (front + alt + back)
                &&& front.len() == 0 || front.last() == '&'
            };
        let i = front.len() as int;
        assert(query.skip(i).take(4) =~= alt);
        assert(parameter_at(query, i));
    }
}

/// The query that goes with a Gemini path: the client's where it names a form, and
/// otherwise with `alt=sse` as one more parameter.
pub proof fn law_query_for_events(query: Seq<char>)
    ensures
        names_form(query) ==> event_query(query) == query,
        !names_form(query) && query.len() > 0 ==> event_query(query) == query + "&alt=sse"@,
        !names_form(query) && query.len() == 0 ==> event_query(query) == "alt=sse"@,
{
}

/// An address is the upstream's, the path, and behind a question mark the query
/// where there is one that is not empty.
pub proof fn law_address(base: Seq<char>, target: Target)
    ensures
        target.query matches Some(q) ==> (q@.len() > 0 ==> address(base, target) == base
            + target.path@ + seq!['?'] + q@),
        !(target.query matches Some(q) && q@.len() > 0) ==> address(base, target) == base
            + target.path@,
{
    reveal_strlit("?");
    assert("?"@ =~= seq!['?']);
}

/// Four frames are held back of a reply.
pub proof fn law_lookahead_of_a_reply()
    ensures
        LOOKAHEAD == 4,
{
}

} // verus!
