//! Which headers of a request go on to the upstream.

use crate::text::same_text;
use vstd::prelude::*;

verus! {

/// `reqwest::header::HeaderValue`.
#[verifier::external_type_specification]
#[verifier::external_body]
pub struct ExHeaderValue(reqwest::header::HeaderValue);

/// `reqwest::header::HeaderMap`.
#[verifier::external_type_specification]
#[verifier::external_body]
#[verifier::reject_recursive_types(T)]
pub struct ExHeaderMap<T>(reqwest::header::HeaderMap<T>);

/// The headers that a `reqwest::header::HeaderMap` holds: the values of each
/// name, in order. The names are in lower case.
pub uninterp spec fn headers_of(
    headers: reqwest::header::HeaderMap<reqwest::header::HeaderValue>,
) -> Map<Seq<char>, Seq<Seq<u8>>>;

/// What a sequence of names holds.
pub open spec fn texts(names: Seq<String>) -> Seq<Seq<char>> {
    names.map_values(|name: String| name@)
}

/// Calls `reqwest::header::HeaderMap::keys`: every name that has a value, once.
/// Nothing is said of their order.
#[verifier::external_body]
fn names(headers: &reqwest::header::HeaderMap<reqwest::header::HeaderValue>) -> (r: Vec<String>)
    ensures
        texts(r@).no_duplicates(),
        forall|name: Seq<char>| #[trigger]
            texts(r@).contains(name) <==> headers_of(*headers).dom().contains(name),
{
    headers.keys().map(|name| name.as_str().to_owned()).collect()
}

/// Calls `clone` on a `reqwest::header::HeaderMap`: the same headers.
#[verifier::external_body]
fn copied(headers: &reqwest::header::HeaderMap<reqwest::header::HeaderValue>) -> (r:
    reqwest::header::HeaderMap<reqwest::header::HeaderValue>)
    ensures
        headers_of(r) == headers_of(*headers),
{
    headers.clone()
}

/// Calls `reqwest::header::HeaderMap::remove` with the name of a hop-by-hop header
/// that has a value: all values of the name are gone, and those of other names
/// are what they were. Nothing is said of other names: a map can hold one that a
/// lookup by text does not find, such as one with a quotation mark.
#[verifier::external_body]
fn remove(headers: &mut reqwest::header::HeaderMap<reqwest::header::HeaderValue>, name: &str)
    requires
        headers_of(*old(headers)).dom().contains(name@),
        hop_by_hop(name@),
    ensures
        headers_of(*final(headers)) == headers_of(*old(headers)).remove(name@),
{
    headers.remove(name);
}

/// The headers that concern one connection only, and the two that are set anew
/// for the upstream. The name is in lower case.
pub open spec fn hop_by_hop(name: Seq<char>) -> bool {
    ||| name == "connection"@
    ||| name == "keep-alive"@
    ||| name == "proxy-authenticate"@
    ||| name == "proxy-authorization"@
    ||| name == "te"@
    ||| name == "trailer"@
    ||| name == "transfer-encoding"@
    ||| name == "upgrade"@
    ||| name == "host"@
    ||| name == "content-length"@
}

/// Is this header kept from the upstream? Hop-by-hop headers are (RFC 7230,
/// section 6.1), and so are `host` and `content-length`, which the client of the
/// upstream sets itself.
pub fn is_hop_by_hop(name: &str) -> (r: bool)
    ensures
        r == hop_by_hop(name@),
{
    same_text(name, "connection") || same_text(name, "keep-alive") || same_text(
        name,
        "proxy-authenticate",
    ) || same_text(name, "proxy-authorization") || same_text(name, "te") || same_text(
        name,
        "trailer",
    ) || same_text(name, "transfer-encoding") || same_text(name, "upgrade") || same_text(
        name,
        "host",
    ) || same_text(name, "content-length")
}

/// All headers but those that are kept from the upstream.
pub open spec fn end_to_end(headers: Map<Seq<char>, Seq<Seq<u8>>>) -> Map<
    Seq<char>,
    Seq<Seq<u8>>,
> {
    Map::new(
        |name: Seq<char>| headers.dom().contains(name) && !hop_by_hop(name),
        |name: Seq<char>| headers[name],
    )
}

/// The headers that are left when the names seen so far were looked at.
spec fn left_after(headers: Map<Seq<char>, Seq<Seq<u8>>>, seen: Seq<Seq<char>>) -> Map<
    Seq<char>,
    Seq<Seq<u8>>,
> {
    Map::new(
        |name: Seq<char>| headers.dom().contains(name) && !(hop_by_hop(name) && seen.contains(name)),
        |name: Seq<char>| headers[name],
    )
}

proof fn lemma_left_after_one_more(
    headers: Map<Seq<char>, Seq<Seq<u8>>>,
    seen: Seq<Seq<char>>,
    name: Seq<char>,
)
    ensures
        left_after(headers, seen.push(name)) == if hop_by_hop(name) {
            left_after(headers, seen).remove(name)
        } else {
            left_after(headers, seen)
        },
{
    let more = seen.push(name);
    assert forall|n: Seq<char>| more.contains(n) <==> (seen.contains(n) || n == name) by {
        if seen.contains(n) {
            let k = choose|k: int| 0 <= k < seen.len() && seen[k] == n;
            assert(more[k] == n);
        }
        assert(more[seen.len() as int] == name);
    }
    if hop_by_hop(name) {
        assert(left_after(headers, more) =~= left_after(headers, seen).remove(name));
    } else {
        assert(left_after(headers, more) =~= left_after(headers, seen));
    }
}

/// Copies all end-to-end headers of a request, every value of them, so that
/// provider-specific ones reach the upstream as well.
pub fn forward_headers(src: &reqwest::header::HeaderMap<reqwest::header::HeaderValue>) -> (r:
    reqwest::header::HeaderMap<reqwest::header::HeaderValue>)
    ensures
        headers_of(r) == end_to_end(headers_of(*src)),
{
    let mut headers = copied(src);
    let all = names(src);
    let ghost before = headers_of(*src);
    let ghost every = texts(all@);
    let mut i: usize = 0;
    assert(headers_of(headers) =~= left_after(before, every.take(0)));
    while i < all.len()
        invariant
            i <= all@.len(),
            every == texts(all@),
            every.no_duplicates(),
            forall|name: Seq<char>| #[trigger]
                every.contains(name) <==> before.dom().contains(name),
            headers_of(headers) == left_after(before, every.take(i as int)),
        decreases all@.len() - i,
    {
        proof {
            let name = every[i as int];
            assert(every.contains(name));
            assert(!every.take(i as int).contains(name));
            assert(every.take(i + 1) =~= every.take(i as int).push(name));
            lemma_left_after_one_more(before, every.take(i as int), name);
        }
        if is_hop_by_hop(all[i].as_str()) {
            remove(&mut headers, all[i].as_str());
        }
        i = i + 1;
    }
    proof {
        assert(every.take(i as int) =~= every);
        assert forall|name: Seq<char>| #[trigger] before.dom().contains(name) implies every.contains(
            name,
        ) by {}
        assert(headers_of(headers) =~= end_to_end(before));
    }
    headers
}

/// No hop-by-hop header reaches the upstream, and every other header does, with
/// every one of its values in order.
pub proof fn law_headers_forwarded(headers: Map<Seq<char>, Seq<Seq<u8>>>, name: Seq<char>)
    ensures
        hop_by_hop(name) ==> !end_to_end(headers).dom().contains(name),
        !hop_by_hop(name) ==> {
            &&& end_to_end(headers).dom().contains(name) <==> headers.dom().contains(name)
            &&& headers.dom().contains(name) ==> end_to_end(headers)[name] == headers[name]
        },
{
}

/// Exactly ten names are kept from the upstream: the eight hop-by-hop headers, and
/// `host` and `content-length`. Whatever else a client sends goes on, every value
/// of it in order.
pub proof fn law_only_these_are_kept(headers: Map<Seq<char>, Seq<Seq<u8>>>, name: Seq<char>)
    ensures
        name == "connection"@ || name == "keep-alive"@ || name == "proxy-authenticate"@ || name
            == "proxy-authorization"@ || name == "te"@ || name == "trailer"@ || name
            == "transfer-encoding"@ || name == "upgrade"@ || name == "host"@ || name
            == "content-length"@ ==> hop_by_hop(name) && !end_to_end(headers).dom().contains(name),
        name != "connection"@ && name != "keep-alive"@ && name != "proxy-authenticate"@ && name
            != "proxy-authorization"@ && name != "te"@ && name != "trailer"@ && name
            != "transfer-encoding"@ && name != "upgrade"@ && name != "host"@ && name
            != "content-length"@ ==> !hop_by_hop(name) && end_to_end(headers).dom().contains(name)
            == headers.dom().contains(name) && (headers.dom().contains(name) ==> end_to_end(
            headers,
        )[name] == headers[name]),
{
}

} // verus!
