//! Small operations on text.

use vstd::prelude::*;
use vstd::string::{StrSliceExecFns, StringExecFns};
use vstd::utf8::{encode_utf8, encode_utf8_decode_utf8};

verus! {

/// Does `text` begin with `prefix`?
pub open spec fn begins_with(text: Seq<char>, prefix: Seq<char>) -> bool {
    prefix.len() <= text.len() && text.take(prefix.len() as int) == prefix
}

/// The characters with the Unicode property White_Space.
pub open spec fn white_space(c: char) -> bool {
    ||| '\u{9}' <= c <= '\u{d}'
    ||| c == '\u{20}'
    ||| c == '\u{85}'
    ||| c == '\u{a0}'
    ||| c == '\u{1680}'
    ||| '\u{2000}' <= c <= '\u{200a}'
    ||| c == '\u{2028}'
    ||| c == '\u{2029}'
    ||| c == '\u{202f}'
    ||| c == '\u{205f}'
    ||| c == '\u{3000}'
}

/// `text` without the white space at its front.
pub open spec fn trimmed_front(text: Seq<char>) -> Seq<char>
    decreases text.len(),
{
    if text.len() > 0 && white_space(text.first()) {
        trimmed_front(text.drop_first())
    } else {
        text
    }
}

/// `text` without the white space at its back.
pub open spec fn trimmed_back(text: Seq<char>) -> Seq<char>
    decreases text.len(),
{
    if text.len() > 0 && white_space(text.last()) {
        trimmed_back(text.drop_last())
    } else {
        text
    }
}

/// `text` without the white space at its ends.
pub open spec fn trimmed(text: Seq<char>) -> Seq<char> {
    trimmed_back(trimmed_front(text))
}

/// Are the two texts the same?
pub fn same_text(a: &str, b: &str) -> (r: bool)
    ensures
        r == (a@ == b@),
{
    let x = a.as_bytes();
    let y = b.as_bytes();
    let n: usize = x.len();
    if n != y.len() {
        return false;
    }
    let mut i: usize = 0;
    while i < n
        invariant
            n == x@.len() == y@.len(),
            x@ == encode_utf8(a@),
            y@ == encode_utf8(b@),
            i <= n,
            forall|k: int| 0 <= k < i ==> x@[k] == y@[k],
        decreases n - i,
    {
        if x[i] != y[i] {
            return false;
        }
        i = i + 1;
    }
    proof {
        assert(x@ =~= y@);
        encode_utf8_decode_utf8(a@);
        encode_utf8_decode_utf8(b@);
    }
    true
}

/// Does `text` begin with `prefix`?
pub fn starts_with(text: &str, prefix: &str) -> (r: bool)
    ensures
        r == begins_with(text@, prefix@),
{
    let n: usize = prefix.unicode_len();
    if text.unicode_len() < n {
        return false;
    }
    let mut i: usize = 0;
    while i < n
        invariant
            i <= n == prefix@.len() <= text@.len(),
            forall|k: int| 0 <= k < i ==> text@[k] == prefix@[k],
        decreases n - i,
    {
        if text.get_char(i) != prefix.get_char(i) {
            assert(text@.take(n as int)[i as int] != prefix@[i as int]);
            return false;
        }
        i = i + 1;
    }
    assert(text@.take(n as int) =~= prefix@);
    true
}

/// What follows the first `n` characters.
pub fn after(text: &str, n: usize) -> (r: &str)
    requires
        n <= text@.len(),
    ensures
        r@ == text@.skip(n as int),
{
    let r = text.substring_char(n, text.unicode_len());
    assert(r@ =~= text@.skip(n as int));
    r
}

fn is_white_space(c: char) -> (r: bool)
    ensures
        r == white_space(c),
{
    ('\u{9}' <= c && c <= '\u{d}') || c == '\u{20}' || c == '\u{85}' || c == '\u{a0}' || c
        == '\u{1680}' || ('\u{2000}' <= c && c <= '\u{200a}') || c == '\u{2028}' || c == '\u{2029}'
        || c == '\u{202f}' || c == '\u{205f}' || c == '\u{3000}'
}

/// `text` without the white space at its ends.
pub fn trim(text: &str) -> (r: &str)
    ensures
        r@ == trimmed(text@),
{
    let n: usize = text.unicode_len();
    let mut from: usize = 0;
    assert(text@.skip(0) =~= text@);
    while from < n && is_white_space(text.get_char(from))
        invariant
            from <= n == text@.len(),
            trimmed_front(text@) == trimmed_front(text@.skip(from as int)),
        decreases n - from,
    {
        assert(text@.skip(from as int).drop_first() =~= text@.skip(from + 1));
        from = from + 1;
    }
    let ghost front = trimmed_front(text@);
    assert(front == text@.skip(from as int));
    let mut to: usize = n;
    assert(text@.subrange(from as int, n as int) =~= front);
    while from < to && is_white_space(text.get_char(to - 1))
        invariant
            from <= to <= n == text@.len(),
            trimmed_back(front) == trimmed_back(text@.subrange(from as int, to as int)),
        decreases to - from,
    {
        assert(text@.subrange(from as int, to as int).drop_last() =~= text@.subrange(
            from as int,
            to - 1,
        ));
        to = to - 1;
    }
    text.substring_char(from, to)
}

/// The characters of `text`.
pub fn characters(text: &str) -> (r: Vec<char>)
    ensures
        r@ == text@,
{
    let mut r: Vec<char> = Vec::new();
    for c in it: text.chars()
        invariant
            r@ == text@.take(it.index() as int),
            it.seq() == text@,
    {
        r.push(c);
    }
    assert(text@.take(text@.len() as int) =~= text@);
    r
}

/// Two texts end to end.
pub fn joined(a: &str, b: &str) -> (r: String)
    ensures
        r@ == a@ + b@,
{
    let mut r = String::new();
    r.append(a);
    r.append(b);
    assert(r@ =~= a@ + b@);
    r
}

// ---------------------------------------------------------------------------
// Laws
// ---------------------------------------------------------------------------

/// White space is what has the Unicode property of that name.
pub proof fn law_white_space(c: char)
    ensures
        white_space(c) <==> {
            let n = c as u32;
            9 <= n <= 13 || n == 32 || n == 133 || n == 160 || n == 5760 || 8192 <= n <= 8202 || n
                == 8232 || n == 8233 || n == 8239 || n == 8287 || n == 12288
        },
{
}

/// A text begins with another where the other and something after it make it up.
pub proof fn law_begins_with(text: Seq<char>, prefix: Seq<char>)
    ensures
        begins_with(text, prefix) <==> exists|rest: Seq<char>| text == #[trigger] (prefix + rest),
{
    if begins_with(text, prefix) {
        assert(text =~= prefix + text.skip(prefix.len() as int));
    }
    if exists|rest: Seq<char>| text == #[trigger] (prefix + rest) {
        let rest = choose|rest: Seq<char>| text == #[trigger] (prefix + rest);
        assert(text.take(prefix.len() as int) =~= prefix);
    }
}

/// Trimming takes white space off both ends, and nothing else: what is left is a
/// piece of the text that neither begins nor ends with white space, and all that
/// is gone is white space.
pub proof fn law_trimmed(text: Seq<char>)
    ensures
        exists|i: int, j: int|
            {
                &&& 0 <= i <= j <= text.len()
                &&& trimmed(text) == #[trigger] text.subrange(i, j)
                &&& forall|k: int| 0 <= k < i || j <= k < text.len() ==> white_space(#[trigger] text[k])
                &&& i < j ==> !white_space(text[i]) && !white_space(text[j - 1])
            },
{
    lemma_trimmed_front(text);
    let i = choose|i: int|
        {
            &&& 0 <= i <= text.len()
            &&& trimmed_front(text) == #[trigger] text.skip(i)
            &&& forall|k: int| 0 <= k < i ==> white_space(#[trigger] text[k])
            &&& i < text.len() ==> !white_space(text[i])
        };
    let front = text.skip(i);
    lemma_trimmed_back(front);
    let n = choose|n: int|
        {
            &&& 0 <= n <= front.len()
            &&& trimmed_back(front) == #[trigger] front.take(n)
            &&& forall|k: int| n <= k < front.len() ==> white_space(#[trigger] front[k])
            &&& 0 < n ==> !white_space(front[n - 1])
        };
    let j = i + n;
    assert(front.take(n) =~= text.subrange(i, j));
    assert forall|k: int| 0 <= k < i || j <= k < text.len() implies white_space(
        #[trigger] text[k],
    ) by {
        if k >= j {
            assert(front[k - i] == text[k]);
        }
    }
    if i < j {
        assert(front[n - 1] == text[j - 1]);
    }
}

proof fn lemma_trimmed_front(text: Seq<char>)
    ensures
        exists|i: int|
            {
                &&& 0 <= i <= text.len()
                &&& trimmed_front(text) == #[trigger] text.skip(i)
                &&& forall|k: int| 0 <= k < i ==> white_space(#[trigger] text[k])
                &&& i < text.len() ==> !white_space(text[i])
            },
    decreases text.len(),
{
    if text.len() > 0 && white_space(text.first()) {
        let rest = text.drop_first();
        lemma_trimmed_front(rest);
        let i = choose|i: int|
            {
                &&& 0 <= i <= rest.len()
                &&& trimmed_front(rest) == #[trigger] rest.skip(i)
                &&& forall|k: int| 0 <= k < i ==> white_space(#[trigger] rest[k])
                &&& i < rest.len() ==> !white_space(rest[i])
            };
        assert(rest.skip(i) =~= text.skip(i + 1));
        assert forall|k: int| 0 <= k < i + 1 implies white_space(#[trigger] text[k]) by {
            if k > 0 {
                assert(rest[k - 1] == text[k]);
            }
        }
    } else {
        assert(text.skip(0) =~= text);
    }
}

proof fn lemma_trimmed_back(text: Seq<char>)
    ensures
        exists|n: int|
            {
                &&& 0 <= n <= text.len()
                &&& trimmed_back(text) == #[trigger] text.take(n)
                &&& forall|k: int| n <= k < text.len() ==> white_space(#[trigger] text[k])
                &&& 0 < n ==> !white_space(text[n - 1])
            },
    decreases text.len(),
{
    if text.len() > 0 && white_space(text.last()) {
        let rest = text.drop_last();
        lemma_trimmed_back(rest);
        let n = choose|n: int|
            {
                &&& 0 <= n <= rest.len()
                &&& trimmed_back(rest) == #[trigger] rest.take(n)
                &&& forall|k: int| n <= k < rest.len() ==> white_space(#[trigger] rest[k])
                &&& 0 < n ==> !white_space(rest[n - 1])
            };
        assert(rest.take(n) =~= text.take(n));
        assert forall|k: int| n <= k < text.len() implies white_space(#[trigger] text[k]) by {
            if k < rest.len() {
                assert(rest[k] == text[k]);
            }
        }
    } else {
        assert(text.take(text.len() as int) =~= text);
    }
}

} // verus!
