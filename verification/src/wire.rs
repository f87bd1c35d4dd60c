//! Bytes on the wire: chunks of the `bytes` crate, and their text.

use vstd::prelude::*;
use vstd::utf8::{decode_utf8, valid_utf8};

verus! {

/// `bytes::Bytes`.
#[verifier::external_type_specification]
#[verifier::external_body]
pub struct ExBytes(bytes::Bytes);

/// The bytes that a `bytes::Bytes` holds.
pub uninterp spec fn bytes_of(chunk: bytes::Bytes) -> Seq<u8>;

/// What `String::from_utf8_lossy` reads bytes as.
pub uninterp spec fn lossy_text(bytes: Seq<u8>) -> Seq<char>;

/// Calls `bytes::Bytes::from` with a vector, whose bytes the result holds.
#[verifier::external_body]
pub(crate) fn chunk_from(bytes: Vec<u8>) -> (r: bytes::Bytes)
    ensures
        bytes_of(r) == bytes@,
{
    bytes::Bytes::from(bytes)
}

/// Calls `as_ref` on a `bytes::Bytes`: the bytes that it holds.
#[verifier::external_body]
pub(crate) fn contents(chunk: &bytes::Bytes) -> (r: &[u8])
    ensures
        r@ == bytes_of(*chunk),
{
    chunk.as_ref()
}

/// Calls `String::from_utf8_lossy`. The text depends on the bytes alone, and is
/// the one they encode where they are valid UTF-8.
#[verifier::external_body]
pub(crate) fn text_of(bytes: &[u8]) -> (r: String)
    ensures
        r@ == lossy_text(bytes@),
        valid_utf8(bytes@) ==> r@ == decode_utf8(bytes@),
{
    String::from_utf8_lossy(bytes).into_owned()
}

} // verus!
