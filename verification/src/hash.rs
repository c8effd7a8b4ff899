use vstd::prelude::*;
use vstd::utf8::{encode_utf8, is_ascii_chars};
use crate::text::{collapse, collapse_whitespace, normalized, ascii_lower};
use blake2::{Blake2b512, Digest};

verus! {

/// What BLAKE2b-512 returns for these input bytes.
pub uninterp spec fn blake2b512(data: Seq<u8>) -> Seq<u8>;

/// Calls `Digest::digest` of `blake2::Blake2b512`. The contract names the
/// digest and states its length, 64 bytes, which the type's output size fixes.
#[verifier::external_body]
fn blake2b512_digest(data: &[u8]) -> (r: Vec<u8>)
    ensures
        r@ == blake2b512(data@),
        r@.len() == 64,
{
    Blake2b512::digest(data).to_vec()
}

/// The fingerprint of a query: the first 32 bytes of the BLAKE2b-512 digest of
/// the UTF-8 bytes of its normal form.
pub open spec fn fingerprint_of(query: Seq<char>) -> Seq<u8> {
    blake2b512(encode_utf8(normalized(query))).take(32)
}

/// Normalize whitespace and case for consistent hashing: collapse every run of
/// whitespace into one space, drop it at both ends, then lower-case.
pub fn normalize(query: &str) -> (r: String)
    ensures
        r@ == normalized(query@),
        is_ascii_chars(collapse(query@)) ==> r@ == ascii_lower(collapse(query@)),
{
    let collapsed = collapse_whitespace(query);
    crate::text::to_lowercase(collapsed.as_str())
}

/// Compute a BLAKE2b-512 fingerprint of a normalized query string, truncated to 32 bytes.
pub fn fingerprint(query: &str) -> (fp: [u8; 32])
    ensures
        fp@ == fingerprint_of(query@),
{
    let norm = normalize(query);
    let digest = blake2b512_digest(norm.as_str().as_bytes());
    truncate_digest(digest.as_slice())
}

/// The first 32 bytes of a digest.
pub fn truncate_digest(digest: &[u8]) -> (fp: [u8; 32])
    requires
        digest@.len() >= 32,
    ensures
        fp@ == digest@.take(32),
{
    let mut out = [0u8; 32];
    let mut i: usize = 0;
    while i < 32
        invariant
            i <= 32,
            digest@.len() >= 32,
            forall|j: int| 0 <= j < i ==> #[trigger] out@[j] == digest@[j],
        decreases 32 - i,
    {
        out[i] = digest[i];
        i = i + 1;
    }
    assert(out@ =~= digest@.take(32));
    out
}

/// Queries with the same normal form have the same fingerprint: the exact gate
/// ignores case and whitespace.
pub proof fn lemma_fingerprint_of_normal_form(q1: Seq<char>, q2: Seq<char>)
    requires
        normalized(q1) == normalized(q2),
    ensures
        fingerprint_of(q1) == fingerprint_of(q2),
{
}

} // verus!
