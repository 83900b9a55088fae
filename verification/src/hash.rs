//! The hash adapter: the pluggable digest function that turns byte strings
//! into ring positions.
//!
//! The ring only orders and searches digests; it never computes them itself.
//! A hasher is a stateless strategy value: `spec_hash` is its mathematical
//! digest function, and `hash` computes it. Because `spec_hash` is a function
//! of the input alone, every hasher is deterministic by construction, which is
//! what lets removal recompute exactly the digests that insertion produced.

use vstd::prelude::*;

verus! {

/// A digest function from arbitrary bytes to a byte digest.
///
/// The ring works for any implementation; [`Md5Hasher`] is the default.
pub trait Hasher: Sized {
    /// The digest of `input`, as a mathematical function.
    spec fn spec_hash(&self, input: Seq<u8>) -> Seq<u8>;

    /// Compute the digest of `input`.
    fn hash(&self, input: &[u8]) -> (r: Vec<u8>)
        ensures
            r@ == self.spec_hash(input@),
    ;
}

/// The MD5 digest of `input`.
pub uninterp spec fn md5_of(input: Seq<u8>) -> Seq<u8>;

/// Relies on `md5::compute`: the digest depends on the input bytes alone, and
/// is the 16 bytes of `md5::Digest`.
#[verifier::external_body]
fn md5_digest(input: &[u8]) -> (r: Vec<u8>)
    ensures
        r@ == md5_of(input@),
        r@.len() == 16,
{
    md5::compute(input).0.to_vec()
}

/// The default hash adapter: MD5, a deterministic 16-byte digest.
#[derive(Clone, Copy)]
pub struct Md5Hasher;

impl Hasher for Md5Hasher {
    open spec fn spec_hash(&self, input: Seq<u8>) -> Seq<u8> {
        md5_of(input)
    }

    fn hash(&self, input: &[u8]) -> (r: Vec<u8>) {
        md5_digest(input)
    }
}

} // verus!
