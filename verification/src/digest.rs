//! The SHA-1 digest that closes the index file, computed by the `sha1` crate.

use vstd::prelude::*;
use sha1::Digest;

verus! {

/// The SHA-1 digest of a byte string, as `sha1::Sha1` computes it.
pub uninterp spec fn sha1_digest(data: Seq<u8>) -> Seq<u8>;

/// Calls `sha1::Sha1::digest`, the one-shot form of the hasher: a fresh hasher
/// takes in `data` and is finalized. The twenty bytes that come back are the
/// digest of `data` and depend on nothing else. Not proved: believed of the
/// `sha1` crate.
#[verifier::external_body]
pub(crate) fn sha1_of(data: &[u8]) -> (out: [u8; 20])
    ensures
        out@ == sha1_digest(data@),
{
    sha1::Sha1::digest(data).into()
}

} // verus!
