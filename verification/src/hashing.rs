//! SHA-1 digests. The digest itself is computed by an outside
//! implementation; here it is named abstractly, so that contracts can say
//! exactly which bytes a digest was taken over.
use vstd::prelude::*;
use sha1::Digest;

verus! {

/// The SHA-1 digest of a byte sequence: 20 bytes, a function of the bytes
/// alone.
pub uninterp spec fn sha1_of(data: Seq<u8>) -> Seq<u8>;

/// Relies on sha1::Sha1 through the Digest interface: the digest is 20
/// bytes and depends on the input bytes alone.
#[verifier::external_body]
pub fn encode_sha1(data: &[u8]) -> (r: Vec<u8>)
    ensures
        r@ == sha1_of(data@),
        r@.len() == 20,
{
    let mut hasher = sha1::Sha1::new();
    hasher.update(data);
    hasher.finalize().to_vec()
}

} // verus!
