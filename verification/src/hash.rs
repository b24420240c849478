//! SHA-1 digests of pieces and of the torrent's info dictionary.
use sha1::{Digest, Sha1};
use vstd::prelude::*;

verus! {

/// The SHA-1 digest of a byte string.
pub uninterp spec fn sha1_digest(data: Seq<u8>) -> Seq<u8>;

/// `<Sha1 as Digest>::digest`: the SHA-1 digest of `data`, which is 20
/// bytes long (the hash's output size, `U20`).
#[verifier::external_body]
pub(crate) fn sha1(data: &[u8]) -> (hash: Vec<u8>)
    ensures
        hash@ == sha1_digest(data@),
        hash@.len() == 20,
{
    Sha1::digest(data).to_vec()
}

} // verus!
