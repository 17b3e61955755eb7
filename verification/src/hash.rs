//! The hashing convention: keys and values are identified in the tree by
//! their 32-byte blake2b digests (CKB personalization); an absent value is
//! identified by the all-zero digest.

use vstd::prelude::*;
use crate::zero_digest;

verus! {

/// The digest that `blake2b256` returns on the given input bytes.
pub uninterp spec fn blake2b_of(data: Seq<u8>) -> Seq<u8>;

/// Relies on `ckb_hash::blake2b_256`: blake2b with a 32-byte output and the
/// CKB personalization. The digest depends on the input bytes alone.
#[verifier::external_body]
pub(crate) fn blake2b256(data: &[u8]) -> (r: [u8; 32])
    ensures
        r@ == blake2b_of(data@),
{
    ckb_hash::blake2b_256(data)
}

/// The digest that stands for an optional value in a leaf: the value's
/// digest when present, the zero digest when absent.
pub open spec fn value_digest(v: Option<Seq<u8>>) -> Seq<u8> {
    match v {
        Some(b) => blake2b_of(b),
        None => zero_digest(),
    }
}

/// View of an optional byte string.
pub open spec fn opt_bytes_view(v: Option<Vec<u8>>) -> Option<Seq<u8>> {
    match v {
        Some(b) => Some(b@),
        None => None,
    }
}

} // verus!
