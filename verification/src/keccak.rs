//! The hash a node is referenced through.

use vstd::prelude::*;

use crate::node::empty_rlp;

verus! {

/// The Keccak-256 digest of `bytes`.
pub uninterp spec fn keccak(bytes: Seq<u8>) -> [u8; 32];

/// `alloy_primitives::keccak256`, whose digest is a function of the bytes alone.
#[verifier::external_body]
pub(crate) fn keccak256(bytes: &[u8]) -> (digest: [u8; 32])
    ensures
        digest == keccak(bytes@),
{
    alloy_primitives::keccak256(bytes).0
}

/// The root of a trie that holds nothing, which is the digest of the empty node.
pub open spec fn empty_root() -> [u8; 32] {
    keccak(empty_rlp())
}

/// `alloy_trie::EMPTY_ROOT_HASH`, which is that root.
#[verifier::external_body]
pub(crate) fn empty_root_hash() -> (root: [u8; 32])
    ensures
        root == empty_root(),
{
    alloy_trie::EMPTY_ROOT_HASH.0
}

/// `alloy_primitives::KECCAK256_EMPTY`, which is the digest of no bytes at all.
#[verifier::external_body]
pub(crate) fn empty_code_hash() -> (code_hash: [u8; 32])
    ensures
        code_hash == keccak(Seq::empty()),
{
    alloy_primitives::KECCAK256_EMPTY.0
}

/// Whether two digests are the same.
pub fn same_digest(left: &[u8; 32], right: &[u8; 32]) -> (same: bool)
    ensures
        same == (*left == *right),
{
    let mut at: usize = 0;
    while at < 32
        invariant
            at <= 32,
            forall|i: int| 0 <= i < at ==> left@[i] == right@[i],
        decreases 32 - at,
    {
        if left[at] != right[at] {
            return false;
        }
        at = at + 1;
    }
    assert(*left =~= *right);
    true
}

/// The digest whose bytes these are.
pub open spec fn digest_of(bytes: Seq<u8>) -> [u8; 32] {
    choose|digest: [u8; 32]| digest@ == bytes
}

/// A digest is told by its bytes.
pub proof fn lemma_digest_of(digest: [u8; 32])
    ensures
        digest_of(digest@) == digest,
{
    let other = digest_of(digest@);
    assert(other@ == digest@);
    assert(other =~= digest);
}

} // verus!
