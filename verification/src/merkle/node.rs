//! Merkle hashing with domain separation: leaf hashes are Keccak-256 over
//! `0x00 ‖ data`, internal hashes over `0x01 ‖ left ‖ right`.

use vstd::prelude::*;

verus! {

use crate::encoding::push_bytes;
use crate::hashing::{keccak256, keccak_of, Hash256};

/// The digest of a leaf: Keccak-256 of the data behind a `0x00` prefix.
pub open spec fn leaf_hash_spec(data: Seq<u8>) -> Seq<u8> {
    keccak_of(seq![0u8] + data)
}

/// The digest of an internal node: Keccak-256 of both child digests behind
/// a `0x01` prefix.
pub open spec fn internal_hash_spec(left: Seq<u8>, right: Seq<u8>) -> Seq<u8> {
    keccak_of(seq![1u8] + left + right)
}

/// A node of the commitment tree.
pub struct MerkleNode {
    pub hash: Hash256,
    pub left: Option<Box<MerkleNode>>,
    pub right: Option<Box<MerkleNode>>,
}

impl MerkleNode {
    /// A leaf node with the given digest.
    pub fn new_leaf(hash: Hash256) -> (r: MerkleNode)
        ensures
            r.hash == hash,
            r.left is None,
            r.right is None,
    {
        MerkleNode { hash, left: None, right: None }
    }

    /// An internal node with the given digest and children.
    pub fn new_internal(hash: Hash256, left: Option<MerkleNode>, right: Option<MerkleNode>) -> (r:
        MerkleNode)
        ensures
            r.hash == hash,
            r.left is Some <==> left is Some,
            r.right is Some <==> right is Some,
    {
        let boxed_left = match left {
            Some(n) => Some(Box::new(n)),
            None => None,
        };
        let boxed_right = match right {
            Some(n) => Some(Box::new(n)),
            None => None,
        };
        MerkleNode { hash, left: boxed_left, right: boxed_right }
    }

    /// Hash leaf data with the leaf domain prefix.
    pub fn hash_leaf(data: &[u8]) -> (r: Hash256)
        ensures
            r@ == leaf_hash_spec(data@),
    {
        let mut buf: Vec<u8> = Vec::new();
        buf.push(0u8);
        push_bytes(&mut buf, data);
        assert(buf@ =~= seq![0u8] + data@);
        keccak256(buf.as_slice())
    }

    /// Hash two child digests with the internal domain prefix.
    pub fn hash_internal(left: &Hash256, right: &Hash256) -> (r: Hash256)
        ensures
            r@ == internal_hash_spec(left@, right@),
    {
        let mut buf: Vec<u8> = Vec::new();
        buf.push(1u8);
        push_bytes(&mut buf, vstd::array::array_as_slice(&left.bytes));
        push_bytes(&mut buf, vstd::array::array_as_slice(&right.bytes));
        assert(buf@ =~= seq![1u8] + left@ + right@);
        keccak256(buf.as_slice())
    }
}

} // verus!
