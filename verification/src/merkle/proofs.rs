//! Merkle inclusion proofs: a list of sibling digests from the leaf level
//! up, verified by recomputing the root.

use vstd::prelude::*;

verus! {

use crate::hashing::Hash256;
use crate::merkle::node::{internal_hash_spec, leaf_hash_spec, MerkleNode};

/// The digests of a list of hashes.
pub open spec fn hashes_view(s: Seq<Hash256>) -> Seq<Seq<u8>> {
    s.map_values(|h: Hash256| h@)
}

/// Recompute a root from a leaf digest by walking the sibling list: at each
/// level the last node of an odd-sized level combines with itself, otherwise
/// the position decides which side the sibling is on; the level size halves,
/// rounding up.
pub open spec fn climb(h: Seq<u8>, idx: int, size: int, sibs: Seq<Seq<u8>>) -> Seq<u8>
    decreases sibs.len(),
{
    if sibs.len() == 0 {
        h
    } else {
        let combined = if idx % 2 == 0 {
            if idx + 1 >= size {
                internal_hash_spec(h, h)
            } else {
                internal_hash_spec(h, sibs[0])
            }
        } else {
            internal_hash_spec(sibs[0], h)
        };
        climb(combined, idx / 2, (size + 1) / 2, sibs.drop_first())
    }
}

/// A proof that a leaf lies in a tree: the sibling digests from leaf level
/// up, the leaf's index, and the (padded) size of the leaf level.
pub struct MerkleProof {
    pub proof_hashes: Vec<Hash256>,
    pub leaf_index: usize,
    pub initial_level_size: usize,
}

impl MerkleProof {
    /// Assemble a proof from its parts.
    pub fn new(proof_hashes: Vec<Hash256>, leaf_index: usize, initial_level_size: usize) -> (r:
        MerkleProof)
        ensures
            r.proof_hashes == proof_hashes,
            r.leaf_index == leaf_index,
            r.initial_level_size == initial_level_size,
    {
        MerkleProof { proof_hashes, leaf_index, initial_level_size }
    }

    /// What `verify` decides: a single-leaf tree's root is the leaf digest
    /// combined with itself; otherwise the recomputed climb must end at the
    /// root.
    pub open spec fn verify_spec(self, root: Seq<u8>, data: Seq<u8>) -> bool {
        if self.initial_level_size == 1 {
            internal_hash_spec(leaf_hash_spec(data), leaf_hash_spec(data)) == root
        } else {
            climb(
                leaf_hash_spec(data),
                self.leaf_index as int,
                self.initial_level_size as int,
                hashes_view(self.proof_hashes@),
            ) == root
        }
    }

    /// Verify this proof against a root digest and leaf data.
    pub fn verify(&self, root_hash: Hash256, data: &[u8]) -> (r: bool)
        ensures
            r == self.verify_spec(root_hash@, data@),
    {
        let mut current = MerkleNode::hash_leaf(data);
        if self.initial_level_size == 1 {
            let combined = MerkleNode::hash_internal(&current, &current);
            return combined.equals(&root_hash);
        }
        let mut current_index = self.leaf_index;
        let mut level_size = self.initial_level_size;
        let n = self.proof_hashes.len();
        let ghost all_sibs = hashes_view(self.proof_hashes@);
        assert(all_sibs.skip(0) =~= all_sibs);
        let mut i: usize = 0;
        while i < n
            invariant
                i <= n,
                n == self.proof_hashes@.len(),
                all_sibs == hashes_view(self.proof_hashes@),
                climb(
                    leaf_hash_spec(data@),
                    self.leaf_index as int,
                    self.initial_level_size as int,
                    all_sibs,
                ) == climb(current@, current_index as int, level_size as int, all_sibs.skip(i as int)),
            decreases n - i,
        {
            let sibling = self.proof_hashes[i];
            let is_left = current_index % 2 == 0;
            proof {
                let rest = all_sibs.skip(i as int);
                assert(rest.len() > 0);
                assert(rest[0] == all_sibs[i as int]);
                assert(rest.drop_first() =~= all_sibs.skip(i + 1));
            }
            let combined = if is_left {
                if current_index >= level_size || current_index + 1 >= level_size {
                    MerkleNode::hash_internal(&current, &current)
                } else {
                    MerkleNode::hash_internal(&current, &sibling)
                }
            } else {
                MerkleNode::hash_internal(&sibling, &current)
            };
            current = combined;
            current_index = current_index / 2;
            assert(level_size / 2 + level_size % 2 == (level_size + 1) as int / 2);
            level_size = level_size / 2 + level_size % 2;
            i += 1;
        }
        proof {
            assert(all_sibs.skip(n as int) =~= Seq::<Seq<u8>>::empty());
        }
        current.equals(&root_hash)
    }
}

} // verus!
