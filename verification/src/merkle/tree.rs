//! The Merkle commitment tree: built level by level from ordered leaves,
//! with the last node of an odd-sized level duplicated before pairing, and
//! storing every level so inclusion proofs can be generated.

use vstd::prelude::*;

verus! {

use crate::encoding::copy_vec;
use crate::hashing::Hash256;
use crate::merkle::node::{internal_hash_spec, leaf_hash_spec, MerkleNode};
use crate::merkle::proofs::{climb, hashes_view, MerkleProof};

/// An odd-length level with its last digest repeated; an even one unchanged.
pub open spec fn pad_even(l: Seq<Seq<u8>>) -> Seq<Seq<u8>> {
    if l.len() % 2 == 1 {
        l.push(l.last())
    } else {
        l
    }
}

/// Adjacent pairs of an even-length level, hashed into parents.
pub open spec fn pair_up(l: Seq<Seq<u8>>) -> Seq<Seq<u8>> {
    Seq::new(l.len() / 2, |i: int| internal_hash_spec(l[2 * i], l[2 * i + 1]))
}

/// One construction step: duplicate the last digest if needed, then pair.
pub open spec fn level_up(l: Seq<Seq<u8>>) -> Seq<Seq<u8>> {
    pair_up(pad_even(l))
}

/// Every level is built from the one below it.
pub open spec fn levels_linked(ls: Seq<Seq<Seq<u8>>>) -> bool {
    forall|k: int| 0 <= k < ls.len() - 1 ==> ls[k + 1] == level_up(#[trigger] ls[k])
}

/// The leaf digests of a list of leaves.
pub open spec fn leaf_hashes(leaves: Seq<Seq<u8>>) -> Seq<Seq<u8>> {
    leaves.map_values(|d: Seq<u8>| leaf_hash_spec(d))
}

/// The byte strings of a list of leaf vectors.
pub open spec fn leaf_views(leaves: Seq<Vec<u8>>) -> Seq<Seq<u8>> {
    leaves.map_values(|d: Vec<u8>| d@)
}

/// The stored level count after padding: one more when the leaf count is odd.
pub open spec fn padded_count(n: int) -> int {
    if n % 2 == 1 {
        n + 1
    } else {
        n
    }
}

/// The initial level size recorded in a proof: padded only past one leaf.
pub open spec fn proof_size(n: int) -> int {
    if n > 1 && n % 2 == 1 {
        n + 1
    } else {
        n
    }
}

/// The sibling digests along the path from index `idx` at the lowest of the
/// levels `ls` up to the root; a sibling past the end of its level is the
/// node's own digest.
pub open spec fn sibs_spec(ls: Seq<Seq<Seq<u8>>>, idx: int) -> Seq<Seq<u8>>
    decreases ls.len(),
{
    if ls.len() <= 1 {
        Seq::empty()
    } else {
        seq![sib_at(ls[0], idx)] + sibs_spec(ls.drop_first(), idx / 2)
    }
}

/// The sibling of index `idx` within one level.
pub open spec fn sib_at(l: Seq<Seq<u8>>, idx: int) -> Seq<u8> {
    let sib_i = if idx % 2 == 0 {
        idx + 1
    } else {
        idx - 1
    };
    if 0 <= sib_i < l.len() {
        l[sib_i]
    } else {
        l[idx]
    }
}

/// A construction step halves a level's size, rounding up.
proof fn lemma_level_up_len(l: Seq<Seq<u8>>)
    ensures
        level_up(l).len() == (l.len() + 1) / 2,
{
}

/// The index of a leaf's ancestor after climbing `k` levels.
pub open spec fn idx_at(idx: int, k: nat) -> int
    decreases k,
{
    if k == 0 {
        idx
    } else {
        idx_at(idx, (k - 1) as nat) / 2
    }
}

proof fn lemma_idx_at_shift(idx: int, k: nat)
    ensures
        idx_at(idx, k + 1) == idx_at(idx / 2, k),
    decreases k,
{
    if k == 0 {
    } else {
        lemma_idx_at_shift(idx, (k - 1) as nat);
        assert(idx_at(idx, k + 1) == idx_at(idx, k) / 2);
        assert(idx_at(idx / 2, k) == idx_at(idx / 2, (k - 1) as nat) / 2);
    }
}

/// A sibling list that is pointwise the sibling of the climbing ancestor is
/// exactly the sibling path.
proof fn lemma_sibs_pointwise(ls: Seq<Seq<Seq<u8>>>, idx: int, hs: Seq<Seq<u8>>)
    requires
        ls.len() >= 1,
        hs.len() == ls.len() - 1,
        forall|k: int| 0 <= k < hs.len() ==> #[trigger] hs[k] == sib_at(ls[k], idx_at(idx, k as nat)),
    ensures
        hs == sibs_spec(ls, idx),
    decreases ls.len(),
{
    if ls.len() == 1 {
        assert(hs =~= Seq::<Seq<u8>>::empty());
    } else {
        let tail = ls.drop_first();
        let ht = hs.drop_first();
        assert forall|k: int| 0 <= k < ht.len() implies #[trigger] ht[k] == sib_at(
            tail[k],
            idx_at(idx / 2, k as nat),
        ) by {
            assert(ht[k] == hs[k + 1]);
            assert(tail[k] == ls[k + 1]);
            lemma_idx_at_shift(idx, k as nat);
        }
        lemma_sibs_pointwise(tail, idx / 2, ht);
        assert(hs[0] == sib_at(ls[0], idx));
        assert(hs =~= seq![hs[0]] + ht);
    }
}

/// The digest lists of stored levels.
pub open spec fn levels_view_of(ls: Seq<Vec<Hash256>>) -> Seq<Seq<Seq<u8>>> {
    ls.map_values(|lv: Vec<Hash256>| hashes_view(lv@))
}

/// The commitment tree: every level's digests, the leaf count, and the root.
pub struct MerkleTree {
    /// The root digest; `None` for the empty tree.
    pub root: Option<Hash256>,
    /// How many leaves the tree was built from.
    pub leaf_count: usize,
    /// Level 0 is the (padded) leaf digests; each further level pairs the
    /// one below; the last level holds the root alone.
    pub levels: Vec<Vec<Hash256>>,
}

impl MerkleTree {
    /// The digests of the stored levels.
    pub open spec fn levels_view(self) -> Seq<Seq<Seq<u8>>> {
        levels_view_of(self.levels@)
    }

    /// Structural well-formedness of a built tree.
    pub open spec fn wf(self) -> bool {
        if self.leaf_count == 0 {
            self.levels@.len() == 0 && self.root is None
        } else {
            let ls = self.levels_view();
            &&& ls.len() >= 2
            &&& ls[0].len() == padded_count(self.leaf_count as int)
            &&& levels_linked(ls)
            &&& ls.last().len() == 1
            &&& forall|k: int| 0 <= k < ls.len() - 1 ==> (#[trigger] ls[k]).len() > 1
            &&& self.root matches Some(h) && h@ == ls.last()[0]
        }
    }

    /// The tree was built from exactly these leaves.
    pub open spec fn commits_to(self, leaves: Seq<Seq<u8>>) -> bool {
        &&& self.wf()
        &&& self.leaf_count == leaves.len()
        &&& leaves.len() > 0 ==> self.levels_view()[0] == pad_even(leaf_hashes(leaves))
    }

    /// The empty tree.
    pub fn new() -> (r: MerkleTree)
        ensures
            r.commits_to(Seq::<Seq<u8>>::empty()),
            r.root is None,
    {
        MerkleTree { root: None, leaf_count: 0, levels: Vec::new() }
    }

    /// The root digest, if the tree is non-empty.
    pub fn root_hash(&self) -> (r: Option<Hash256>)
        ensures
            r == self.root,
    {
        self.root
    }

    /// Build the tree from ordered leaf data: hash each leaf, duplicate the
    /// last digest when the count is odd, then pair level by level (again
    /// duplicating the last digest of an odd level) until one digest is
    /// left, keeping every level.
    #[verifier::loop_isolation(false)]
    pub fn from_leaves(leaves: Vec<Vec<u8>>) -> (r: MerkleTree)
        ensures
            r.commits_to(leaf_views(leaves@)),
    {
        let ghost lv = leaf_views(leaves@);
        if leaves.len() == 0 {
            return MerkleTree { root: None, leaf_count: 0, levels: Vec::new() };
        }
        let n = leaves.len();
        let mut current: Vec<Hash256> = Vec::new();
        let mut i: usize = 0;
        while i < n
            invariant
                i <= n,
                n == leaves@.len(),
                current@.len() == i,
                forall|j: int| 0 <= j < i ==> (#[trigger] current@[j])@ == leaf_hash_spec(lv[j]),
                lv == leaf_views(leaves@),
            decreases n - i,
        {
            current.push(MerkleNode::hash_leaf(leaves[i].as_slice()));
            i += 1;
        }
        assert(hashes_view(current@) =~= leaf_hashes(lv));
        if current.len() % 2 == 1 {
            let last = current[current.len() - 1];
            current.push(last);
        }
        assert(hashes_view(current@) =~= pad_even(leaf_hashes(lv)));
        let mut levels: Vec<Vec<Hash256>> = Vec::new();
        levels.push(copy_vec(&current));
        proof {
            assert(levels_view_of(levels@) =~= seq![hashes_view(current@)]);
        }
        while current.len() > 1
            invariant
                n == lv.len(),
                current@.len() >= 1,
                levels@.len() >= 1,
                levels_view_of(levels@)[0] == pad_even(leaf_hashes(lv)),
                levels_view_of(levels@)[0].len() == padded_count(n as int),
                levels_linked(levels_view_of(levels@)),
                levels_view_of(levels@).last() == hashes_view(current@),
                forall|k: int|
                    0 <= k < levels@.len() - 1 ==> (#[trigger] levels_view_of(levels@)[k]).len()
                        > 1,
            decreases current@.len(),
        {
            let ghost prev = hashes_view(current@);
            if current.len() % 2 == 1 {
                let last = current[current.len() - 1];
                current.push(last);
            }
            assert(hashes_view(current@) =~= pad_even(prev));
            let ghost padded = hashes_view(current@);
            let half = current.len() / 2;
            let mut next: Vec<Hash256> = Vec::new();
            let mut j: usize = 0;
            while j < half
                invariant
                    j <= half,
                    half == current@.len() / 2,
                    current@.len() % 2 == 0,
                    padded == hashes_view(current@),
                    next@.len() == j,
                    forall|q: int|
                        0 <= q < j ==> (#[trigger] next@[q])@ == internal_hash_spec(
                            padded[2 * q],
                            padded[2 * q + 1],
                        ),
                decreases half - j,
            {
                assert(2 * half <= current@.len());
                let a = current[2 * j];
                let b = current[2 * j + 1];
                next.push(MerkleNode::hash_internal(&a, &b));
                j += 1;
            }
            assert(hashes_view(next@) =~= pair_up(padded));
            assert(hashes_view(next@) == level_up(prev));
            let ghost old_levels = levels@;
            levels.push(copy_vec(&next));
            proof {
                assert(levels_view_of(levels@) =~= levels_view_of(old_levels).push(
                    hashes_view(next@),
                ));
                let ls = levels_view_of(levels@);
                let old_ls = levels_view_of(old_levels);
                assert forall|k: int| 0 <= k < ls.len() - 1 implies ls[k + 1] == level_up(
                    #[trigger] ls[k],
                ) by {
                    if k < old_ls.len() - 1 {
                        assert(ls[k] == old_ls[k]);
                        assert(ls[k + 1] == old_ls[k + 1]);
                    } else {
                        assert(ls[k] == old_ls.last());
                        assert(old_ls.last() == prev);
                        assert(ls[k + 1] == hashes_view(next@));
                    }
                }
                assert forall|k: int| 0 <= k < ls.len() - 1 implies (#[trigger] ls[k]).len()
                    > 1 by {
                    if k < old_ls.len() - 1 {
                        assert(ls[k] == old_ls[k]);
                    } else {
                        assert(ls[k] == prev);
                    }
                }
            }
            current = next;
        }
        let root = current[0];
        let tree = MerkleTree { root: Some(root), leaf_count: n, levels };
        proof {
            assert(tree.levels_view().last().len() == 1);
        }
        tree
    }

    /// Generate the inclusion proof for the leaf at `leaf_index`: the
    /// sibling digest at each level, from the leaf level up. `None` when the
    /// index is out of range.
    pub fn generate_proof(&self, leaf_index: usize) -> (r: Option<MerkleProof>)
        requires
            self.wf(),
        ensures
            r is Some <==> leaf_index < self.leaf_count,
            r matches Some(p) ==> {
                &&& p.leaf_index == leaf_index
                &&& p.initial_level_size as int == proof_size(self.leaf_count as int)
                &&& hashes_view(p.proof_hashes@) == if self.leaf_count == 1 {
                    Seq::<Seq<u8>>::empty()
                } else {
                    sibs_spec(self.levels_view(), leaf_index as int)
                }
            },
    {
        let ghost ls = self.levels_view();
        if leaf_index >= self.leaf_count {
            return None;
        }
        if self.leaf_count == 1 {
            let empty: Vec<Hash256> = Vec::new();
            assert(hashes_view(empty@) =~= Seq::<Seq<u8>>::empty());
            return Some(MerkleProof::new(empty, leaf_index, 1));
        }
        let initial_level_size = self.levels[0].len();
        assert(initial_level_size as int == ls[0].len());
        assert(initial_level_size as int == proof_size(self.leaf_count as int));
        let proof_hashes = collect_siblings(&self.levels, leaf_index, initial_level_size);
        Some(MerkleProof::new(proof_hashes, leaf_index, initial_level_size))
    }
}

/// Collect the sibling digest at each level along the path from
/// `leaf_index` up to the root.
#[verifier::rlimit(100)]
fn collect_siblings(levels: &Vec<Vec<Hash256>>, leaf_index: usize, start_size: usize) -> (r: Vec<
    Hash256,
>)
    requires
        ({
            let ls = levels_view_of(levels@);
            &&& ls.len() >= 2
            &&& levels_linked(ls)
            &&& ls.last().len() == 1
            &&& forall|k: int| 0 <= k < ls.len() - 1 ==> (#[trigger] ls[k]).len() > 1
            &&& start_size as int == ls[0].len()
            &&& leaf_index < start_size
        }),
    ensures
        hashes_view(r@) == sibs_spec(levels_view_of(levels@), leaf_index as int),
{
    let ghost ls = levels_view_of(levels@);
    let mut proof_hashes: Vec<Hash256> = Vec::new();
    let mut current_index = leaf_index;
    let mut level_size = start_size;
    let num_levels = levels.len();
    let mut level: usize = 0;
    while level_size > 1
        invariant
            ls == levels_view_of(levels@),
            levels@.len() == ls.len(),
            ls.len() == num_levels,
            levels_linked(ls),
            ls.last().len() == 1,
            forall|k: int| 0 <= k < ls.len() - 1 ==> (#[trigger] ls[k]).len() > 1,
            level < ls.len(),
            level_size as int == ls[level as int].len(),
            current_index < level_size,
            current_index as int == idx_at(leaf_index as int, level as nat),
            proof_hashes@.len() == level,
            forall|k: int|
                0 <= k < level ==> (#[trigger] proof_hashes@[k])@ == sib_at(
                    ls[k],
                    idx_at(leaf_index as int, k as nat),
                ),
        decreases level_size,
    {
        proof {
            if level as int == ls.len() - 1 {
                assert(ls[level as int].len() == 1);
            }
        }
        assert(level < ls.len() - 1);
        let sibling_index = if current_index % 2 == 0 {
            current_index + 1
        } else {
            current_index - 1
        };
        let level_vec = &levels[level];
        proof {
            assert(hashes_view(level_vec@) == ls[level as int]);
        }
        let sibling = if sibling_index < level_vec.len() {
            level_vec[sibling_index]
        } else {
            level_vec[current_index]
        };
        proof {
            assert(sibling@ == sib_at(ls[level as int], current_index as int));
            assert(ls[level + 1] == level_up(ls[level as int]));
            lemma_level_up_len(ls[level as int]);
        }
        proof_hashes.push(sibling);
        level += 1;
        current_index /= 2;
        assert(level_size / 2 + level_size % 2 == (level_size + 1) as int / 2);
        level_size = level_size / 2 + level_size % 2;
    }
    proof {
        assert(level as int == ls.len() - 1);
        lemma_sibs_pointwise(ls, leaf_index as int, hashes_view(proof_hashes@));
    }
    proof_hashes
}

/// Climbing from any index of the lowest level with the generated siblings
/// ends at the root digest.
#[verifier::rlimit(100)]
#[verifier::spinoff_prover]
proof fn lemma_climb_correct(ls: Seq<Seq<Seq<u8>>>, idx: int)
    requires
        ls.len() >= 1,
        levels_linked(ls),
        ls.last().len() == 1,
        forall|k: int| 0 <= k < ls.len() - 1 ==> (#[trigger] ls[k]).len() > 1,
        0 <= idx < ls[0].len(),
    ensures
        climb(ls[0][idx], idx, ls[0].len() as int, sibs_spec(ls, idx)) == ls.last()[0],
    decreases ls.len(),
{
    if ls.len() == 1 {
        assert(ls[0] == ls.last());
        assert(idx == 0);
    } else {
        let l = ls[0];
        let size = l.len() as int;
        let padded = pad_even(l);
        let l1 = ls[1];
        assert(l1 == level_up(l));
        let j = idx / 2;
        assert(0 <= j < padded.len() / 2);
        let sib_i = if idx % 2 == 0 {
            idx + 1
        } else {
            idx - 1
        };
        let sib = if 0 <= sib_i < l.len() {
            l[sib_i]
        } else {
            l[idx]
        };
        let combined = if idx % 2 == 0 {
            if idx + 1 >= size {
                internal_hash_spec(l[idx], l[idx])
            } else {
                internal_hash_spec(l[idx], sib)
            }
        } else {
            internal_hash_spec(sib, l[idx])
        };
        if idx % 2 == 0 {
            if idx + 1 >= size {
                assert(size % 2 == 1);
                assert(padded[idx] == l[idx]);
                assert(padded[idx + 1] == l[size - 1]);
                assert(l[size - 1] == l[idx]);
            } else {
                assert(padded[idx] == l[idx]);
                assert(padded[idx + 1] == l[idx + 1]);
                assert(sib == l[idx + 1]);
            }
            assert(2 * j == idx);
        } else {
            assert(2 * j == idx - 1);
            assert(padded[idx - 1] == l[idx - 1]);
            assert(padded[idx] == l[idx]);
            assert(sib == l[idx - 1]);
        }
        assert(combined == l1[j]);
        let tail = ls.drop_first();
        assert(tail[0] == ls[1]);
        assert(tail.last() == ls.last());
        assert forall|k: int| 0 <= k < tail.len() - 1 implies tail[k + 1] == level_up(
            #[trigger] tail[k],
        ) by {
            assert(tail[k] == ls[k + 1]);
            assert(tail[k + 1] == ls[k + 2]);
        }
        assert forall|k: int| 0 <= k < tail.len() - 1 implies (#[trigger] tail[k]).len() > 1 by {
            assert(tail[k] == ls[k + 1]);
        }
        assert(l1.len() == (size + 1) / 2);
        assert(0 <= j < l1.len());
        lemma_climb_correct(tail, j);
        let sibs = sibs_spec(ls, idx);
        assert(sibs[0] == sib);
        assert(sibs.drop_first() =~= sibs_spec(tail, j));
        assert(climb(l[idx], idx, size, sibs) == climb(combined, j, (size + 1) / 2, sibs.drop_first()));
    }
}

/// Merkle inclusion: a proof generated for index `i` of the leaves a tree
/// commits to verifies against the tree's root and the leaf's own data.
pub proof fn lemma_merkle_inclusion(
    t: MerkleTree,
    leaves: Seq<Seq<u8>>,
    p: MerkleProof,
    root: Hash256,
    i: int,
)
    requires
        t.commits_to(leaves),
        0 <= i < leaves.len(),
        t.root == Some(root),
        p.leaf_index as int == i,
        p.initial_level_size as int == proof_size(leaves.len() as int),
        hashes_view(p.proof_hashes@) == if leaves.len() == 1 {
            Seq::<Seq<u8>>::empty()
        } else {
            sibs_spec(t.levels_view(), i)
        },
    ensures
        p.verify_spec(root@, leaves[i]),
{
    let ls = t.levels_view();
    let lh = leaf_hashes(leaves);
    assert(ls[0] == pad_even(lh));
    if leaves.len() == 1 {
        assert(p.initial_level_size == 1);
        assert(ls[0].len() == 2);
        if ls.len() > 2 {
            assert(ls[1] == level_up(ls[0]));
            assert(ls[1].len() == 1);
            assert(ls[1].len() > 1);
        }
        assert(ls.len() == 2);
        assert(ls[1] == level_up(ls[0]));
        assert(ls[0][0] == lh[0]);
        assert(ls[0][1] == lh[0]);
        assert(pad_even(ls[0]) == ls[0]);
        assert(ls[1][0] == internal_hash_spec(ls[0][0], ls[0][1]));
        assert(ls.last() == ls[1]);
        assert(root@ == internal_hash_spec(leaf_hash_spec(leaves[0]), leaf_hash_spec(leaves[0])));
    } else {
        assert(p.initial_level_size as int == padded_count(leaves.len() as int));
        assert(ls[0].len() == padded_count(leaves.len() as int));
        assert(0 <= i < lh.len());
        assert(ls[0][i] == lh[i]);
        assert(lh[i] == leaf_hash_spec(leaves[i]));
        lemma_climb_correct(ls, i);
        assert(p.initial_level_size != 1);
    }
}

} // verus!
