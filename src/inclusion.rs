//! Inclusion proofs: extracting them from a built tree, and checking them
//! against a root without the tree.
use vstd::prelude::*;
use crate::error::MerkleError;
use crate::hashing::{NodeHash, leaf_hash, pair_hash, carry_hash, hash_leaf, hash_pair, hash_carry, hashes_equal};
use crate::path::{height, path_from, path_view, merkle_path, lemma_path_len};
use crate::tree::{ceil_half, tree_size, hash_seq, lemma_ceil_half, lemma_tree_size_ge};

verus! {

/// One level of a proof: the hash of the node's sibling, or the mark that
/// the node had none and was carried up alone.
#[derive(Debug, Clone, Copy, PartialEq, Eq)]
pub enum PathEntry {
    Sibling(NodeHash),
    Unpaired,
}

/// An entry as the sibling's bytes, or `None` for a node carried alone.
pub open spec fn entry_view(e: PathEntry) -> Option<Seq<u8>> {
    match e {
        PathEntry::Sibling(h) => Some(h@),
        PathEntry::Unpaired => None,
    }
}

/// The entries of a proof, as in `entry_view`.
pub open spec fn proof_view(p: Seq<PathEntry>) -> Seq<Option<Seq<u8>>> {
    p.map_values(|e: PathEntry| entry_view(e))
}

/// The nodes of `tree` at the 1-based positions that `path` names.
pub open spec fn select_entries(tree: Seq<Seq<u8>>, path: Seq<Option<nat>>) -> Seq<Option<Seq<u8>>> {
    path.map_values(|o: Option<nat>|
        match o {
            Some(p) => Some(tree[p - 1]),
            None => None,
        })
}

/// The proof for the leaf at 0-based position `index` of `tree`, a tree over
/// `leaf_count` leaves.
pub open spec fn proof_for(tree: Seq<Seq<u8>>, leaf_count: nat, index: nat) -> Seq<Option<Seq<u8>>> {
    select_entries(tree, path_from(leaf_count, index + 1, 0))
}

/// `2^l`: how many leaves a proof of length `l` can tell apart.
pub open spec fn capacity(l: nat) -> nat
    decreases l,
{
    if l == 0 {
        1
    } else {
        2 * capacity((l - 1) as nat)
    }
}

/// The hash reached from `cur`, the node at 1-based position `idx` of its
/// level, by combining it with each entry of `proof` in turn.
pub open spec fn climb(cur: Seq<u8>, idx: nat, proof: Seq<Option<Seq<u8>>>) -> Seq<u8>
    decreases proof.len(),
{
    if proof.len() == 0 {
        cur
    } else {
        let up = match proof[0] {
            Some(h) => if idx % 2 == 1 {
                pair_hash(cur, h)
            } else {
                pair_hash(h, cur)
            },
            None => carry_hash(cur),
        };
        climb(up, ceil_half(idx), proof.drop_first())
    }
}

/// What checking `proof` for `value` at 0-based position `index` against
/// `root` gives.
pub open spec fn verify_outcome(proof: Seq<Option<Seq<u8>>>, value: i32, index: nat, root: Seq<u8>) -> Result<bool, MerkleError> {
    if capacity(proof.len()) > usize::MAX {
        Err(MerkleError::Overflow)
    } else if index >= capacity(proof.len()) {
        Err(MerkleError::IndexOutOfRange)
    } else {
        Ok(climb(leaf_hash(value), index + 1, proof) == root)
    }
}

/// Every position on a path lies in the part of the tree from the path's
/// level up.
pub proof fn lemma_path_positions(el: nat, idx: nat, offset: nat)
    requires
        1 <= idx <= el,
    ensures
        forall|k: int|
            0 <= k < path_from(el, idx, offset).len() && #[trigger] path_from(el, idx, offset)[k] is Some
                ==> offset + 1 <= path_from(el, idx, offset)[k]->Some_0 <= offset + tree_size(el),
    decreases el,
{
    if el > 1 {
        lemma_ceil_half(el);
        lemma_ceil_half(idx);
        lemma_tree_size_ge(ceil_half(el));
        lemma_path_positions(ceil_half(el), ceil_half(idx), offset + el);
        let rest = path_from(ceil_half(el), ceil_half(idx), offset + el);
        assert forall|k: int|
            0 <= k < path_from(el, idx, offset).len() && #[trigger] path_from(el, idx, offset)[k] is Some
                implies offset + 1 <= path_from(el, idx, offset)[k]->Some_0 <= offset + tree_size(el) by {
            if k > 0 {
                assert(path_from(el, idx, offset)[k] == rest[k - 1]);
            }
        }
    }
}

/// The proof for the leaf at 0-based position `index` of `tree`, a tree over
/// `leaf_count` leaves: for each level, the sibling's hash, or `Unpaired`.
pub fn extract_proof(tree: &Vec<NodeHash>, leaf_count: usize, index: usize) -> (r: Result<Vec<PathEntry>, MerkleError>)
    requires
        tree@.len() == tree_size(leaf_count as nat),
    ensures
        index >= leaf_count ==> r == Err::<Vec<PathEntry>, MerkleError>(MerkleError::InvalidIndex),
        index < leaf_count ==> r is Ok && proof_view(r->Ok_0@) == proof_for(
            hash_seq(tree@),
            leaf_count as nat,
            index as nat,
        ),
        index < leaf_count ==> r->Ok_0@.len() == height(leaf_count as nat),
{
    if index >= leaf_count {
        return Err(MerkleError::InvalidIndex);
    }
    let tree_nodes = tree.len();
    let path = match merkle_path(leaf_count, index + 1) {
        Ok(p) => p,
        Err(e) => {
            return Err(e);
        },
    };
    let ghost pv = path_view(path@);
    let ghost want = proof_for(hash_seq(tree@), leaf_count as nat, index as nat);
    proof {
        lemma_path_positions(leaf_count as nat, (index + 1) as nat, 0);
        lemma_path_len(leaf_count as nat, (index + 1) as nat, 0);
    }
    let mut out: Vec<PathEntry> = Vec::new();
    let mut i: usize = 0;
    while i < path.len()
        invariant
            i <= path.len(),
            tree_nodes == tree@.len(),
            pv == path_view(path@),
            pv == path_from(leaf_count as nat, (index + 1) as nat, 0),
            want == select_entries(hash_seq(tree@), pv),
            forall|k: int|
                0 <= k < pv.len() && #[trigger] pv[k] is Some ==> 1 <= pv[k]->Some_0 <= tree_size(
                    leaf_count as nat,
                ),
            tree@.len() == tree_size(leaf_count as nat),
            out@.len() == i,
            proof_view(out@) =~= want.subrange(0, i as int),
        decreases path.len() - i,
    {
        assert(pv[i as int] is Some ==> path@[i as int] is Some);
        let entry = match path[i] {
            Some(p) => PathEntry::Sibling(tree[p - 1]),
            None => PathEntry::Unpaired,
        };
        let ghost prev = out@;
        out.push(entry);
        assert(proof_view(out@) =~= proof_view(prev).push(entry_view(entry)));
        assert(want.subrange(0, i + 1) =~= want.subrange(0, i as int).push(entry_view(entry)));
        i = i + 1;
    }
    assert(proof_view(out@) =~= want);
    Ok(out)
}

/// Checks that `proof` leads from `value`, the leaf at 0-based position
/// `index`, to `root`. Fails where `index` is not below `2^L` for a proof of
/// length `L`, or where `2^L` does not fit in `usize`.
pub fn verify(proof: &Vec<PathEntry>, value: i32, index: usize, root: &NodeHash) -> (r: Result<bool, MerkleError>)
    ensures
        r == verify_outcome(proof_view(proof@), value, index as nat, root@),
{
    let ghost pv = proof_view(proof@);
    let mut cap: usize = 1;
    let mut k: usize = 0;
    while k < proof.len()
        invariant
            k <= proof.len(),
            cap == capacity(k as nat),
            pv == proof_view(proof@),
        decreases proof.len() - k,
    {
        if cap > usize::MAX / 2 {
            proof {
                lemma_capacity_grows((k + 1) as nat, proof@.len());
            }
            return Err(MerkleError::Overflow);
        }
        cap = cap * 2;
        k = k + 1;
    }
    if index >= cap {
        return Err(MerkleError::IndexOutOfRange);
    }
    let mut cur = hash_leaf(value);
    let mut idx: usize = index + 1;
    let mut i: usize = 0;
    assert(pv.subrange(0, pv.len() as int) =~= pv);
    while i < proof.len()
        invariant
            i <= proof.len(),
            1 <= idx,
            pv == proof_view(proof@),
            climb(cur@, idx as nat, pv.subrange(i as int, pv.len() as int)) == climb(
                leaf_hash(value),
                (index + 1) as nat,
                pv,
            ),
        decreases proof.len() - i,
    {
        let ghost rest = pv.subrange(i as int, pv.len() as int);
        cur = match &proof[i] {
            PathEntry::Sibling(h) => if idx % 2 == 1 {
                hash_pair(&cur, h)
            } else {
                hash_pair(h, &cur)
            },
            PathEntry::Unpaired => hash_carry(&cur),
        };
        idx = idx / 2 + idx % 2;
        i = i + 1;
        assert(rest.drop_first() =~= pv.subrange(i as int, pv.len() as int));
    }
    assert(pv.subrange(pv.len() as int, pv.len() as int) =~= Seq::<Option<Seq<u8>>>::empty());
    Ok(hashes_equal(&cur, root))
}

/// `2^l` grows with `l`.
pub proof fn lemma_capacity_grows(a: nat, b: nat)
    requires
        a <= b,
    ensures
        capacity(a) <= capacity(b),
    decreases b - a,
{
    if a < b {
        lemma_capacity_grows(a, (b - 1) as nat);
    }
}

} // verus!
