//! Sibling positions along the way from a leaf to the root, found by index
//! arithmetic alone.
use vstd::prelude::*;
use crate::error::MerkleError;
use crate::tree::{ceil_half, tree_size, tree_len, lemma_ceil_half, lemma_tree_size_ge};

verus! {

/// The number of halvings, each rounding up, that take `n` down to one: the
/// height of a tree over `n` leaves.
pub open spec fn height(n: nat) -> nat
    decreases n,
{
    if n <= 1 {
        0
    } else {
        1 + height(ceil_half(n))
    }
}

/// The entry for the node at 1-based position `idx` of a level of length
/// `el` that starts after `offset` nodes: `None` where it is the level's
/// trailing node without a sibling, else the 1-based position of its sibling
/// in the whole tree.
pub open spec fn path_entry(el: nat, idx: nat, offset: nat) -> Option<nat> {
    if idx % 2 == 1 && idx == el {
        None
    } else if idx % 2 == 1 {
        Some(offset + idx + 1)
    } else {
        Some((offset + idx - 1) as nat)
    }
}

/// The entries from the node at 1-based position `idx` of a level of length
/// `el`, which starts after `offset` nodes, up to the root.
pub open spec fn path_from(el: nat, idx: nat, offset: nat) -> Seq<Option<nat>>
    decreases el,
{
    if el <= 1 {
        seq![]
    } else {
        seq![path_entry(el, idx, offset)] + path_from(ceil_half(el), ceil_half(idx), offset + el)
    }
}

/// A computed path, with its positions as numbers.
pub open spec fn path_view(p: Seq<Option<usize>>) -> Seq<Option<nat>> {
    p.map_values(|o: Option<usize>|
        match o {
            Some(x) => Some(x as nat),
            None => None,
        })
}

/// A path has one entry per level below the root.
pub proof fn lemma_path_len(el: nat, idx: nat, offset: nat)
    ensures
        path_from(el, idx, offset).len() == height(el),
    decreases el,
{
    if el > 1 {
        lemma_ceil_half(el);
        lemma_path_len(ceil_half(el), ceil_half(idx), offset + el);
    }
}

/// The path from the leaf at 1-based position `index`, in a tree over `len`
/// leaves, to the root: per level, the position of the sibling, or `None`
/// where the node has no sibling and is carried up alone.
pub fn merkle_path(len: usize, index: usize) -> (r: Result<Vec<Option<usize>>, MerkleError>)
    ensures
        (index == 0 || index > len) ==> r == Err::<Vec<Option<usize>>, MerkleError>(
            MerkleError::InvalidIndex,
        ),
        (1 <= index <= len && tree_size(len as nat) > usize::MAX) ==> r == Err::<
            Vec<Option<usize>>,
            MerkleError,
        >(MerkleError::Overflow),
        (1 <= index <= len && tree_size(len as nat) <= usize::MAX) ==> {
            &&& r is Ok
            &&& path_view(r->Ok_0@) == path_from(len as nat, index as nat, 0)
            &&& r->Ok_0@.len() == height(len as nat)
        },
{
    if index == 0 || index > len {
        return Err(MerkleError::InvalidIndex);
    }
    if tree_len(len).is_none() {
        return Err(MerkleError::Overflow);
    }
    let ghost want = path_from(len as nat, index as nat, 0);
    let mut path: Vec<Option<usize>> = Vec::new();
    let mut offset: usize = 0;
    let mut el: usize = len;
    let mut idx: usize = index;
    assert(path_view(path@) + want =~= want);
    while el != 1
        invariant
            1 <= idx <= el,
            offset + tree_size(el as nat) == tree_size(len as nat),
            tree_size(len as nat) <= usize::MAX,
            want == path_from(len as nat, index as nat, 0),
            path_view(path@) + path_from(el as nat, idx as nat, offset as nat) == want,
        decreases el,
    {
        proof {
            lemma_ceil_half(el as nat);
            lemma_tree_size_ge(ceil_half(el as nat));
        }
        let ghost prev = path@;
        let ghost rest = path_from(el as nat, idx as nat, offset as nat);
        let entry: Option<usize> = if idx % 2 == 1 && idx == el {
            None
        } else if idx % 2 == 1 {
            Some(offset + idx + 1)
        } else {
            Some(offset + idx - 1)
        };
        path.push(entry);
        offset = offset + el;
        idx = idx / 2 + idx % 2;
        el = el / 2 + el % 2;
        assert(path_view(path@) =~= path_view(prev).push(rest[0]));
        assert(rest =~= seq![rest[0]] + path_from(el as nat, idx as nat, offset as nat));
        assert(path_view(path@) + path_from(el as nat, idx as nat, offset as nat) =~= path_view(prev)
            + rest);
    }
    proof {
        lemma_path_len(len as nat, index as nat, 0);
    }
    assert(path_view(path@) =~= want);
    Ok(path)
}

} // verus!
