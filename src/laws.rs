//! What holds across building, path finding, extraction and checking.
use vstd::prelude::*;
use vstd::arithmetic::div_mod::{lemma_div_denominator, lemma_fundamental_div_mod};
use crate::error::MerkleError;
use crate::hashing::{blake2_256_of, le_bytes_i32, leaf_hash, pair_hash, carry_hash};
use crate::inclusion::{capacity, climb, proof_for, select_entries, verify_outcome};
use crate::path::{height, path_entry, path_from, lemma_path_len};
use crate::tree::{
    ceil_half, tree_size, next_level, levels_from, hash_pairing, hash_carrying, leaf_level, tree_of,
    root_of, sum_tree_of, lemma_ceil_half, lemma_tree_size_ge, lemma_levels_shape,
};

verus! {

/// Climbing from the node at 1-based position `idx` of level `lv`, with the
/// siblings that its path picks out of a tree that holds `lv` and the levels
/// above it from `offset` on, reaches the top node of those levels.
pub proof fn lemma_climb_reaches_top(lv: Seq<Seq<u8>>, idx: nat, offset: nat, t: Seq<Seq<u8>>)
    requires
        1 <= idx <= lv.len(),
        offset + tree_size(lv.len()) <= t.len(),
        t.subrange(offset as int, (offset + tree_size(lv.len())) as int) == levels_from(
            lv,
            hash_pairing(),
            hash_carrying(),
        ),
    ensures
        climb(lv[idx - 1], idx, select_entries(t, path_from(lv.len(), idx, offset))) == levels_from(
            lv,
            hash_pairing(),
            hash_carrying(),
        ).last(),
    decreases lv.len(),
{
    let el = lv.len();
    let all = levels_from(lv, hash_pairing(), hash_carrying());
    lemma_levels_shape(lv, hash_pairing(), hash_carrying());
    if el <= 1 {
        assert(path_from(el, idx, offset) =~= Seq::<Option<nat>>::empty());
        assert(select_entries(t, path_from(el, idx, offset)) =~= Seq::<Option<Seq<u8>>>::empty());
    } else {
        let next = next_level(lv, hash_pairing(), hash_carrying());
        let rest = levels_from(next, hash_pairing(), hash_carrying());
        lemma_ceil_half(el);
        lemma_ceil_half(idx);
        lemma_tree_size_ge(ceil_half(el));
        lemma_levels_shape(next, hash_pairing(), hash_carrying());
        let up_idx = ceil_half(idx);
        let up_off = offset + el;
        let path = path_from(el, idx, offset);
        let sel = select_entries(t, path);
        let up_path = path_from(ceil_half(el), up_idx, up_off);
        assert(all == lv + rest);
        // the sibling, where there is one, is the node next to `idx` in `lv`
        assert forall|k: int| 0 <= k < el implies t[offset + k] == lv[k] by {
            assert(t.subrange(offset as int, (offset + tree_size(el)) as int)[k] == all[k]);
        }
        let cur = lv[idx - 1];
        let step = match sel[0] {
            Some(h) => if idx % 2 == 1 {
                pair_hash(cur, h)
            } else {
                pair_hash(h, cur)
            },
            None => carry_hash(cur),
        };
        assert(path[0] == path_entry(el, idx, offset));
        assert(step == next[up_idx - 1]);
        // the levels above sit right after `lv`
        assert(t.subrange(up_off as int, (up_off + tree_size(ceil_half(el))) as int) =~= rest) by {
            assert forall|k: int| 0 <= k < rest.len() implies t.subrange(
                up_off as int,
                (up_off + tree_size(ceil_half(el))) as int,
            )[k] == rest[k] by {
                assert(t.subrange(offset as int, (offset + tree_size(el)) as int)[el + k] == all[el + k]);
            }
        }
        lemma_climb_reaches_top(next, up_idx, up_off, t);
        assert(sel.drop_first() =~= select_entries(t, up_path));
        assert(all.last() == rest.last());
    }
}

/// `2^height(n)` is at least `n`, and for `n >= 2` at most `2n - 2`.
pub proof fn lemma_capacity_of_height(n: nat)
    requires
        n >= 1,
    ensures
        n <= capacity(height(n)),
        n >= 2 ==> capacity(height(n)) <= 2 * n - 2,
    decreases n,
{
    if n >= 2 {
        let c = ceil_half(n);
        lemma_ceil_half(n);
        lemma_capacity_of_height(c);
        assert(height(n) == 1 + height(c));
        assert(capacity(height(n)) == 2 * capacity(height(c)));
    }
}

/// Round trip: for every non-empty sequence of leaves and every position in
/// it, the proof extracted from the built tree checks the leaf's value
/// against the tree's root.
pub proof fn lemma_round_trip(leaves: Seq<i32>, i: nat)
    requires
        0 < leaves.len(),
        i < leaves.len(),
        tree_size(leaves.len()) <= usize::MAX,
    ensures
        verify_outcome(
            proof_for(tree_of(leaves), leaves.len(), i),
            leaves[i as int],
            i,
            root_of(tree_of(leaves)),
        ) == Ok::<bool, MerkleError>(true),
{
    let n = leaves.len();
    let lv = leaf_level(leaves);
    let t = tree_of(leaves);
    lemma_levels_shape(lv, hash_pairing(), hash_carrying());
    assert(t.subrange(0, tree_size(n) as int) =~= t);
    lemma_climb_reaches_top(lv, i + 1, 0, t);
    lemma_path_len(n, i + 1, 0);
    lemma_capacity_of_height(n);
    lemma_tree_size_ge(n);
    let p = proof_for(t, n, i);
    assert(p.len() == height(n));
    assert(lv[i as int] == leaf_hash(leaves[i as int]));
}

/// A root other than the tree's own fails the check of a proof that the
/// tree gave.
pub proof fn lemma_other_root_rejected(leaves: Seq<i32>, i: nat, root: Seq<u8>)
    requires
        0 < leaves.len(),
        i < leaves.len(),
        tree_size(leaves.len()) <= usize::MAX,
        root != root_of(tree_of(leaves)),
    ensures
        verify_outcome(proof_for(tree_of(leaves), leaves.len(), i), leaves[i as int], i, root)
            == Ok::<bool, MerkleError>(false),
{
    lemma_round_trip(leaves, i);
}

/// A single leaf: the tree is that leaf's hash alone, its path is empty, and
/// an empty proof checks a value exactly where the value's hash is the root.
pub proof fn lemma_single_leaf(leaf: i32, value: i32, root: Seq<u8>)
    ensures
        tree_of(seq![leaf]) == seq![leaf_hash(leaf)],
        path_from(1, 1, 0).len() == 0,
        verify_outcome(Seq::empty(), value, 0, root) == Ok::<bool, MerkleError>(leaf_hash(value) == root),
{
    assert(leaf_level(seq![leaf]) =~= seq![leaf_hash(leaf)]);
}

/// Building is deterministic: equal leaf sequences give equal trees, and so
/// equal roots.
pub proof fn lemma_build_deterministic(a: Seq<i32>, b: Seq<i32>)
    requires
        a == b,
    ensures
        tree_of(a) == tree_of(b),
        root_of(tree_of(a)) == root_of(tree_of(b)),
{
}

/// Building the tree of sums is deterministic: equal value sequences give
/// equal trees.
pub proof fn lemma_sum_tree_deterministic(a: Seq<u64>, b: Seq<u64>)
    requires
        a == b,
    ensures
        sum_tree_of(a) == sum_tree_of(b),
{
}

/// Height law: from any position of a level of `n >= 1` nodes the path has
/// one entry per rounding-up halving that takes `n` to one, whatever the
/// position; that number is the least `h` with `2^h >= n`.
pub proof fn lemma_height_law(n: nat, idx: nat)
    requires
        n >= 1,
    ensures
        path_from(n, idx, 0).len() == height(n),
        n <= capacity(height(n)),
        height(n) > 0 ==> capacity((height(n) - 1) as nat) < n,
{
    lemma_path_len(n, idx, 0);
    lemma_capacity_of_height(n);
    if n >= 2 {
        assert(height(n) == 1 + height(ceil_half(n)));
        assert(capacity(height(n)) == 2 * capacity(height(ceil_half(n))));
    }
}

/// Two different byte strings with the same Blake2b-256 digest exist.
pub open spec fn hash_collision_exists() -> bool {
    exists|a: Seq<u8>, b: Seq<u8>| a != b && blake2_256_of(a) == blake2_256_of(b)
}

/// Two proofs of the same length have siblings at the same levels, each of
/// 32 bytes.
pub open spec fn same_shape(p1: Seq<Option<Seq<u8>>>, p2: Seq<Option<Seq<u8>>>) -> bool {
    &&& p1.len() == p2.len()
    &&& forall|k: int| 0 <= k < p1.len() ==> (#[trigger] p1[k] is Some) == (p2[k] is Some)
    &&& forall|k: int| 0 <= k < p1.len() && #[trigger] p1[k] is Some ==> p1[k]->Some_0.len() == 32
    &&& forall|k: int| 0 <= k < p2.len() && #[trigger] p2[k] is Some ==> p2[k]->Some_0.len() == 32
}

/// Climbs of the same shape that reach the same hash start from the same
/// node with the same proof, or the hash has a collision.
pub proof fn lemma_climb_injective(
    c1: Seq<u8>,
    c2: Seq<u8>,
    idx: nat,
    p1: Seq<Option<Seq<u8>>>,
    p2: Seq<Option<Seq<u8>>>,
)
    requires
        same_shape(p1, p2),
        climb(c1, idx, p1) == climb(c2, idx, p2),
    ensures
        (c1 == c2 && p1 == p2) || hash_collision_exists(),
    decreases p1.len(),
{
    if p1.len() == 0 {
        assert(p1 =~= p2);
    } else {
        let x1 = match p1[0] {
            Some(h) => if idx % 2 == 1 {
                c1 + h
            } else {
                h + c1
            },
            None => c1,
        };
        let x2 = match p2[0] {
            Some(h) => if idx % 2 == 1 {
                c2 + h
            } else {
                h + c2
            },
            None => c2,
        };
        let t1 = p1.drop_first();
        let t2 = p2.drop_first();
        assert(same_shape(t1, t2)) by {
            assert forall|k: int| 0 <= k < t1.len() implies (#[trigger] t1[k] is Some) == (t2[k] is Some) by {
                assert(t1[k] == p1[k + 1] && t2[k] == p2[k + 1]);
            }
            assert forall|k: int| 0 <= k < t1.len() && #[trigger] t1[k] is Some implies t1[k]->Some_0.len() == 32 by {
                assert(t1[k] == p1[k + 1]);
            }
            assert forall|k: int| 0 <= k < t2.len() && #[trigger] t2[k] is Some implies t2[k]->Some_0.len() == 32 by {
                assert(t2[k] == p2[k + 1]);
            }
        }
        lemma_climb_injective(blake2_256_of(x1), blake2_256_of(x2), ceil_half(idx), t1, t2);
        if !hash_collision_exists() {
            if x1 != x2 {
                assert(x1 != x2 && blake2_256_of(x1) == blake2_256_of(x2));
            }
            assert(x1 == x2);
            assert(p1[0] is Some == p2[0] is Some);
            if p1[0] is Some {
                let h1 = p1[0]->Some_0;
                let h2 = p2[0]->Some_0;
                assert(h1.len() == 32 && h2.len() == 32);
                if idx % 2 == 1 {
                    assert(c1 =~= x1.subrange(0, c1.len() as int));
                    assert(c2 =~= x2.subrange(0, c2.len() as int));
                    assert(h1 =~= x1.subrange(c1.len() as int, x1.len() as int));
                    assert(h2 =~= x2.subrange(c2.len() as int, x2.len() as int));
                } else {
                    assert(h1 =~= x1.subrange(0, 32));
                    assert(h2 =~= x2.subrange(0, 32));
                    assert(c1 =~= x1.subrange(32, x1.len() as int));
                    assert(c2 =~= x2.subrange(32, x2.len() as int));
                }
            }
            assert(p1 =~= seq![p1[0]] + t1);
            assert(p2 =~= seq![p2[0]] + t2);
        }
    }
}

/// A number below `2^32` is fixed by its four base-256 digits.
proof fn lemma_digits_determine(x: int, y: int)
    requires
        0 <= x < 0x1_0000_0000,
        0 <= y < 0x1_0000_0000,
        x % 0x100 == y % 0x100,
        (x / 0x100) % 0x100 == (y / 0x100) % 0x100,
        (x / 0x1_0000) % 0x100 == (y / 0x1_0000) % 0x100,
        (x / 0x100_0000) % 0x100 == (y / 0x100_0000) % 0x100,
    ensures
        x == y,
{
    lemma_div_denominator(x, 0x100, 0x100);
    lemma_div_denominator(y, 0x100, 0x100);
    lemma_div_denominator(x, 0x1_0000, 0x100);
    lemma_div_denominator(y, 0x1_0000, 0x100);
    assert(x / 0x100_0000 == y / 0x100_0000);
    lemma_fundamental_div_mod(x / 0x1_0000, 0x100);
    lemma_fundamental_div_mod(y / 0x1_0000, 0x100);
    assert(x / 0x1_0000 == y / 0x1_0000);
    lemma_fundamental_div_mod(x / 0x100, 0x100);
    lemma_fundamental_div_mod(y / 0x100, 0x100);
    assert(x / 0x100 == y / 0x100);
    lemma_fundamental_div_mod(x, 0x100);
    lemma_fundamental_div_mod(y, 0x100);
}

/// Different leaf values have different encodings.
pub proof fn lemma_le_bytes_injective(a: i32, b: i32)
    requires
        le_bytes_i32(a) == le_bytes_i32(b),
    ensures
        a == b,
{
    let ua: int = if a >= 0 { a as int } else { a as int + 0x1_0000_0000 };
    let ub: int = if b >= 0 { b as int } else { b as int + 0x1_0000_0000 };
    assert(le_bytes_i32(a)[0] == le_bytes_i32(b)[0]);
    assert(le_bytes_i32(a)[1] == le_bytes_i32(b)[1]);
    assert(le_bytes_i32(a)[2] == le_bytes_i32(b)[2]);
    assert(le_bytes_i32(a)[3] == le_bytes_i32(b)[3]);
    lemma_digits_determine(ua, ub);
}

/// Tampering is detected: where a proof checks `v1` at `index` against
/// `root`, a proof of the same shape that differs from it, or a different
/// value, fails the check against that root, unless the hash has a
/// collision.
pub proof fn lemma_tamper_detected(
    p1: Seq<Option<Seq<u8>>>,
    p2: Seq<Option<Seq<u8>>>,
    v1: i32,
    v2: i32,
    index: nat,
    root: Seq<u8>,
)
    requires
        verify_outcome(p1, v1, index, root) == Ok::<bool, MerkleError>(true),
        same_shape(p1, p2),
        p1 != p2 || v1 != v2,
    ensures
        verify_outcome(p2, v2, index, root) == Ok::<bool, MerkleError>(false) || hash_collision_exists(),
{
    if verify_outcome(p2, v2, index, root) != Ok::<bool, MerkleError>(false) {
        lemma_climb_injective(leaf_hash(v1), leaf_hash(v2), index + 1, p1, p2);
        if !hash_collision_exists() {
            let e1 = le_bytes_i32(v1);
            let e2 = le_bytes_i32(v2);
            if e1 != e2 {
                assert(e1 != e2 && blake2_256_of(e1) == blake2_256_of(e2));
            }
            lemma_le_bytes_injective(v1, v2);
        }
    }
}

} // verus!
