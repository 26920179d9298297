//! Building the flattened tree, level after level, leaves first.
use vstd::prelude::*;
use crate::error::MerkleError;
use crate::hashing::{NodeHash, leaf_hash, pair_hash, carry_hash, hash_leaf, hash_pair, hash_carry};

verus! {

/// `ceil(n / 2)`: the length of the level above one of length `n`.
pub open spec fn ceil_half(n: nat) -> nat {
    (n + 1) / 2
}

/// The number of nodes in a tree over `n` leaves: the sum of the lengths
/// of its levels.
pub open spec fn tree_size(n: nat) -> nat
    decreases n,
{
    if n <= 1 {
        n
    } else {
        n + tree_size(ceil_half(n))
    }
}

/// The level above `lv`: adjacent pairs combined by `pair`, and a trailing
/// node without a sibling combined alone by `carry`.
pub open spec fn next_level<A>(lv: Seq<A>, pair: spec_fn(A, A) -> A, carry: spec_fn(A) -> A) -> Seq<A> {
    Seq::new(
        ceil_half(lv.len()),
        |j: int|
            if 2 * j + 1 < lv.len() {
                pair(lv[2 * j], lv[2 * j + 1])
            } else {
                carry(lv[2 * j])
            },
    )
}

/// `lv` followed by every level above it, up to the one of length one.
pub open spec fn levels_from<A>(lv: Seq<A>, pair: spec_fn(A, A) -> A, carry: spec_fn(A) -> A) -> Seq<A>
    decreases lv.len(),
{
    if lv.len() <= 1 {
        lv
    } else {
        lv + levels_from(next_level(lv, pair, carry), pair, carry)
    }
}

/// Two nodes hashed in order.
pub open spec fn hash_pairing() -> spec_fn(Seq<u8>, Seq<u8>) -> Seq<u8> {
    |a: Seq<u8>, b: Seq<u8>| pair_hash(a, b)
}

/// A node without a sibling hashed alone.
pub open spec fn hash_carrying() -> spec_fn(Seq<u8>) -> Seq<u8> {
    |a: Seq<u8>| carry_hash(a)
}

/// The byte strings of a sequence of digests.
pub open spec fn hash_seq(t: Seq<NodeHash>) -> Seq<Seq<u8>> {
    t.map_values(|h: NodeHash| h@)
}

/// The leaf level: the hash of each value.
pub open spec fn leaf_level(leaves: Seq<i32>) -> Seq<Seq<u8>> {
    leaves.map_values(|v: i32| leaf_hash(v))
}

/// The flattened tree over `leaves`.
pub open spec fn tree_of(leaves: Seq<i32>) -> Seq<Seq<u8>> {
    levels_from(leaf_level(leaves), hash_pairing(), hash_carrying())
}

/// The root of a flattened tree: its last node.
pub open spec fn root_of(tree: Seq<Seq<u8>>) -> Seq<u8> {
    tree.last()
}

/// Two numbers summed.
pub open spec fn sum_pairing() -> spec_fn(int, int) -> int {
    |a: int, b: int| a + b
}

/// A number carried unchanged.
pub open spec fn sum_carrying() -> spec_fn(int) -> int {
    |a: int| a
}

/// The flattened tree of sums over `values`: each inner node the sum of its
/// children, a node without a sibling copied upward.
pub open spec fn sum_tree_of(values: Seq<u64>) -> Seq<int> {
    levels_from(int_seq(values), sum_pairing(), sum_carrying())
}

/// The numbers of a sequence of `u64`.
pub open spec fn int_seq(s: Seq<u64>) -> Seq<int> {
    s.map_values(|x: u64| x as int)
}

pub proof fn lemma_ceil_half(n: nat)
    ensures
        n >= 2 ==> ceil_half(n) < n,
        n >= 1 ==> ceil_half(n) >= 1,
        ceil_half(n) * 2 == n || ceil_half(n) * 2 == n + 1,
{
}

/// A tree over `n >= 1` leaves has at least `n` nodes.
pub proof fn lemma_tree_size_ge(n: nat)
    ensures
        tree_size(n) >= n,
        n >= 1 ==> tree_size(n) >= 2 * n - 1,
    decreases n,
{
    if n > 1 {
        lemma_ceil_half(n);
        lemma_tree_size_ge(ceil_half(n));
    }
}

/// The flattened levels have `tree_size` nodes, begin with `lv`, and end with
/// the one node of the top level.
pub proof fn lemma_levels_shape<A>(lv: Seq<A>, pair: spec_fn(A, A) -> A, carry: spec_fn(A) -> A)
    ensures
        levels_from(lv, pair, carry).len() == tree_size(lv.len()),
        levels_from(lv, pair, carry).subrange(0, lv.len() as int) == lv,
        lv.len() >= 1 ==> levels_from(lv, pair, carry).len() >= 1,
    decreases lv.len(),
{
    if lv.len() > 1 {
        let next = next_level(lv, pair, carry);
        lemma_ceil_half(lv.len());
        lemma_levels_shape(next, pair, carry);
        assert(levels_from(lv, pair, carry).subrange(0, lv.len() as int) =~= lv);
    } else {
        assert(lv.subrange(0, lv.len() as int) =~= lv);
    }
}

/// The number of nodes in a tree over `n` leaves, where `usize` can count
/// them.
pub fn tree_len(n: usize) -> (r: Option<usize>)
    ensures
        r == (if tree_size(n as nat) <= usize::MAX {
            Some(tree_size(n as nat) as usize)
        } else {
            None::<usize>
        }),
{
    let mut total: usize = 0;
    let mut el: usize = n;
    while el > 1
        invariant
            total + tree_size(el as nat) == tree_size(n as nat),
        decreases el,
    {
        proof {
            lemma_ceil_half(el as nat);
            lemma_tree_size_ge(ceil_half(el as nat));
        }
        if total > usize::MAX - el {
            return None;
        }
        total = total + el;
        el = el / 2 + el % 2;
    }
    if total > usize::MAX - el {
        return None;
    }
    Some(total + el)
}

/// The level above `level`, computed.
fn next_hash_level(level: &Vec<NodeHash>) -> (r: Vec<NodeHash>)
    ensures
        hash_seq(r@) == next_level(hash_seq(level@), hash_pairing(), hash_carrying()),
{
    let len = level.len();
    let half = len / 2;
    let ghost want = next_level(hash_seq(level@), hash_pairing(), hash_carrying());
    let mut r: Vec<NodeHash> = Vec::new();
    let mut j: usize = 0;
    while j < half
        invariant
            half == len / 2,
            len == level.len(),
            j <= half,
            want == next_level(hash_seq(level@), hash_pairing(), hash_carrying()),
            r@.len() == j,
            hash_seq(r@) =~= want.subrange(0, j as int),
        decreases half - j,
    {
        let h = hash_pair(&level[2 * j], &level[2 * j + 1]);
        let ghost prev = r@;
        r.push(h);
        assert(hash_seq(r@) =~= hash_seq(prev).push(h@));
        assert(want[j as int] == h@);
        assert(want.subrange(0, j + 1) =~= want.subrange(0, j as int).push(h@));
        j = j + 1;
    }
    if len % 2 == 1 {
        let h = hash_carry(&level[len - 1]);
        let ghost prev = r@;
        r.push(h);
        assert(hash_seq(r@) =~= hash_seq(prev).push(h@));
        assert(want[j as int] == h@);
    }
    assert(hash_seq(r@) =~= want);
    r
}

/// Hashes every leaf value, in order.
fn hash_leaves(leaves: &Vec<i32>) -> (r: Vec<NodeHash>)
    ensures
        r@.len() == leaves@.len(),
        hash_seq(r@) == leaf_level(leaves@),
{
    let mut r: Vec<NodeHash> = Vec::new();
    let mut i: usize = 0;
    while i < leaves.len()
        invariant
            i <= leaves.len(),
            r@.len() == i,
            hash_seq(r@) =~= leaf_level(leaves@).subrange(0, i as int),
        decreases leaves.len() - i,
    {
        let h = hash_leaf(leaves[i]);
        let ghost prev = r@;
        r.push(h);
        assert(hash_seq(r@) =~= hash_seq(prev).push(h@));
        assert(leaf_level(leaves@).subrange(0, i + 1) =~= leaf_level(leaves@).subrange(0, i as int).push(h@));
        i = i + 1;
    }
    assert(hash_seq(r@) =~= leaf_level(leaves@));
    r
}

/// Builds the flattened tree over `leaves`: the leaf hashes, then each level
/// above them, the root last.
pub fn build_tree(leaves: &Vec<i32>) -> (r: Result<Vec<NodeHash>, MerkleError>)
    ensures
        leaves@.len() == 0 ==> r == Err::<Vec<NodeHash>, MerkleError>(MerkleError::EmptyInput),
        leaves@.len() > 0 ==> r is Ok && hash_seq(r->Ok_0@) == tree_of(leaves@),
        leaves@.len() > 0 ==> r->Ok_0@.len() == tree_size(leaves@.len()),
{
    if leaves.len() == 0 {
        return Err(MerkleError::EmptyInput);
    }
    let mut level = hash_leaves(leaves);
    let mut out: Vec<NodeHash> = Vec::new();
    while level.len() > 1
        invariant
            level.len() >= 1,
            hash_seq(out@) + levels_from(hash_seq(level@), hash_pairing(), hash_carrying())
                == tree_of(leaves@),
        decreases level.len(),
    {
        let mut next = next_hash_level(&level);
        proof {
            lemma_ceil_half(level@.len());
        }
        let ghost before = out@;
        let ghost lv = level@;
        out.append(&mut level);
        assert(hash_seq(out@) =~= hash_seq(before) + hash_seq(lv));
        assert(hash_seq(out@) + levels_from(hash_seq(next@), hash_pairing(), hash_carrying())
            =~= hash_seq(before) + levels_from(hash_seq(lv), hash_pairing(), hash_carrying()));
        level = next;
    }
    let ghost before = out@;
    let ghost lv = level@;
    out.append(&mut level);
    assert(hash_seq(out@) =~= hash_seq(before) + hash_seq(lv));
    proof {
        lemma_levels_shape(leaf_level(leaves@), hash_pairing(), hash_carrying());
    }
    Ok(out)
}

/// The sum of a sequence of numbers.
pub open spec fn seq_sum(s: Seq<int>) -> int
    decreases s.len(),
{
    if s.len() == 0 {
        0
    } else {
        s[0] + seq_sum(s.drop_first())
    }
}

/// Every number of the sequence is at least zero.
pub open spec fn all_nonneg(s: Seq<int>) -> bool {
    forall|k: int| 0 <= k < s.len() ==> 0 <= #[trigger] s[k]
}

/// No element of a sequence of non-negative numbers exceeds its sum.
pub proof fn lemma_elements_below_sum(s: Seq<int>)
    requires
        all_nonneg(s),
    ensures
        forall|k: int| 0 <= k < s.len() ==> #[trigger] s[k] <= seq_sum(s),
        seq_sum(s) >= 0,
    decreases s.len(),
{
    if s.len() > 0 {
        let t = s.drop_first();
        assert(all_nonneg(t)) by {
            assert forall|k: int| 0 <= k < t.len() implies 0 <= #[trigger] t[k] by {
                assert(t[k] == s[k + 1]);
            }
        }
        lemma_elements_below_sum(t);
        assert forall|k: int| 0 <= k < s.len() implies #[trigger] s[k] <= seq_sum(s) by {
            if k > 0 {
                assert(s[k] == t[k - 1]);
            }
        }
    }
}

/// The level of sums above `lv` has the same sum as `lv`, and is
/// non-negative where `lv` is.
pub proof fn lemma_next_sum(lv: Seq<int>)
    ensures
        seq_sum(next_level(lv, sum_pairing(), sum_carrying())) == seq_sum(lv),
        all_nonneg(lv) ==> all_nonneg(next_level(lv, sum_pairing(), sum_carrying())),
    decreases lv.len(),
{
    let next = next_level(lv, sum_pairing(), sum_carrying());
    if lv.len() == 0 {
        assert(next.len() == 0);
    } else if lv.len() == 1 {
        assert(next[0] == lv[0]);
        assert(next.drop_first() =~= Seq::<int>::empty());
        assert(lv.drop_first() =~= Seq::<int>::empty());
    } else if lv.len() >= 2 {
        let rest = lv.subrange(2, lv.len() as int);
        let up = next_level(rest, sum_pairing(), sum_carrying());
        lemma_next_sum(rest);
        assert(next.drop_first() =~= up);
        assert(lv.drop_first().drop_first() =~= rest);
        assert(next[0] == lv[0] + lv[1]);
        assert(seq_sum(next) == next[0] + seq_sum(up));
        assert(seq_sum(lv.drop_first()) == lv[1] + seq_sum(rest));
        if all_nonneg(lv) {
            assert(all_nonneg(rest)) by {
                assert forall|k: int| 0 <= k < rest.len() implies 0 <= #[trigger] rest[k] by {
                    assert(rest[k] == lv[k + 2]);
                }
            }
            assert forall|k: int| 0 <= k < next.len() implies 0 <= #[trigger] next[k] by {
                if k > 0 {
                    assert(next[k] == up[k - 1]);
                }
            }
        }
    }
}

/// In a tree of sums over non-negative numbers, no node exceeds their sum.
pub proof fn lemma_sum_tree_bounded(lv: Seq<int>)
    requires
        all_nonneg(lv),
    ensures
        forall|k: int|
            0 <= k < levels_from(lv, sum_pairing(), sum_carrying()).len() ==> #[trigger] levels_from(
                lv,
                sum_pairing(),
                sum_carrying(),
            )[k] <= seq_sum(lv),
    decreases lv.len(),
{
    lemma_elements_below_sum(lv);
    if lv.len() > 1 {
        let next = next_level(lv, sum_pairing(), sum_carrying());
        lemma_ceil_half(lv.len());
        lemma_next_sum(lv);
        lemma_sum_tree_bounded(next);
        let all = levels_from(lv, sum_pairing(), sum_carrying());
        assert(all == lv + levels_from(next, sum_pairing(), sum_carrying()));
    }
}

/// The level of sums above `level`.
fn next_sum_level(level: &Vec<u64>) -> (r: Vec<u64>)
    requires
        forall|j: int|
            0 <= j < ceil_half(level@.len()) ==> #[trigger] next_level(int_seq(level@), sum_pairing(), sum_carrying())[j]
                <= u64::MAX,
    ensures
        int_seq(r@) == next_level(int_seq(level@), sum_pairing(), sum_carrying()),
{
    let len = level.len();
    let half = len / 2;
    let ghost want = next_level(int_seq(level@), sum_pairing(), sum_carrying());
    let mut r: Vec<u64> = Vec::new();
    let mut j: usize = 0;
    while j < half
        invariant
            half == len / 2,
            len == level.len(),
            j <= half,
            want == next_level(int_seq(level@), sum_pairing(), sum_carrying()),
            forall|k: int| 0 <= k < want.len() ==> #[trigger] want[k] <= u64::MAX,
            r@.len() == j,
            int_seq(r@) =~= want.subrange(0, j as int),
        decreases half - j,
    {
        assert(want[j as int] == level@[2 * j as int] + level@[2 * j + 1]);
        let x = level[2 * j] + level[2 * j + 1];
        let ghost prev = r@;
        r.push(x);
        assert(int_seq(r@) =~= int_seq(prev).push(x as int));
        assert(want.subrange(0, j + 1) =~= want.subrange(0, j as int).push(x as int));
        j = j + 1;
    }
    if len % 2 == 1 {
        let x = level[len - 1];
        let ghost prev = r@;
        r.push(x);
        assert(int_seq(r@) =~= int_seq(prev).push(x as int));
        assert(want[j as int] == x as int);
    }
    assert(int_seq(r@) =~= want);
    r
}

/// Builds the flattened tree of sums over `values`: each inner node is the
/// sum of its two children, and a node without a sibling is copied upward
/// unchanged.
pub fn gen_proof(values: &Vec<u64>) -> (r: Result<Vec<u64>, MerkleError>)
    requires
        seq_sum(int_seq(values@)) <= u64::MAX,
    ensures
        values@.len() == 0 ==> r == Err::<Vec<u64>, MerkleError>(MerkleError::EmptyInput),
        values@.len() > 0 ==> r is Ok && int_seq(r->Ok_0@) == sum_tree_of(values@),
{
    if values.len() == 0 {
        return Err(MerkleError::EmptyInput);
    }
    let ghost target = sum_tree_of(values@);
    proof {
        lemma_sum_tree_bounded(int_seq(values@));
    }
    let mut level: Vec<u64> = Vec::new();
    let mut i: usize = 0;
    while i < values.len()
        invariant
            i <= values.len(),
            level@ =~= values@.subrange(0, i as int),
        decreases values.len() - i,
    {
        level.push(values[i]);
        i = i + 1;
    }
    let mut out: Vec<u64> = Vec::new();
    assert(level@ =~= values@);
    assert(int_seq(out@) + target =~= target);
    while level.len() > 1
        invariant
            target == sum_tree_of(values@),
            forall|k: int| 0 <= k < target.len() ==> #[trigger] target[k] <= u64::MAX,
            int_seq(out@) + levels_from(int_seq(level@), sum_pairing(), sum_carrying()) == target,
        decreases level.len(),
    {
        let ghost lv = int_seq(level@);
        let ghost next = next_level(lv, sum_pairing(), sum_carrying());
        proof {
            lemma_ceil_half(level@.len());
            lemma_levels_shape(next, sum_pairing(), sum_carrying());
            let rest = levels_from(next, sum_pairing(), sum_carrying());
            assert forall|j: int| 0 <= j < ceil_half(level@.len()) implies #[trigger] next[j] <= u64::MAX by {
                assert(rest.subrange(0, next.len() as int)[j] == next[j]);
                assert(target[out@.len() + lv.len() + j] == next[j]);
            }
        }
        let mut up = next_sum_level(&level);
        let ghost before = out@;
        let ghost cur = level@;
        out.append(&mut level);
        assert(int_seq(out@) =~= int_seq(before) + int_seq(cur));
        assert(int_seq(out@) + levels_from(int_seq(up@), sum_pairing(), sum_carrying())
            =~= int_seq(before) + levels_from(int_seq(cur), sum_pairing(), sum_carrying()));
        level = up;
    }
    let ghost before = out@;
    let ghost cur = level@;
    out.append(&mut level);
    assert(int_seq(out@) =~= int_seq(before) + int_seq(cur));
    Ok(out)
}

} // verus!
