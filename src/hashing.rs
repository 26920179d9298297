//! The hash primitive and the three ways the tree applies it.
use vstd::prelude::*;
use parity_scale_codec::Encode;
use sp_runtime::traits::BlakeTwo256;

verus! {

/// A 32-byte digest: a node of the tree.
pub type NodeHash = [u8; 32];

/// What the Blake2b-256 digest of a byte string is.
pub uninterp spec fn blake2_256_of(data: Seq<u8>) -> Seq<u8>;

/// The four little-endian bytes of the two's complement form of `v`.
pub open spec fn le_bytes_i32(v: i32) -> Seq<u8> {
    let u: int = if v >= 0 { v as int } else { v as int + 0x1_0000_0000 };
    seq![
        (u % 0x100) as u8,
        ((u / 0x100) % 0x100) as u8,
        ((u / 0x1_0000) % 0x100) as u8,
        ((u / 0x100_0000) % 0x100) as u8,
    ]
}

/// The hash of a leaf value: the digest of its canonical encoding.
pub open spec fn leaf_hash(v: i32) -> Seq<u8> {
    blake2_256_of(le_bytes_i32(v))
}

/// The hash of two adjacent nodes, the left one first.
pub open spec fn pair_hash(left: Seq<u8>, right: Seq<u8>) -> Seq<u8> {
    blake2_256_of(left + right)
}

/// The hash that carries a node without a sibling up one level.
pub open spec fn carry_hash(node: Seq<u8>) -> Seq<u8> {
    blake2_256_of(node)
}

/// Relies on `<BlakeTwo256 as Hash>::hash`: the Blake2b-256 digest of the
/// bytes, whose 32 bytes are taken out of the `H256` it returns.
#[verifier::external_body]
fn blake2_256_digest(data: &Vec<u8>) -> (r: NodeHash)
    ensures
        r@ == blake2_256_of(data@),
{
    <BlakeTwo256 as sp_runtime::traits::Hash>::hash(data.as_slice()).0
}

/// Relies on `Encode::encode` of parity-scale-codec for `i32`: the value's
/// little-endian bytes.
#[verifier::external_body]
fn scale_encode_i32(v: i32) -> (r: Vec<u8>)
    ensures
        r@ == le_bytes_i32(v),
{
    v.encode()
}

/// Appends the bytes of `h` to `out`.
fn push_hash(out: &mut Vec<u8>, h: &NodeHash)
    ensures
        final(out)@ == old(out)@ + h@,
{
    let ghost start = out@;
    let mut i: usize = 0;
    while i < 32
        invariant
            i <= 32,
            out@ == start + h@.subrange(0, i as int),
        decreases 32 - i,
    {
        out.push(h[i]);
        i = i + 1;
    }
    assert(h@.subrange(0, 32) == h@);
}

/// Hashes a leaf value.
pub fn hash_leaf(v: i32) -> (r: NodeHash)
    ensures
        r@ == leaf_hash(v),
{
    let bytes = scale_encode_i32(v);
    blake2_256_digest(&bytes)
}

/// Hashes two nodes in order, `left` first.
pub fn hash_pair(left: &NodeHash, right: &NodeHash) -> (r: NodeHash)
    ensures
        r@ == pair_hash(left@, right@),
{
    let mut bytes: Vec<u8> = Vec::new();
    push_hash(&mut bytes, left);
    push_hash(&mut bytes, right);
    blake2_256_digest(&bytes)
}

/// Hashes a node alone, to carry it to the next level.
pub fn hash_carry(node: &NodeHash) -> (r: NodeHash)
    ensures
        r@ == carry_hash(node@),
{
    let mut bytes: Vec<u8> = Vec::new();
    push_hash(&mut bytes, node);
    blake2_256_digest(&bytes)
}

/// Compares two digests byte by byte.
pub fn hashes_equal(a: &NodeHash, b: &NodeHash) -> (r: bool)
    ensures
        r == (a@ == b@),
{
    let mut i: usize = 0;
    while i < 32
        invariant
            i <= 32,
            a@.len() == 32,
            b@.len() == 32,
            forall|j: int| 0 <= j < i ==> a@[j] == b@[j],
        decreases 32 - i,
    {
        if a[i] != b[i] {
            return false;
        }
        i = i + 1;
    }
    assert(a@ =~= b@);
    true
}

} // verus!
