use merkle_carry::error::MerkleError;
use merkle_carry::hashing::{hash_carry, hash_leaf, hash_pair, NodeHash};
use merkle_carry::inclusion::{extract_proof, verify, PathEntry};
use merkle_carry::path::merkle_path;
use merkle_carry::tree::{build_tree, gen_proof, tree_len};
use sp_core::H256;
use sp_runtime::traits::BlakeTwo256;

fn root_of(tree: &[NodeHash]) -> NodeHash {
    *tree.last().unwrap()
}

fn check_member(b: &Vec<i32>, idx: usize, value: i32) -> Result<bool, MerkleError> {
    let out = build_tree(b).unwrap();
    let merkle_proof = extract_proof(&out, b.len(), idx).unwrap();
    let root = root_of(&out);
    verify(&merkle_proof, value, idx, &root)
}

#[test]
fn test_merkle_path_4() {
    let out = merkle_path(5, 4).unwrap();
    assert_eq!(out, [Some(3), Some(6), Some(10)]);
}

#[test]
fn test_merkle_path_1() {
    let out = merkle_path(5, 1).unwrap();
    assert_eq!(out, [Some(2), Some(7), Some(10)]);
}

#[test]
fn test_merkle_path_5() {
    let out = merkle_path(5, 5).unwrap();
    assert_eq!(out, [None, None, Some(9)]);
}

#[test]
fn test_gen_proof() {
    let b: Vec<u64> = vec![1, 2, 3, 4];
    assert_eq!(gen_proof(&b).unwrap(), [1, 2, 3, 4, 3, 7, 10]);
}

#[test]
fn elements_belong_to_collection_size_power_of_two() {
    let b = vec![1, 2, 3, 4];
    assert_eq!(check_member(&b, 1, 2), Ok(true));
}

#[test]
fn elements_belong_to_collection_even() {
    let b = vec![1, 2, 3, 4, 5, 6];
    assert_eq!(check_member(&b, 1, 2), Ok(true));
}

#[test]
fn elements_belong_to_collection_odd() {
    let b = vec![1, 2, 3, 4, 5];
    assert_eq!(check_member(&b, 1, 2), Ok(true));
}

#[test]
fn every_position_round_trips() {
    for n in 1..=17usize {
        let b: Vec<i32> = (0..n as i32).map(|x| x * 7 - 20).collect();
        for i in 0..n {
            assert_eq!(check_member(&b, i, b[i]), Ok(true), "n = {}, i = {}", n, i);
        }
    }
}

#[test]
fn tampered_sibling_value_or_root_fails() {
    let b = vec![10, 20, 30, 40, 50];
    let out = build_tree(&b).unwrap();
    let root = root_of(&out);
    let proof = extract_proof(&out, b.len(), 2).unwrap();
    assert_eq!(verify(&proof, 30, 2, &root), Ok(true));
    for k in 0..proof.len() {
        if let PathEntry::Sibling(h) = proof[k] {
            let mut bad = proof.clone();
            let mut h2 = h;
            h2[0] ^= 1;
            bad[k] = PathEntry::Sibling(h2);
            assert_eq!(verify(&bad, 30, 2, &root), Ok(false));
        }
    }
    assert_eq!(verify(&proof, 31, 2, &root), Ok(false));
    let mut other = root;
    other[31] ^= 0x80;
    assert_eq!(verify(&proof, 30, 2, &other), Ok(false));
}

#[test]
fn path_length_is_tree_height() {
    assert_eq!(merkle_path(5, 1).unwrap().len(), 3);
    assert_eq!(merkle_path(6, 1).unwrap().len(), 3);
    assert_eq!(merkle_path(8, 1).unwrap().len(), 3);
    assert_eq!(merkle_path(9, 9).unwrap().len(), 4);
    assert_eq!(merkle_path(2, 2).unwrap().len(), 1);
}

#[test]
fn odd_level_trailing_node_is_unpaired() {
    assert_eq!(merkle_path(5, 4).unwrap()[0], Some(3));
    assert_eq!(merkle_path(5, 5).unwrap()[0], None);
}

#[test]
fn four_leaves_make_seven_nodes() {
    let b = vec![1, 2, 3, 4];
    let out = build_tree(&b).unwrap();
    assert_eq!(out.len(), 7);
    assert_eq!(out[0], hash_leaf(1));
    assert_eq!(out[4], hash_pair(&hash_leaf(1), &hash_leaf(2)));
    assert_eq!(out[5], hash_pair(&hash_leaf(3), &hash_leaf(4)));
    assert_eq!(out[6], hash_pair(&out[4], &out[5]));
    assert_eq!(check_member(&b, 1, 2), Ok(true));
}

#[test]
fn odd_count_carries_with_single_hash() {
    let b = vec![1, 2, 3];
    let out = build_tree(&b).unwrap();
    assert_eq!(out.len(), 6);
    assert_eq!(out[4], hash_carry(&out[2]));
    assert_eq!(out[5], hash_pair(&out[3], &out[4]));
}

#[test]
fn single_leaf_tree() {
    let b = vec![42];
    let out = build_tree(&b).unwrap();
    assert_eq!(out.len(), 1);
    assert_eq!(out[0], hash_leaf(42));
    assert_eq!(merkle_path(1, 1).unwrap(), Vec::<Option<usize>>::new());
    let proof = extract_proof(&out, 1, 0).unwrap();
    assert!(proof.is_empty());
    assert_eq!(verify(&proof, 42, 0, &out[0]), Ok(true));
    assert_eq!(verify(&proof, 43, 0, &out[0]), Ok(false));
}

#[test]
fn building_twice_gives_the_same_tree() {
    let b = vec![5, -3, 8, 13, 0, 2, 9];
    assert_eq!(build_tree(&b).unwrap(), build_tree(&b).unwrap());
}

#[test]
fn empty_input_is_rejected() {
    assert_eq!(build_tree(&vec![]), Err(MerkleError::EmptyInput));
}

#[test]
fn invalid_index_is_rejected() {
    assert_eq!(merkle_path(5, 0), Err(MerkleError::InvalidIndex));
    assert_eq!(merkle_path(5, 6), Err(MerkleError::InvalidIndex));
    assert_eq!(merkle_path(0, 0), Err(MerkleError::InvalidIndex));
    let out = build_tree(&vec![1, 2, 3]).unwrap();
    assert_eq!(extract_proof(&out, 3, 3), Err(MerkleError::InvalidIndex));
}

#[test]
fn index_past_capacity_is_rejected() {
    let b = vec![1, 2, 3];
    let out = build_tree(&b).unwrap();
    let proof = extract_proof(&out, 3, 0).unwrap();
    assert_eq!(proof.len(), 2);
    assert_eq!(verify(&proof, 1, 3, &root_of(&out)), Ok(false));
    assert_eq!(verify(&proof, 1, 4, &root_of(&out)), Err(MerkleError::IndexOutOfRange));
    assert_eq!(verify(&Vec::new(), 1, 1, &root_of(&out)), Err(MerkleError::IndexOutOfRange));
}

#[test]
fn overflowing_sizes_are_rejected() {
    assert_eq!(merkle_path(usize::MAX, 1), Err(MerkleError::Overflow));
    let long = vec![PathEntry::Unpaired; 64];
    assert_eq!(verify(&long, 1, 0, &[0u8; 32]), Err(MerkleError::Overflow));
    let ok = vec![PathEntry::Unpaired; 63];
    assert!(verify(&ok, 1, 0, &[0u8; 32]).is_ok());
}

#[test]
fn tree_len_sums_the_levels() {
    assert_eq!(tree_len(0), Some(0));
    assert_eq!(tree_len(1), Some(1));
    assert_eq!(tree_len(4), Some(7));
    assert_eq!(tree_len(5), Some(11));
    assert_eq!(tree_len(6), Some(12));
    assert_eq!(tree_len(usize::MAX), None);
}

#[test]
fn sum_tree_copies_trailing_node() {
    assert_eq!(gen_proof(&vec![1, 2, 3, 4, 5]).unwrap(), [1, 2, 3, 4, 5, 3, 7, 5, 10, 5, 15]);
    assert_eq!(gen_proof(&vec![7]).unwrap(), [7]);
    assert_eq!(gen_proof(&vec![]), Err(MerkleError::EmptyInput));
    let m = u64::MAX;
    assert_eq!(gen_proof(&vec![m - 3, 1, 2]).unwrap(), [m - 3, 1, 2, m - 2, 2, m]);
}

#[test]
fn hashes_match_the_codec_encoding() {
    let leaf = <BlakeTwo256 as sp_runtime::traits::Hash>::hash_of(&-5i32);
    assert_eq!(hash_leaf(-5), leaf.0);
    let a = hash_leaf(1);
    let b = hash_leaf(2);
    let pair = <BlakeTwo256 as sp_runtime::traits::Hash>::hash_of(&[H256(a), H256(b)]);
    assert_eq!(hash_pair(&a, &b), pair.0);
    assert_ne!(hash_pair(&a, &b), hash_pair(&b, &a));
    let single = <BlakeTwo256 as sp_runtime::traits::Hash>::hash_of(&H256(a));
    assert_eq!(hash_carry(&a), single.0);
    assert_ne!(hash_carry(&a), a);
}
