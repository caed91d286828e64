use std::collections::BTreeMap;

use blake2::{Blake2s256, Digest};
use stwo_cuda::column::{BaseFieldVec, Blake2sHashVec, CudaBackend};
use stwo_cuda::fields::{BaseField, M31};
use stwo_cuda::hash::{
    reduce_to_m31, Blake2sChannel, Blake2sHash, Blake2sM31MerkleHasher, Blake2sMerkleChannel, Blake2sMerkleHasher,
    MerkleHasher,
};
use stwo_cuda::merkle::{MerkleOpsLifted, MerkleProver};

fn blake(parts: &[&[u8]]) -> Blake2sHash {
    let mut h = Blake2s256::new();
    for p in parts {
        h.update(p);
    }
    Blake2sHash(h.finalize().into())
}

fn le(values: &[u32]) -> Vec<u8> {
    values.iter().flat_map(|v| v.to_le_bytes()).collect()
}

fn col(values: &[u32]) -> BaseFieldVec {
    BaseFieldVec::from_vec(values.iter().map(|&v| M31(v)).collect())
}

#[test]
fn hash_node_of_nothing_is_blake2s_of_empty_input() {
    let h = Blake2sMerkleHasher::hash_node(None, &[]);
    let expected: [u8; 32] = [
        0x69, 0x21, 0x7a, 0x30, 0x79, 0x90, 0x80, 0x94, 0xe1, 0x11, 0x21, 0xd0, 0x42, 0x35, 0x4a, 0x7c, 0x1f, 0x55,
        0xb6, 0x48, 0x2c, 0xa1, 0xa5, 0x1e, 0x1b, 0x25, 0x0d, 0xfd, 0x1e, 0xd0, 0xee, 0xf9,
    ];
    assert_eq!(h, Blake2sHash(expected));
}

#[test]
fn hash_node_hashes_children_then_values() {
    let l = Blake2sHash([1u8; 32]);
    let r = Blake2sHash([2u8; 32]);
    let h = Blake2sMerkleHasher::hash_node(Some((l, r)), &[M31(5), M31(0x01020304)]);
    assert_eq!(h, blake(&[&[1u8; 32], &[2u8; 32], &le(&[5, 0x01020304])]));
}

#[test]
fn m31_hash_is_reduced_plain_hash() {
    let values = [M31(7), M31(9)];
    let plain = Blake2sMerkleHasher::hash_node(None, &values);
    let reduced = Blake2sM31MerkleHasher::hash_node(None, &values);
    assert_eq!(reduced.0, reduce_to_m31(plain.0));
}

#[test]
fn reduce_to_m31_reduces_each_word() {
    let mut b = [0xffu8; 32];
    // Second word: exactly P = 0x7fffffff, which reduces to 0.
    b[4..8].copy_from_slice(&0x7fffffffu32.to_le_bytes());
    // Third word: 5, already reduced.
    b[8..12].copy_from_slice(&5u32.to_le_bytes());
    let r = reduce_to_m31(b);
    assert_eq!(&r[0..4], &1u32.to_le_bytes());
    assert_eq!(&r[4..8], &0u32.to_le_bytes());
    assert_eq!(&r[8..12], &5u32.to_le_bytes());
    assert_eq!(reduce_to_m31(r), r);
}

#[test]
fn hash_children_and_next_layer() {
    let a = Blake2sHash([3u8; 32]);
    let b = Blake2sHash([4u8; 32]);
    let h = Blake2sMerkleHasher::hash_children((a, b));
    assert_eq!(h, blake(&[&[3u8; 32], &[4u8; 32]]));
    let layer = Blake2sHashVec::from_vec(vec![a, b, b, a, a]);
    let next = <CudaBackend as MerkleOpsLifted<Blake2sMerkleHasher>>::build_next_layer(&layer);
    assert_eq!(next.to_cpu(), vec![h, blake(&[&[4u8; 32], &[3u8; 32]])]);
    let empty = Blake2sHashVec::from_vec(vec![]);
    assert_eq!(<CudaBackend as MerkleOpsLifted<Blake2sMerkleHasher>>::build_next_layer(&empty).len(), 0);
}

#[test]
fn mix_root_hashes_digest_with_root() {
    let mut channel = Blake2sChannel::new();
    let root = Blake2sHash([9u8; 32]);
    Blake2sMerkleChannel::mix_root(&mut channel, root);
    assert_eq!(channel.digest(), blake(&[&[0u8; 32], &[9u8; 32]]));
}

/// A tree over a column of 4 values and a column of 2 values, given in
/// increasing size to exercise the sorting.
fn small_tree() -> (BaseFieldVec, BaseFieldVec, MerkleProver<Blake2sMerkleHasher>) {
    let small = col(&[10, 11]);
    let big = col(&[1, 2, 3, 4]);
    let prover = MerkleProver::<Blake2sMerkleHasher>::commit(vec![&small, &big]);
    (small, big, prover)
}

#[test]
fn commit_builds_layers_from_largest_column() {
    let (_small, _big, prover) = small_tree();
    assert_eq!(prover.layers.len(), 3);
    let l2: Vec<Blake2sHash> = (1..=4u32).map(|v| blake(&[&le(&[v])])).collect();
    assert_eq!(prover.layers[2].to_cpu(), l2);
    let l1: Vec<Blake2sHash> = (0..2)
        .map(|i| blake(&[&l2[2 * i].0, &l2[2 * i + 1].0, &le(&[10 + i as u32])]))
        .collect();
    assert_eq!(prover.layers[1].to_cpu(), l1);
    let root = blake(&[&l1[0].0, &l1[1].0]);
    assert_eq!(prover.layers[0].to_cpu(), vec![root]);
    assert_eq!(prover.root(), root);
}

#[test]
fn columns_of_equal_size_keep_input_order() {
    let a = col(&[1, 2]);
    let b = col(&[3, 4]);
    let ab = MerkleProver::<Blake2sMerkleHasher>::commit(vec![&a, &b]);
    let ba = MerkleProver::<Blake2sMerkleHasher>::commit(vec![&b, &a]);
    assert_eq!(ab.layers[1].at(0), blake(&[&le(&[1, 3])]));
    assert_eq!(ba.layers[1].at(0), blake(&[&le(&[3, 1])]));
    assert_ne!(ab.root(), ba.root());
}

#[test]
fn commit_without_columns_is_a_single_empty_node() {
    let prover = MerkleProver::<Blake2sMerkleHasher>::commit(vec![]);
    assert_eq!(prover.layers.len(), 1);
    assert_eq!(prover.root(), blake(&[]));
}

#[test]
fn decommit_single_query() {
    let (small, big, prover) = small_tree();
    let mut queries = BTreeMap::new();
    queries.insert(2u32, vec![1usize]);
    let (values, ext) = prover.decommit(&queries, vec![&small, &big]);
    assert_eq!(values, vec![M31(2)]);
    let l2 = prover.layers[2].to_cpu();
    let l1 = prover.layers[1].to_cpu();
    assert_eq!(ext.decommitment.hash_witness, vec![l2[0], l1[1]]);
    assert_eq!(ext.decommitment.column_witness, vec![M31(10)]);
    let aux = &ext.aux.all_node_values;
    assert_eq!(aux.len(), 3);
    assert_eq!(aux[0].get(0), None);
    assert_eq!(aux[1].get(0), Some(l2[0]));
    assert_eq!(aux[1].get(1), Some(l2[1]));
    assert_eq!(aux[1].get(2), None);
    assert_eq!(aux[2].get(1), Some(l1[1]));
}

#[test]
fn decommit_merges_queries_across_layers() {
    let (small, big, prover) = small_tree();
    let mut queries = BTreeMap::new();
    queries.insert(2u32, vec![3usize, 2, 3]);
    queries.insert(1u32, vec![0usize]);
    queries.insert(7u32, vec![0usize]);
    let (values, ext) = prover.decommit(&queries, vec![&small, &big]);
    // Layer 2: nodes 2 and 3 (duplicates merged); layer 1: node 0 (queried) and
    // node 1 (parent of 2 and 3); layer 0: node 0.
    assert_eq!(values, vec![M31(3), M31(4), M31(10)]);
    let l2 = prover.layers[2].to_cpu();
    assert_eq!(ext.decommitment.hash_witness, vec![l2[0], l2[1]]);
    assert_eq!(ext.decommitment.column_witness, vec![M31(11)]);
}
