use fri_binius::error::Error;
use fri_binius::utils::merkle::{
    build_parent_layer, compute_leaf_hashes, get_merkle_path, hash, hash_concatenation,
    hash_field, hash_tuple, merklize, verify_merkle_path, VectorCommitment,
};
use rand::{thread_rng, Rng};

fn random_leaves(count: usize) -> Vec<fri_binius::utils::merkle::Hash> {
    (0..count)
        .map(|_| {
            let random_elem: u128 = thread_rng().gen();
            hash_field(&random_elem)
        })
        .collect()
}

#[test]
fn make_merkle_tree_test() {
    let leaf_hashes = random_leaves(1 << 8);
    let _merkle_tree = merklize(leaf_hashes);
}

#[test]
fn get_merkle_path_test() {
    let leaf_hashes = random_leaves(1 << 8);

    let merkle_tree = merklize(leaf_hashes.clone());
    let commitment = VectorCommitment {
        root: merkle_tree.get_root(),
        depth: 8,
    };

    let idx = thread_rng().gen_range(0..1 << 8);
    let merkle_path = merkle_tree.get_merkle_path(idx);

    verify_merkle_path(&commitment, leaf_hashes[idx].clone(), idx, &merkle_path).unwrap();
}

#[test]
fn keccak_of_empty_input_is_the_known_digest() {
    let expected: [u8; 32] = [
        0xc5, 0xd2, 0x46, 0x01, 0x86, 0xf7, 0x23, 0x3c, 0x92, 0x7e, 0x7d, 0xb2, 0xdc, 0xc7, 0x03,
        0xc0, 0xe5, 0x00, 0xb6, 0x53, 0xca, 0x82, 0x27, 0x3b, 0x7b, 0xfa, 0xd8, 0x04, 0x5d, 0x85,
        0xa4, 0x70,
    ];
    assert_eq!(hash(&[]).0, expected);
}

#[test]
fn keccak_of_abc_is_the_known_digest() {
    let expected: [u8; 32] = [
        0x4e, 0x03, 0x65, 0x7a, 0xea, 0x45, 0xa9, 0x4f, 0xc7, 0xd4, 0x7b, 0xa8, 0x26, 0xc8, 0xd6,
        0x67, 0xc0, 0xd1, 0xe6, 0xe3, 0x3a, 0x64, 0xa0, 0x36, 0xec, 0x44, 0xf5, 0x8f, 0xa1, 0x2d,
        0x6c, 0x45,
    ];
    assert_eq!(hash(b"abc").0, expected);
}

#[test]
fn field_and_pair_hashes_are_hashes_of_little_endian_bytes() {
    let a: u128 = 0x0102_0304_0506_0708_090a_0b0c_0d0e_0f10;
    let b: u128 = 7;
    assert_eq!(hash_field(&a).0, hash(&a.to_le_bytes()).0);
    let mut both = a.to_le_bytes().to_vec();
    both.extend_from_slice(&b.to_le_bytes());
    assert_eq!(hash_tuple(&(a, b)).0, hash(&both).0);
    assert_ne!(hash_tuple(&(a, b)).0, hash_tuple(&(b, a)).0);
}

#[test]
fn concatenation_hashes_left_then_right() {
    let left = hash(b"left");
    let right = hash(b"right");
    let mut bytes = left.0.to_vec();
    bytes.extend_from_slice(&right.0);
    assert_eq!(hash_concatenation(&left, &right).0, hash(&bytes).0);
    assert_ne!(
        hash_concatenation(&left, &right).0,
        hash_concatenation(&right, &left).0
    );
    assert!(left.same(&left));
    assert!(!left.same(&right));
}

#[test]
fn leaves_cover_adjacent_pairs() {
    let vals: Vec<u128> = vec![1, 2, 3, 4, 5, 6];
    let leaves = compute_leaf_hashes(&vals);
    assert_eq!(leaves.len(), 3);
    for k in 0..3 {
        assert_eq!(leaves[k].0, hash_tuple(&(vals[2 * k], vals[2 * k + 1])).0);
    }
    assert!(compute_leaf_hashes(&[]).is_empty());
}

#[test]
fn parent_layer_and_tree_layers() {
    let leaves = random_leaves(4);
    let parents = build_parent_layer(&leaves);
    assert_eq!(parents.len(), 2);
    assert_eq!(parents[0].0, hash_concatenation(&leaves[0], &leaves[1]).0);
    assert_eq!(parents[1].0, hash_concatenation(&leaves[2], &leaves[3]).0);

    let tree = merklize(leaves.clone());
    assert_eq!(tree.data.len(), 3);
    assert_eq!(tree.data[0].len(), 1);
    assert_eq!(tree.data[1].len(), 2);
    assert_eq!(tree.data[2].len(), 4);
    assert_eq!(tree.data[1][0].0, parents[0].0);
    assert_eq!(
        tree.get_root().0,
        hash_concatenation(&parents[0], &parents[1]).0
    );
}

#[test]
fn tree_of_one_leaf_is_the_leaf() {
    let leaves = random_leaves(1);
    let tree = merklize(leaves.clone());
    assert_eq!(tree.data.len(), 1);
    assert_eq!(tree.get_root().0, leaves[0].0);
    let path = tree.get_merkle_path(0);
    assert!(path.is_empty());
    let commitment = VectorCommitment {
        root: tree.get_root(),
        depth: 0,
    };
    assert_eq!(verify_merkle_path(&commitment, leaves[0], 0, &path), Ok(()));
}

#[test]
fn path_holds_the_siblings_from_the_leaves_up() {
    let leaves = random_leaves(8);
    let tree = merklize(leaves.clone());
    let path = get_merkle_path(&tree.data, 5);
    assert_eq!(path.len(), 3);
    assert_eq!(path[0].0, tree.data[3][4].0);
    assert_eq!(path[1].0, tree.data[2][3].0);
    assert_eq!(path[2].0, tree.data[1][0].0);
}

#[test]
fn every_leaf_of_every_small_tree_verifies() {
    for log in 0..6 {
        let leaves = random_leaves(1 << log);
        let tree = merklize(leaves.clone());
        let commitment = VectorCommitment {
            root: tree.get_root(),
            depth: log,
        };
        for i in 0..leaves.len() {
            let path = tree.get_merkle_path(i);
            assert_eq!(verify_merkle_path(&commitment, leaves[i], i, &path), Ok(()));
        }
    }
}

#[test]
fn wrong_path_length_is_a_shape_mismatch() {
    let leaves = random_leaves(8);
    let tree = merklize(leaves.clone());
    let commitment = VectorCommitment {
        root: tree.get_root(),
        depth: 3,
    };
    let mut path = tree.get_merkle_path(2);
    path.pop();
    let outcome = verify_merkle_path(&commitment, leaves[2], 2, &path);
    assert_eq!(outcome, Err(Error::ShapeMismatch));
    assert_eq!(
        outcome.unwrap_err().kind(),
        fri_binius::error::ErrorKind::ShapeMismatch
    );
}

#[test]
fn wrong_leaf_index_or_byte_is_a_consistency_failure() {
    let leaves = random_leaves(8);
    let tree = merklize(leaves.clone());
    let commitment = VectorCommitment {
        root: tree.get_root(),
        depth: 3,
    };
    let path = tree.get_merkle_path(2);
    assert_eq!(
        verify_merkle_path(&commitment, leaves[2], 3, &path),
        Err(Error::MerklePath { index: 3 })
    );
    assert_eq!(
        verify_merkle_path(&commitment, leaves[3], 2, &path),
        Err(Error::MerklePath { index: 2 })
    );
    for d in 0..3 {
        let mut tampered = path.clone();
        tampered[d].0[17] ^= 1;
        let outcome = verify_merkle_path(&commitment, leaves[2], 2, &tampered);
        assert_eq!(outcome, Err(Error::MerklePath { index: 2 }));
        assert_eq!(
            outcome.unwrap_err().kind(),
            fri_binius::error::ErrorKind::ConsistencyFailure
        );
    }
}
