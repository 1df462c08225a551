use pixel_vault::hashing::keccak256;
use pixel_vault::merkle::{serialize_pixel_data, verify_merkle_proof, MerkleTree, PixelData};

fn hex(bytes: &[u8]) -> String {
    let mut s = String::new();
    for b in bytes {
        s.push_str(&format!("{:02x}", b));
    }
    s
}

#[test]
fn keccak256_matches_known_vector() {
    // keccak-256 of the empty string; fails if the hash wrapper returned
    // its input or anything but the real digest.
    let empty: Vec<u8> = Vec::new();
    let d = keccak256(&empty);
    assert_eq!(
        hex(&d),
        "c5d2460186f7233c927e7db2dcc703c0e500b653ca82273b7bfad8045d85a470"
    );
    let abc = vec![b'a', b'b', b'c'];
    let d2 = keccak256(&abc);
    assert_eq!(
        hex(&d2),
        "4e03657aea45a94fc7d47ba826c8d667c0d1e6e33a64a036ec44f58fa12d6c45"
    );
    assert_ne!(d2, abc);
}

#[test]
fn serialize_is_little_endian() {
    let d = PixelData {
        matrix_counter: 0x0102030405060708,
        total_count: 2,
    };
    let bytes = serialize_pixel_data(&d);
    assert_eq!(
        bytes,
        vec![8, 7, 6, 5, 4, 3, 2, 1, 2, 0, 0, 0, 0, 0, 0, 0]
    );
}

#[test]
fn new_tree_has_reproducible_root() {
    // Identical input gives an identical root on repeated recomputation.
    let t = MerkleTree::new(3);
    let r1 = t.calculate_root();
    let r2 = t.calculate_root();
    assert_eq!(r1, r2);
    let t2 = MerkleTree::new(3);
    assert_eq!(t2.calculate_root(), r1);
}

#[test]
fn update_changes_root_deterministically() {
    let mut a = MerkleTree::new(2);
    let mut b = MerkleTree::new(2);
    let zero_root = a.calculate_root();
    let data = PixelData {
        matrix_counter: 1,
        total_count: 1,
    };
    a.update(0, &data);
    b.update(0, &data);
    assert_eq!(a.calculate_root(), b.calculate_root());
    assert_ne!(a.calculate_root(), zero_root);
}

#[test]
fn generated_proof_verifies_after_any_update() {
    let mut t = MerkleTree::new(3);
    for i in 0..8usize {
        let data = PixelData {
            matrix_counter: i as u64 + 1,
            total_count: i as u64 + 1,
        };
        t.update(i, &data);
        let root = t.calculate_root();
        for j in 0..8usize {
            let pf = t.generate_proof(j);
            // the committed digest of leaf j
            let committed = if j <= i {
                keccak256(&serialize_pixel_data(&PixelData {
                    matrix_counter: j as u64 + 1,
                    total_count: j as u64 + 1,
                }))
            } else {
                vec![0u8; 32]
            };
            assert!(verify_merkle_proof(j, &root, &pf, &committed));
        }
    }
}

#[test]
fn proof_fails_against_wrong_leaf_or_root() {
    let mut t = MerkleTree::new(2);
    let data = PixelData {
        matrix_counter: 5,
        total_count: 9,
    };
    t.update(1, &data);
    let root = t.calculate_root();
    let pf = t.generate_proof(1);
    let leaf = keccak256(&serialize_pixel_data(&data));
    assert!(verify_merkle_proof(1, &root, &pf, &leaf));
    let wrong_leaf = keccak256(&serialize_pixel_data(&PixelData {
        matrix_counter: 6,
        total_count: 9,
    }));
    assert!(!verify_merkle_proof(1, &root, &pf, &wrong_leaf));
    let wrong_root = vec![0u8; 32];
    assert!(!verify_merkle_proof(1, &wrong_root, &pf, &leaf));
}

#[test]
fn root_binds_other_leaves() {
    // A proof for position 1 keeps verifying against the root it was made
    // for after position 3 changes, and stops verifying against the moved
    // root.
    let mut t = MerkleTree::new(2);
    let one = PixelData {
        matrix_counter: 1,
        total_count: 1,
    };
    t.update(1, &one);
    let old_root = t.calculate_root();
    let pf = t.generate_proof(1);
    let leaf = keccak256(&serialize_pixel_data(&one));
    assert!(verify_merkle_proof(1, &old_root, &pf, &leaf));

    let other = PixelData {
        matrix_counter: 7,
        total_count: 7,
    };
    t.update(3, &other);
    let new_root = t.calculate_root();
    assert_ne!(new_root, old_root);
    // unchanged proof and leaf, old root: still fine
    assert!(verify_merkle_proof(1, &old_root, &pf, &leaf));
    // same proof against the advanced root: no longer verifies
    assert!(!verify_merkle_proof(1, &new_root, &pf, &leaf));
    // a freshly generated proof tracks the new root
    let pf2 = t.generate_proof(1);
    assert!(verify_merkle_proof(1, &new_root, &pf2, &leaf));
}
