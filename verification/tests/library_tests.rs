use mavacs_plus::chronoforest::digest::{Digest, Peak};
use mavacs_plus::chronoforest::forest::MerkleSquare;
use mavacs_plus::crypto::abstract_primitives::vector_commitment::VectorCommitment;
use mavacs_plus::crypto::merkle::errors::TreeIndexError;
use mavacs_plus::crypto::merkle::merkle::{MerkleAVC, PaddingScheme, TreeStorageType};
use mavacs_plus::hash::{Hash32, Hasher, Sha256Hasher};
use mavacs_plus::merklesquare::arena::{Arena, Node};

fn sha3(parts: &[&[u8]]) -> Vec<u8> {
    let mut h = <sha3::Sha3_256 as sha3::Digest>::new();
    for p in parts {
        <sha3::Sha3_256 as sha3::Digest>::update(&mut h, p);
    }
    <sha3::Sha3_256 as sha3::Digest>::finalize(h).to_vec()
}

fn sha256(parts: &[&[u8]]) -> [u8; 32] {
    let mut h = <sha2::Sha256 as sha2::Digest>::new();
    for p in parts {
        <sha2::Sha256 as sha2::Digest>::update(&mut h, p);
    }
    <sha2::Sha256 as sha2::Digest>::finalize(h).into()
}

fn nodes_of(tree: &MerkleAVC) -> &Vec<Vec<u8>> {
    match &tree.stored_values {
        TreeStorageType::StoredLeavesAndCalculatedHashes(nodes) => nodes,
        TreeStorageType::StoredLeaves(_) => panic!("expected every node hash"),
    }
}

#[test]
fn sha256_hasher_hashes_the_concatenated_parts() {
    let h = Sha256Hasher::hash(&[b"ab", b"", b"c"]);
    assert_eq!(h, Hash32(sha256(&[b"abc"])));
    assert_ne!(h, Hash32(sha256(&[b"ab"])));
    assert_eq!(h.as_ref(), &sha256(&[b"abc"])[..]);
}

#[test]
fn zero_padded_tree_of_two_leaves() {
    let data = vec![vec![1u8, 2], vec![3u8]];
    let tree = MerkleAVC::build_zero_padded_full_tree_from_data(&data);
    let l0 = sha3(&[&[1, 2]]);
    let l1 = sha3(&[&[3]]);
    assert_eq!(tree.height, 2);
    assert_eq!(nodes_of(&tree), &vec![l0.clone(), l1.clone(), sha3(&[&l0, &l1])]);
    assert_eq!(tree.root, sha3(&[&l0, &l1]));
}

#[test]
fn zero_padded_tree_pads_with_hash_of_zero_byte() {
    let data = vec![vec![1u8], vec![2u8], vec![3u8]];
    let tree = MerkleAVC::build_zero_padded_full_tree_from_data(&data);
    let leaves: Vec<Vec<u8>> = vec![sha3(&[&[1]]), sha3(&[&[2]]), sha3(&[&[3]]), sha3(&[&[0]])];
    let n4 = sha3(&[&leaves[0], &leaves[1]]);
    let n5 = sha3(&[&leaves[2], &leaves[3]]);
    let root = sha3(&[&n4, &n5]);
    assert_eq!(nodes_of(&tree), &vec![
        leaves[0].clone(),
        leaves[1].clone(),
        leaves[2].clone(),
        leaves[3].clone(),
        n4.clone(),
        n5.clone(),
        root.clone(),
    ]);
    assert_eq!(tree.root, root);
    // the co-path of leaf 2 is its padded sibling and the left subtree
    let copath = tree.generate_copath_for_zero_padded_full_tree(2).unwrap();
    assert_eq!(copath, vec![leaves[3].clone(), n4]);
}

#[test]
fn zero_padded_tree_of_no_data_is_one_padding_leaf() {
    let data: Vec<Vec<u8>> = vec![];
    let tree = MerkleAVC::build_zero_padded_full_tree_from_data(&data);
    assert_eq!(tree.height, 1);
    assert_eq!(tree.num_attributes, 0);
    assert_eq!(tree.root, sha3(&[&[0]]));
    assert_eq!(tree.generate_copath_for_zero_padded_full_tree(0), Err(TreeIndexError::IndexOutOfBounds));
}

#[test]
fn copy_padded_tree_duplicates_last_node_of_odd_level() {
    let data = vec![vec![1u8], vec![2u8], vec![3u8]];
    let tree = MerkleAVC::build_copy_padded_full_tree_from_data(&data);
    let h: Vec<Vec<u8>> = vec![sha3(&[&[1]]), sha3(&[&[2]]), sha3(&[&[3]])];
    let p0 = sha3(&[&h[0], &h[1]]);
    let p1 = sha3(&[&h[2], &h[2]]);
    let root = sha3(&[&p0, &p1]);
    assert_eq!(tree.height, 3);
    assert_eq!(nodes_of(&tree), &vec![h[0].clone(), h[1].clone(), h[2].clone(), p0.clone(), p1.clone(), root.clone()]);
    assert_eq!(tree.root, root);
    // leaf 2 is the last of an odd level: it is paired with itself
    let copath = tree.generate_copath_for_copy_padded_full_tree(2).unwrap();
    assert_eq!(copath, vec![h[2].clone(), p0]);
    assert!(MerkleAVC::verify_copath_for_copy_padded_full_tree(&copath, &tree.root, &data[2], 2, 3));
    assert_eq!(tree.generate_copath_for_copy_padded_full_tree(3), Err(TreeIndexError::IndexOutOfBounds));
}

#[test]
fn copy_padded_tree_of_one_leaf() {
    let data = vec![vec![7u8]];
    let tree = MerkleAVC::build_copy_padded_full_tree_from_data(&data);
    assert_eq!(tree.height, 1);
    assert_eq!(tree.root, sha3(&[&[7]]));
    let copath = tree.generate_copath_for_copy_padded_full_tree(0).unwrap();
    assert!(copath.is_empty());
    assert!(MerkleAVC::verify_copath_for_copy_padded_full_tree(&copath, &tree.root, &data[0], 0, 1));
    assert!(!MerkleAVC::verify_copath_for_copy_padded_full_tree(&vec![vec![0u8; 32]], &tree.root, &data[0], 0, 1));
}

#[test]
fn copath_roundtrip_for_many_sizes() {
    for n in 1..=33usize {
        let data: Vec<Vec<u8>> = (0..n).map(|i| vec![i as u8, 0xAB]).collect();
        let zero = MerkleAVC::build_zero_padded_full_tree_from_data(&data);
        let copy = MerkleAVC::build_copy_padded_full_tree_from_data(&data);
        for i in 0..n {
            let zp = zero.generate_copath_for_zero_padded_full_tree(i as u16).unwrap();
            assert_eq!(zp.len() as u16 + 1, zero.height);
            assert!(MerkleAVC::verify_copath_for_zero_padded_full_tree(&zp, &zero.root, &data[i], i as u16, zero.height));
            let cp = copy.generate_copath_for_copy_padded_full_tree(i as u16).unwrap();
            assert_eq!(cp.len() as u16 + 1, copy.height);
            assert!(MerkleAVC::verify_copath_for_copy_padded_full_tree(&cp, &copy.root, &data[i], i as u16, n as u16));
            // the proof of leaf i does not prove another value at i
            assert!(!MerkleAVC::verify_copath_for_zero_padded_full_tree(&zp, &zero.root, &vec![0xFF], i as u16, zero.height));
        }
    }
}

#[test]
fn heights_and_root_indices() {
    assert_eq!(MerkleAVC::height_copy_padding(0), 1);
    assert_eq!(MerkleAVC::height_copy_padding(1), 1);
    assert_eq!(MerkleAVC::height_copy_padding(2), 2);
    assert_eq!(MerkleAVC::height_copy_padding(3), 3);
    assert_eq!(MerkleAVC::height_copy_padding(4), 3);
    assert_eq!(MerkleAVC::height_copy_padding(5), 4);
    assert_eq!(MerkleAVC::height_copy_padding(16384), 15);
    assert_eq!(MerkleAVC::height_copy_padding(16385), 16);
    assert_eq!(MerkleAVC::height_copy_padding(65535), 17);
    assert_eq!(MerkleAVC::root_index_copy_padding(0), 0);
    assert_eq!(MerkleAVC::root_index_copy_padding(1), 0);
    assert_eq!(MerkleAVC::root_index_copy_padding(3), 5);
    assert_eq!(MerkleAVC::root_index_copy_padding(16384), 32766);
}

#[test]
fn copy_parent_errors() {
    assert_eq!(MerkleAVC::get_parent_index_copy_padding(0, 1, 0), Err(TreeIndexError::RootHasNoParent));
    assert_eq!(MerkleAVC::get_parent_index_copy_padding(4, 3, 5), Err(TreeIndexError::IndexOutOfBounds));
    assert_eq!(MerkleAVC::get_parent_index_copy_padding(9, 3, 5), Err(TreeIndexError::IndexOutOfBounds));
    // the bound admits the position just past the level
    assert_eq!(MerkleAVC::get_parent_index_copy_padding(8, 3, 5), Ok(9));
}

#[test]
fn zero_children_have_their_parent() {
    for height in 1..=6u16 {
        let root = (1u16 << height) - 2;
        let first_internal = 1u16 << (height - 1);
        for p in first_internal..=root {
            let l = MerkleAVC::get_left_child_index_zero_padding(height, p).unwrap();
            let r = MerkleAVC::get_right_child_index_zero_padding(height, p).unwrap();
            assert_eq!(r, l + 1);
            assert_eq!(l % 2, 0);
            assert_eq!(MerkleAVC::get_parent_index_zero_padding(height, l), Ok(p));
            assert_eq!(MerkleAVC::get_parent_index_zero_padding(height, r), Ok(p));
        }
    }
    assert_eq!(MerkleAVC::get_left_child_index_zero_padding(1, 0), Err(TreeIndexError::LeafHasNoChildren));
}

#[test]
fn build_from_data_dispatches_on_padding() {
    let data = vec![vec![1u8], vec![2u8], vec![3u8]];
    let zero = MerkleAVC::build_from_data(&data, PaddingScheme::Zero, TreeStorageType::StoredLeavesAndCalculatedHashes(vec![]));
    let copy = MerkleAVC::build_from_data(&data, PaddingScheme::Copy, TreeStorageType::StoredLeavesAndCalculatedHashes(vec![]));
    assert!(matches!(zero.padding_scheme, PaddingScheme::Zero));
    assert!(matches!(copy.padding_scheme, PaddingScheme::Copy));
    assert_eq!(zero.root, MerkleAVC::build_zero_padded_full_tree_from_data(&data).root);
    assert_eq!(copy.root, MerkleAVC::build_copy_padded_full_tree_from_data(&data).root);
    assert_ne!(zero.root, copy.root);
}

#[test]
fn vector_commitment_opens_and_verifies() {
    let ((), ()) = MerkleAVC::keygen(128);
    let vector: Vec<Vec<u8>> = (0..6u8).map(|i| vec![i; 4]).collect();
    let commitment = MerkleAVC::commit(&vector, &());
    assert_eq!(commitment, MerkleAVC::build_zero_padded_full_tree_from_data(&vector).root);
    for i in 0..vector.len() {
        let proof = MerkleAVC::open(i, &commitment, &vector, &());
        assert_eq!(
            proof,
            MerkleAVC::build_zero_padded_full_tree_from_data(&vector)
                .generate_copath_for_zero_padded_full_tree(i as u16)
                .unwrap()
        );
        assert!(MerkleAVC::verify(&proof, &commitment, &vector[i], i, &()));
        assert!(!MerkleAVC::verify(&proof, &commitment, &vec![9u8; 4], i, &()));
        assert!(!MerkleAVC::verify(&proof, &vec![0u8; 32], &vector[i], i, &()));
        assert!(!MerkleAVC::verify(&proof, &commitment, &vector[i], i + 65536, &()));
    }
    let long_proof = vec![vec![0u8; 32]; 15];
    assert!(!MerkleAVC::verify(&long_proof, &commitment, &vector[0], 0, &()));
}

#[test]
fn tree_index_error_messages() {
    assert_eq!(TreeIndexError::RootHasNoParent.to_string(), "Root node has no parent");
    assert_eq!(TreeIndexError::IndexOutOfBounds.to_string(), "Index out of bounds");
    assert_eq!(TreeIndexError::LeafHasNoChildren.to_string(), "Leaf node has no children");
}

#[test]
fn digest_encoding_layout() {
    let d = Digest::new(vec![Hash32([7u8; 32])], 0x01020304);
    let bytes = d.to_bytes();
    let mut expected = vec![4u8, 3, 2, 1, 1, 0, 0, 0];
    expected.extend_from_slice(&[7u8; 32]);
    assert_eq!(bytes, expected);
    assert_eq!(Digest::empty().to_bytes(), vec![0u8; 8]);
    let back = Digest::from_bytes(&bytes).unwrap();
    assert_eq!(back, d);
}

#[test]
fn digest_decoding_errors() {
    assert_eq!(Digest::from_bytes(&[0u8; 7]), Err("digest too short"));
    assert_eq!(Digest::from_bytes(&[]), Err("digest too short"));
    // announces one root but carries none
    assert_eq!(Digest::from_bytes(&[0, 0, 0, 0, 1, 0, 0, 0]), Err("invalid digest length"));
    // announces no root but carries a byte too many
    assert_eq!(Digest::from_bytes(&[0u8; 9]), Err("invalid digest length"));
    // announces u32::MAX roots
    assert_eq!(Digest::from_bytes(&[0, 0, 0, 0, 255, 255, 255, 255]), Err("invalid digest length"));
    assert_eq!(Digest::from_bytes(&[5, 0, 0, 0, 0, 0, 0, 0]), Ok(Digest::new(vec![], 5)));
}

#[test]
fn digest_accessors_and_description() {
    let d = Digest::new(vec![Hash32([1u8; 32]), Hash32([2u8; 32])], 42);
    assert_eq!(d.num_peaks(), 2);
    assert_eq!(d.peak(1), Some(&Hash32([2u8; 32])));
    assert_eq!(d.peak(2), None);
    assert!(!d.is_empty());
    assert_eq!(d.to_string(), "Digest(size=42, peaks=2)");
    assert_eq!(Digest::empty().to_string(), "Digest(size=0, peaks=0)");
    assert_eq!(Digest::new(vec![], 4294967295).to_string(), "Digest(size=4294967295, peaks=0)");
}

#[test]
fn commitment_hash_formula() {
    let d = Digest::new(vec![Hash32([1u8; 32]), Hash32([2u8; 32])], 3);
    let expected = sha256(&[b"msq:digest", &[1u8; 32], &[2u8; 32], &[3, 0, 0, 0]]);
    assert_eq!(d.commitment_hash::<Sha256Hasher>(), Hash32(expected));
    // same roots, different size
    let e = Digest::new(vec![Hash32([1u8; 32]), Hash32([2u8; 32])], 4);
    assert_ne!(d.commitment_hash::<Sha256Hasher>(), e.commitment_hash::<Sha256Hasher>());
}

fn entry_leaf(key: &[u8], value: &[u8], sig: &[u8], pos: u32) -> [u8; 32] {
    let prefix = sha256(&[b"msq:prefix", key]);
    let content = sha256(&[b"msq:content", key, value, sig, &pos.to_le_bytes()]);
    sha256(&[b"msq:leaf", &prefix, &content])
}

#[test]
fn forest_leaf_and_merge_hashes() {
    let mut msq: MerkleSquare = MerkleSquare::new(4);
    msq.append(b"a", b"1", b"sig").unwrap();
    let l0 = entry_leaf(b"a", b"1", b"sig", 0);
    assert_eq!(msq.roots.len(), 1);
    assert_eq!(msq.roots[0].height, 0);
    assert_eq!(msq.roots[0].hash, Hash32(l0));
    msq.append(b"b", b"2", b"sig").unwrap();
    let l1 = entry_leaf(b"b", b"2", b"sig", 1);
    assert_eq!(msq.roots.len(), 1);
    assert_eq!(msq.roots[0].height, 1);
    assert_eq!(msq.roots[0].hash, Hash32(sha256(&[&l0, &l1])));
    msq.append(b"c", b"3", b"sig").unwrap();
    let l2 = entry_leaf(b"c", b"3", b"sig", 2);
    let d = msq.get_digest();
    assert_eq!(d.size, 3);
    assert_eq!(d.roots, vec![Hash32(sha256(&[&l0, &l1])), Hash32(l2)]);
}

#[test]
fn forest_peaks_follow_binary_digits() {
    let mut msq: MerkleSquare<Sha256Hasher> = MerkleSquare::new(10);
    for n in 1..=40u32 {
        msq.append(b"k", &n.to_le_bytes(), b"s").unwrap();
        let heights: Vec<u32> = msq.roots.iter().map(|p| p.height).collect();
        let expected: Vec<u32> = (0..32u32).rev().filter(|b| n & (1 << b) != 0).collect();
        assert_eq!(heights, expected);
        assert_eq!(msq.size, n);
    }
}

#[test]
fn forest_refuses_entries_when_full() {
    let mut msq: MerkleSquare = MerkleSquare::new(1);
    assert!(!msq.is_full());
    msq.append(b"a", b"1", b"s").unwrap();
    msq.append(b"b", b"2", b"s").unwrap();
    assert!(msq.is_full());
    let before = msq.get_digest();
    assert_eq!(msq.append(b"c", b"3", b"s"), Err("forest full"));
    assert_eq!(msq.get_digest(), before);
    let mut none: MerkleSquare = MerkleSquare::new(0);
    none.append(b"a", b"1", b"s").unwrap();
    assert_eq!(none.append(b"b", b"2", b"s"), Err("forest full"));
}

#[test]
fn arena_nodes() {
    let mut arena = Arena::new();
    assert_eq!(arena.len(), 0);
    let leaf = Node::Leaf { hash: Hash32([3u8; 32]), pos: 7 };
    let id = arena.push(leaf);
    assert_eq!(id, 0);
    let inner = Node::Internal { left: 0, right: 0, hash: Hash32([4u8; 32]), height: 2, shift: 1 };
    assert_eq!(arena.push(inner), 1);
    assert_eq!(arena.len(), 2);
    assert_eq!(arena.get(0).hash(), Hash32([3u8; 32]));
    assert_eq!(arena.get(0).height(), 0);
    assert_eq!(arena.get(1).hash(), Hash32([4u8; 32]));
    assert_eq!(arena.get(1).height(), 2);
}

#[test]
fn peak_new_keeps_fields() {
    let p = Peak::new(3, 5, Hash32([9u8; 32]));
    assert_eq!(p, Peak { id: 3, height: 5, hash: Hash32([9u8; 32]) });
}

#[test]
fn append_keeps_the_unmerged_peaks() {
    let mut msq: MerkleSquare = MerkleSquare::new(4);
    for i in 0..5u8 {
        msq.append(b"k", &[i], b"s").unwrap();
    }
    // 5 = 4 + 1
    assert_eq!(msq.roots.iter().map(|p| p.height).collect::<Vec<_>>(), vec![2, 0]);
    for i in 5..8u8 {
        let before = msq.roots.clone();
        msq.append(b"k", &[i], b"s").unwrap();
        let after = &msq.roots;
        let kept = after.len() - 1;
        assert_eq!(&after[..kept], &before[..kept]);
        assert_eq!(after[kept].height as usize + after.len(), before.len() + 1);
    }
    // 8 leaves: everything merged into one peak of height 3
    assert_eq!(msq.roots.len(), 1);
    assert_eq!(msq.roots[0].height, 3);
}

#[test]
fn swapping_two_appends_changes_the_digest() {
    let mut m1: MerkleSquare = MerkleSquare::new(4);
    let mut m2: MerkleSquare = MerkleSquare::new(4);
    m1.append(b"a", b"1", b"s").unwrap();
    m2.append(b"a", b"1", b"s").unwrap();
    m1.append(b"x", b"2", b"s").unwrap();
    m1.append(b"y", b"3", b"s").unwrap();
    m2.append(b"y", b"3", b"s").unwrap();
    m2.append(b"x", b"2", b"s").unwrap();
    assert_eq!(m1.get_digest().size, m2.get_digest().size);
    assert_ne!(m1.get_digest().roots, m2.get_digest().roots);
}

#[test]
fn same_key_and_bytes_in_either_order_give_the_same_digest() {
    // value ++ signature is "12s" both ways, with the same key
    let mut m1: MerkleSquare = MerkleSquare::new(4);
    let mut m2: MerkleSquare = MerkleSquare::new(4);
    m1.append(b"k", b"1", b"2s").unwrap();
    m1.append(b"k", b"12", b"s").unwrap();
    m2.append(b"k", b"12", b"s").unwrap();
    m2.append(b"k", b"1", b"2s").unwrap();
    assert_eq!(m1.get_digest().roots, m2.get_digest().roots);
}

#[test]
fn stored_hashes_and_copath_entries_are_32_bytes() {
    let data: Vec<Vec<u8>> = (1..=5u8).map(|i| vec![i]).collect();
    let zero = MerkleAVC::build_zero_padded_full_tree_from_data(&data);
    let copy = MerkleAVC::build_copy_padded_full_tree_from_data(&data);
    for tree in [&zero, &copy] {
        assert_eq!(tree.root.len(), 32);
        assert!(nodes_of(tree).iter().all(|h| h.len() == 32));
    }
    for i in 0..5u16 {
        let zp = zero.generate_copath_for_zero_padded_full_tree(i).unwrap();
        let cp = copy.generate_copath_for_copy_padded_full_tree(i).unwrap();
        assert!(zp.iter().chain(cp.iter()).all(|h| h.len() == 32));
    }
}

#[test]
fn an_opening_shorter_than_the_tree_opens_an_inner_node() {
    // Binding holds for openings of the committed tree's length: one level
    // shorter, the concatenation of two leaf hashes opens at index 0.
    let vector: Vec<Vec<u8>> = (1..=4u8).map(|i| vec![i]).collect();
    let tree = MerkleAVC::build_zero_padded_full_tree_from_data(&vector);
    let nodes = nodes_of(&tree);
    let commitment = MerkleAVC::commit(&vector, &());
    let inner: Vec<u8> = [nodes[0].clone(), nodes[1].clone()].concat();
    let short_proof = vec![nodes[5].clone()];
    assert!(MerkleAVC::verify(&short_proof, &commitment, &inner, 0, &()));
    let full_proof = MerkleAVC::open(0, &commitment, &vector, &());
    assert_eq!(full_proof.len(), 2);
    assert!(!MerkleAVC::verify(&full_proof, &commitment, &inner, 0, &()));
}
