use mavacs_plus::crypto::merkle::errors::TreeIndexError;
use mavacs_plus::crypto::merkle::merkle::{MerkleAVC, TreeStorageType};
use sha3::{Digest, Sha3_256};

#[test]
fn test_parent_index_calculation_zero_padding() {
    let height = 4;

    // For height 4: root_index = 14
    assert_eq!(MerkleAVC::get_parent_index_zero_padding(height, 12), Ok(14));
    assert_eq!(MerkleAVC::get_parent_index_zero_padding(height, 13), Ok(14));
    assert_eq!(MerkleAVC::get_parent_index_zero_padding(height, 10), Ok(13));
    assert_eq!(MerkleAVC::get_parent_index_zero_padding(height, 11), Ok(13));
}

#[test]
fn test_parent_index_calculation_copy_padding() {
    assert_eq!(MerkleAVC::get_parent_index_copy_padding(2, 5, 0), Ok(6));

    assert_eq!(MerkleAVC::get_parent_index_copy_padding(5, 3, 5), Ok(8));

    assert_eq!(MerkleAVC::get_parent_index_copy_padding(7, 3, 5), Ok(9));
}

#[test]
fn test_root_index_copy_padding() {
    let test_cases = vec![(2, 2), (5, 10)];

    for (num_attributes, expected_nodes) in test_cases {
        assert_eq!(
            MerkleAVC::root_index_copy_padding(num_attributes),
            expected_nodes,
            "Failed for {} attributes",
            num_attributes
        );
    }
}

#[test]
fn tests_test_root_has_no_parent() {
    let height = 4;

    let result = MerkleAVC::get_parent_index_zero_padding(height, 14);
    assert!(result.is_err());
    assert_eq!(result.unwrap_err(), TreeIndexError::RootHasNoParent);
}

#[test]
fn tests_test_parent_index_out_of_bounds() {
    let height = 4;

    let result = MerkleAVC::get_parent_index_zero_padding(height, 15);
    assert!(result.is_err());
    assert_eq!(result.unwrap_err(), TreeIndexError::IndexOutOfBounds);
}

#[test]
fn tests_test_left_child_index_calculation() {
    let height = 4;

    assert_eq!(MerkleAVC::get_left_child_index_zero_padding(height, 14), Ok(12));
    assert_eq!(MerkleAVC::get_left_child_index_zero_padding(height, 13), Ok(10));
    assert_eq!(MerkleAVC::get_left_child_index_zero_padding(height, 12), Ok(8));
}

#[test]
fn tests_test_right_child_index_calculation() {
    let height = 4;

    assert_eq!(MerkleAVC::get_right_child_index_zero_padding(height, 14), Ok(13));
    assert_eq!(MerkleAVC::get_right_child_index_zero_padding(height, 13), Ok(11));
    assert_eq!(MerkleAVC::get_right_child_index_zero_padding(height, 12), Ok(9));
}

#[test]
fn tests_test_leaf_has_no_children() {
    let height = 4;

    let left_result = MerkleAVC::get_left_child_index_zero_padding(height, 5);
    assert!(left_result.is_err());
    assert_eq!(left_result.unwrap_err(), TreeIndexError::LeafHasNoChildren);

    let right_result = MerkleAVC::get_right_child_index_zero_padding(height, 5);
    assert!(right_result.is_err());
    assert_eq!(right_result.unwrap_err(), TreeIndexError::LeafHasNoChildren);
}

#[test]
fn tests_test_child_index_out_of_bounds() {
    let height = 4;

    let left_result = MerkleAVC::get_left_child_index_zero_padding(height, 15);
    assert!(left_result.is_err());
    assert_eq!(left_result.unwrap_err(), TreeIndexError::IndexOutOfBounds);

    let right_result = MerkleAVC::get_right_child_index_zero_padding(height, 15);
    assert!(right_result.is_err());
    assert_eq!(right_result.unwrap_err(), TreeIndexError::IndexOutOfBounds);
}

#[test]
fn tests_test_build_zero_padded_tree_basic() {
    let data = vec![vec![1u8, 2u8], vec![3u8, 4u8], vec![5u8, 6u8]];

    let tree = MerkleAVC::build_zero_padded_full_tree_from_data(&data);

    assert_eq!(tree.height, 3);
    assert_eq!(tree.num_attributes, 3);
    assert!(!tree.root.is_empty());

    match tree.stored_values {
        TreeStorageType::StoredLeavesAndCalculatedHashes(ref nodes) => {
            assert_eq!(nodes.len(), 7);
        }
        _ => panic!("Expected StoredLeavesAndCalculatedHashes"),
    }
}

#[test]
fn test_build_copy_padded_tree_basic() {
    let data = vec![
        vec![1u8, 2u8],
        vec![3u8, 4u8],
        vec![5u8, 6u8],
        vec![7u8, 8u8],
        vec![9u8, 10u8],
    ];

    let tree = MerkleAVC::build_copy_padded_full_tree_from_data(&data);

    assert_eq!(tree.height, 4);
    assert_eq!(tree.num_attributes, 5);
    assert!(!tree.root.is_empty());

    match tree.stored_values {
        TreeStorageType::StoredLeavesAndCalculatedHashes(ref nodes) => {
            assert_eq!(nodes.len(), 11);
        }
        _ => panic!("Expected StoredLeavesAndCalculatedHashes"),
    }
}

#[test]
fn tests_test_build_zero_padded_tree_power_of_two() {
    let data = vec![vec![1u8], vec![2u8], vec![3u8], vec![4u8]];

    let tree = MerkleAVC::build_zero_padded_full_tree_from_data(&data);

    assert_eq!(tree.height, 3);
    assert_eq!(tree.num_attributes, 4);
}

#[test]
fn tests_test_build_zero_padded_tree_single_element() {
    let data = vec![vec![42u8]];

    let tree = MerkleAVC::build_zero_padded_full_tree_from_data(&data);

    assert_eq!(tree.height, 1);
    assert_eq!(tree.num_attributes, 1);

    let mut hasher = Sha3_256::new();
    hasher.update(&[42u8]);
    let expected_root = hasher.finalize().to_vec();
    assert_eq!(tree.root, expected_root);
}

#[test]
fn test_generate_copath_first_leaf_zero_padding() {
    let data = vec![vec![1u8], vec![2u8], vec![3u8], vec![4u8]];

    let tree = MerkleAVC::build_zero_padded_full_tree_from_data(&data);

    let copath = tree.generate_copath_for_zero_padded_full_tree(0).unwrap();

    assert_eq!(copath.len(), 2);

    for hash in &copath {
        assert!(!hash.is_empty());
    }
}

#[test]
fn test_generate_copath_middle_leaf_zero_padding() {
    let data = vec![vec![1u8], vec![2u8], vec![3u8], vec![4u8]];

    let tree = MerkleAVC::build_zero_padded_full_tree_from_data(&data);

    let copath = tree.generate_copath_for_zero_padded_full_tree(2).unwrap();

    assert_eq!(copath.len(), 2);
}

#[test]
fn test_generate_copath_out_of_bounds_zero_padding() {
    let data = vec![vec![1u8], vec![2u8]];
    let tree = MerkleAVC::build_zero_padded_full_tree_from_data(&data);

    let result = tree.generate_copath_for_zero_padded_full_tree(5);
    assert!(result.is_err(), "Should return error for out of bounds index");
}

#[test]
fn test_verify_copath_valid_zero_padding() {
    let data = vec![vec![10u8, 20u8], vec![30u8, 40u8], vec![50u8, 60u8]];

    let tree = MerkleAVC::build_zero_padded_full_tree_from_data(&data);

    match tree.stored_values {
        TreeStorageType::StoredLeavesAndCalculatedHashes(ref nodes) => {
            println!("Tree nodes: {:#?}", nodes);
        }
        _ => panic!("Expected StoredLeavesAndCalculatedHashes"),
    }

    let copath = tree.generate_copath_for_zero_padded_full_tree(1).unwrap();

    println!("Copath for index 1: {:#?}", copath);

    let is_valid =
        MerkleAVC::verify_copath_for_zero_padded_full_tree(&copath, &tree.root, &data[1], 1, tree.height);

    assert!(is_valid, "Valid copath should verify successfully");
}

#[test]
fn test_verify_copath_invalid_value_zero_padding() {
    let data = vec![vec![10u8], vec![20u8], vec![30u8]];

    let tree = MerkleAVC::build_zero_padded_full_tree_from_data(&data);

    let copath = tree.generate_copath_for_zero_padded_full_tree(0).unwrap();

    let wrong_value = vec![99u8];
    let is_valid = MerkleAVC::verify_copath_for_zero_padded_full_tree(
        &copath,
        &tree.root,
        &wrong_value,
        0,
        tree.height,
    );

    assert!(!is_valid, "Invalid value should fail verification");
}

#[test]
fn test_verify_copath_wrong_length_zero_padding() {
    let data = vec![vec![1u8], vec![2u8]];
    let tree = MerkleAVC::build_zero_padded_full_tree_from_data(&data);

    let wrong_copath = vec![vec![0u8; 32]];

    let is_valid = MerkleAVC::verify_copath_for_zero_padded_full_tree(
        &wrong_copath,
        &tree.root,
        &vec![1u8],
        0,
        tree.height,
    );

    assert!(!is_valid, "Wrong copath length should fail verification");
}

#[test]
fn test_copath_roundtrip_all_leaves_zero_padding() {
    let data = vec![vec![100u8], vec![200u8], vec![50u8], vec![150u8], vec![250u8]];

    let tree = MerkleAVC::build_zero_padded_full_tree_from_data(&data);

    for (index, value) in data.iter().enumerate() {
        let copath = tree.generate_copath_for_zero_padded_full_tree(index as u16).unwrap();

        let is_valid: bool = MerkleAVC::verify_copath_for_zero_padded_full_tree(
            &copath,
            &tree.root,
            value,
            index as u16,
            tree.height,
        );

        assert!(is_valid, "Copath for leaf {} should verify", index);
    }
}

#[test]
fn test_verify_copath_wrong_root_zero_padding() {
    let data = vec![vec![1u8], vec![2u8]];
    let tree = MerkleAVC::build_zero_padded_full_tree_from_data(&data);

    let copath = tree.generate_copath_for_zero_padded_full_tree(0).unwrap();

    let wrong_root = vec![0u8; 32];
    let is_valid =
        MerkleAVC::verify_copath_for_zero_padded_full_tree(&copath, &wrong_root, &data[0], 0, tree.height);

    assert!(!is_valid, "Wrong root should fail verification");
}

#[test]
fn test_generate_copath_first_leaf_copy_padding() {
    let data = vec![vec![1u8], vec![2u8], vec![3u8], vec![4u8], vec![5u8]];

    let tree = MerkleAVC::build_copy_padded_full_tree_from_data(&data);

    println!("Tree height: {}", tree.height);
    println!("Number of attributes: {}", tree.num_attributes);
    println!("Tree root: {:?}", tree.root);

    let copath = tree.generate_copath_for_copy_padded_full_tree(0).unwrap();

    assert_eq!(copath.len(), 3);

    for hash in &copath {
        assert!(!hash.is_empty());
    }
}

#[test]
fn test_verify_copath_valid_copy_padding() {
    let data = vec![vec![10u8, 20u8], vec![30u8, 40u8], vec![50u8, 60u8]];

    let tree = MerkleAVC::build_copy_padded_full_tree_from_data(&data);

    match tree.stored_values {
        TreeStorageType::StoredLeavesAndCalculatedHashes(ref nodes) => {
            println!("Pretty-printed debug of points: {:#?}", nodes);
        }
        _ => panic!("Expected StoredLeavesAndCalculatedHashes"),
    }

    let copath = tree.generate_copath_for_copy_padded_full_tree(1).unwrap();

    println!("Copath for index 1: {:#?}", copath);

    let is_valid = MerkleAVC::verify_copath_for_copy_padded_full_tree(
        &copath,
        &tree.root,
        &data[1],
        1,
        tree.num_attributes,
    );

    assert!(is_valid, "Valid copath should verify successfully");
}

#[test]
fn test_verify_copath_invalid_value_copy_padding() {
    let data = vec![vec![1u8], vec![2u8], vec![3u8]];

    let tree = MerkleAVC::build_copy_padded_full_tree_from_data(&data);

    let copath = tree.generate_copath_for_copy_padded_full_tree(0).unwrap();
    println!("test copath: {:#?}", copath);
    let wrong_value = vec![5u8];
    println!("wrong value: {:?}", wrong_value);
    let is_valid = MerkleAVC::verify_copath_for_copy_padded_full_tree(
        &copath,
        &tree.root,
        &wrong_value,
        0,
        tree.num_attributes,
    );

    println!("is valid: {}", is_valid);

    assert!(!is_valid, "Invalid value should fail verification");
}

#[test]
fn test_copath_roundtrip_all_leaves_copy_padding() {
    let data = vec![vec![100u8], vec![200u8], vec![50u8], vec![150u8], vec![250u8]];

    let tree = MerkleAVC::build_copy_padded_full_tree_from_data(&data);

    match tree.stored_values {
        TreeStorageType::StoredLeavesAndCalculatedHashes(ref nodes) => {
            println!("Pretty-printed debug of points: {:#?}", nodes);
        }
        _ => panic!("Expected StoredLeavesAndCalculatedHashes"),
    }

    for (index, value) in data.iter().enumerate() {
        let copath = tree.generate_copath_for_copy_padded_full_tree(index as u16).unwrap();

        println!("index: {}", index);
        println!("copath: {:#?}", copath);

        let is_valid: bool = MerkleAVC::verify_copath_for_copy_padded_full_tree(
            &copath,
            &tree.root,
            value,
            index as u16,
            tree.num_attributes,
        );

        assert!(is_valid, "Copath for leaf {} should verify", index);
    }
}
