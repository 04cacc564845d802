use merkle_tree::hash_function::{hash_leaf, hash_node};
use merkle_tree::merkle_tree::audit_layers;
use merkle_tree::{MerkleError, MerkleTree, SerializationFormat};

fn json<T: serde::Serialize>(value: &T) -> Vec<u8> {
    serde_json::to_string(value).unwrap().into_bytes()
}

fn msgpack<T: serde::Serialize>(value: &T) -> Vec<u8> {
    rmp_serde::to_vec(value).unwrap()
}

fn json_tree(values: &[&str]) -> MerkleTree {
    let encoded: Vec<Vec<u8>> = values.iter().map(|v| json(v)).collect();
    MerkleTree::from(&encoded, SerializationFormat::Json)
}

fn root(tree: &MerkleTree) -> [u8; 32] {
    tree.get_merkle_root().unwrap()
}

#[test]
fn merkle_tree_build_tree() {
    let mut merkle_tree_sequence: MerkleTree = MerkleTree::default();
    merkle_tree_sequence.set_parallel(false);
    merkle_tree_sequence.push(&msgpack(&["a"]));
    merkle_tree_sequence.build().unwrap();
    let mut merkle_tree_parallel: MerkleTree = MerkleTree::default();
    merkle_tree_parallel.push(&msgpack(&["a"]));
    merkle_tree_parallel.build().unwrap();
    assert_eq!(merkle_tree_sequence.layers(), merkle_tree_parallel.layers());
}

#[test]
fn merkle_tree_build_empty_tree() {
    let mut merkle_tree: MerkleTree = MerkleTree::default();
    assert_eq!(merkle_tree.build(), Err(MerkleError::NoLeaves));
    assert!(!merkle_tree.is_built());
}

#[test]
fn merkle_tree_build_tree_one_leaf() {
    let mut merkle_tree: MerkleTree = MerkleTree::default();
    merkle_tree.push(&msgpack(&["a"]));
    merkle_tree.build().unwrap();
    assert_eq!(merkle_tree.layers().len(), 2);
}

#[test]
fn merkle_tree_build_tree_two_leaf() {
    let mut merkle_tree: MerkleTree = MerkleTree::default();
    merkle_tree.push(&msgpack(&["a"]));
    merkle_tree.push(&msgpack(&["a"]));
    merkle_tree.build().unwrap();
    assert_eq!(merkle_tree.layers().len(), 2);
}

#[test]
fn merkle_tree_build_tree_three_leaf() {
    let mut merkle_tree: MerkleTree = MerkleTree::default();
    merkle_tree.push(&msgpack(&["a"]));
    merkle_tree.push(&msgpack(&["a"]));
    merkle_tree.push(&msgpack(&["a"]));
    merkle_tree.build().unwrap();
    assert_eq!(merkle_tree.layers().len(), 3);
}

#[test]
fn merkle_tree_build_tree_four_leaf() {
    let mut merkle_tree: MerkleTree = MerkleTree::default();
    merkle_tree.push(&msgpack(&["a"]));
    merkle_tree.push(&msgpack(&["a"]));
    merkle_tree.push(&msgpack(&["a"]));
    merkle_tree.push(&msgpack(&["a"]));
    merkle_tree.build().unwrap();
    assert_eq!(merkle_tree.layers().len(), 3);
}

#[test]
fn build_tree_from_leaves() {
    let mut merkle_tree = json_tree(&["a", "b", "c", "d"]);
    assert_eq!(merkle_tree.layers().len(), 1);
    merkle_tree.build().unwrap();
    let sizes: Vec<usize> = merkle_tree.layers().iter().map(|l| l.len()).collect();
    assert_eq!(sizes, vec![4, 2, 1]);
}

#[test]
fn merkle_tree_repair_branch() {
    let mut merkle_tree = json_tree(&["a", "b"]);
    merkle_tree.build().unwrap();
    let serialized_hashed_a = hash_leaf(&json(&String::from("a")));
    let serialized_hashed_b = hash_leaf(&json(&String::from("b")));
    let merkle_root_hash_of_a_and_b = hash_node(&serialized_hashed_a, &serialized_hashed_b);
    assert_eq!(merkle_root_hash_of_a_and_b, root(&merkle_tree));
    let mut merkle_tree_two = json_tree(&["a"]);
    merkle_tree_two.build().unwrap();
    merkle_tree_two.push(&json(&String::from("b")));
    assert_eq!(root(&merkle_tree_two), merkle_root_hash_of_a_and_b);
    assert_eq!(merkle_tree_two, merkle_tree);
}

#[test]
fn merkle_tree_audit_proof() {
    let mut merkle_tree = json_tree(&["a", "b", "c", "d", "e"]);
    merkle_tree.build().unwrap();
    let proof_path = merkle_tree
        .audit_proof(&[
            172, 141, 131, 66, 187, 178, 54, 45, 19, 240, 165, 89, 163, 98, 27, 180, 7, 1, 19, 104,
            137, 81, 100, 182, 40, 165, 79, 127, 195, 63, 196, 60,
        ])
        .unwrap();
    assert_eq!(
        vec![
            [
                224, 150, 20, 187, 185, 181, 68, 71, 210, 163, 91, 57, 42, 191, 172, 41, 131, 97,
                49, 134, 252, 218, 101, 205, 255, 82, 137, 117, 72, 120, 140, 89
            ],
            [
                243, 222, 175, 150, 147, 229, 193, 133, 250, 27, 86, 246, 219, 151, 51, 244, 155,
                175, 6, 23, 223, 146, 224, 116, 207, 83, 107, 170, 154, 252, 5, 32
            ],
            [
                50, 111, 53, 115, 90, 175, 184, 3, 43, 167, 87, 45, 15, 87, 106, 177, 119, 3, 240,
                177, 194, 92, 104, 105, 85, 17, 37, 18, 59, 224, 113, 39
            ]
        ],
        proof_path
    );
}

#[test]
fn sha256_of_known_input() {
    let expected: [u8; 32] = [
        0xba, 0x78, 0x16, 0xbf, 0x8f, 0x01, 0xcf, 0xea, 0x41, 0x41, 0x40, 0xde, 0x5d, 0xae, 0x22,
        0x23, 0xb0, 0x03, 0x61, 0xa3, 0x96, 0x17, 0x7a, 0x9c, 0xb4, 0x10, 0xff, 0x61, 0xf2, 0x00,
        0x15, 0xad,
    ];
    assert_eq!(hash_leaf(b"abc"), expected);
    assert_eq!(hash_node(b"ab", b"c"), expected);
    assert_ne!(hash_leaf(b"ab"), expected);
}

#[test]
fn sequential_and_parallel_builds_agree() {
    for n in 1..40usize {
        let values: Vec<String> = (0..n).map(|i| format!("v{}", i)).collect();
        let encoded: Vec<Vec<u8>> = values.iter().map(|v| json(v)).collect();
        let mut sequential = MerkleTree::from(&encoded, SerializationFormat::Json);
        sequential.set_parallel(false);
        sequential.build().unwrap();
        let mut parallel = MerkleTree::from(&encoded, SerializationFormat::Json);
        parallel.build().unwrap();
        assert_eq!(sequential.layers(), parallel.layers());
        assert_eq!(root(&sequential), root(&parallel));
    }
}

#[test]
fn repair_matches_rebuild() {
    for k in 1..=40usize {
        let encoded: Vec<Vec<u8>> = (0..k).map(|i| json(&format!("leaf{}", i))).collect();
        let mut grown = MerkleTree::from(&encoded[..1], SerializationFormat::Json);
        grown.build().unwrap();
        for value in &encoded[1..] {
            grown.push(value);
        }
        let mut fresh = MerkleTree::from(&encoded, SerializationFormat::Json);
        fresh.build().unwrap();
        assert_eq!(grown.layers(), fresh.layers(), "leaf count {}", k);
    }
}

#[test]
fn singleton_root_is_rehashed_leaf() {
    let mut tree = json_tree(&["x"]);
    tree.build().unwrap();
    let leaf = hash_leaf(&json(&"x"));
    assert_eq!(tree.layers()[0], vec![leaf]);
    assert_eq!(root(&tree), hash_leaf(&leaf));
    assert_ne!(root(&tree), leaf);
}

#[test]
fn audit_round_trip_for_every_leaf() {
    for n in 1..14usize {
        let values: Vec<String> = (0..n).map(|i| format!("t{}", i)).collect();
        let encoded: Vec<Vec<u8>> = values.iter().map(|v| json(v)).collect();
        let mut tree = MerkleTree::from(&encoded, SerializationFormat::Json);
        tree.build().unwrap();
        let leaves = tree.layers()[0].clone();
        let height = tree.layers().len();
        for (index, leaf) in leaves.iter().enumerate() {
            let path = tree.audit_proof(leaf).unwrap();
            assert_eq!(path.len(), height - 1);
            assert_eq!(*path.last().unwrap(), root(&tree));
            let mut current = *leaf;
            let mut position = index;
            for (layer, expected) in tree.layers().iter().zip(path.iter()) {
                current = if position % 2 == 1 {
                    hash_node(&layer[position - 1], &current)
                } else if position + 1 < layer.len() {
                    hash_node(&current, &layer[position + 1])
                } else {
                    hash_leaf(&current)
                };
                assert_eq!(current, *expected);
                position /= 2;
            }
        }
    }
}

#[test]
fn tampered_digest_invalidates_audit() {
    let mut tree = json_tree(&["a", "b", "c", "d", "e"]);
    tree.build().unwrap();
    let leaf = tree.layers()[0][2];
    assert!(audit_layers(tree.layers(), &leaf).is_ok());
    for layer in 1..tree.layers().len() {
        let mut layers = tree.layers().clone();
        let position = 2 >> layer;
        layers[layer][position][0] ^= 1;
        assert_eq!(audit_layers(&layers, &leaf), Err(MerkleError::TreeInvalidated));
    }
}

#[test]
fn scenario_three_then_four_leaves() {
    let mut tree = json_tree(&["a", "b", "c"]);
    tree.build().unwrap();
    let a = hash_leaf(&json(&"a"));
    let b = hash_leaf(&json(&"b"));
    let c = hash_leaf(&json(&"c"));
    let layers = tree.layers().clone();
    assert_eq!(layers.len(), 3);
    assert_eq!(layers[0], vec![a, b, c]);
    assert_eq!(layers[1], vec![hash_node(&a, &b), hash_leaf(&c)]);
    assert_eq!(layers[2], vec![hash_node(&layers[1][0], &layers[1][1])]);
    tree.push(&json(&"d"));
    let mut fresh = json_tree(&["a", "b", "c", "d"]);
    fresh.build().unwrap();
    assert_eq!(root(&tree), root(&fresh));
    assert_eq!(tree, fresh);
}

#[test]
fn root_before_build_is_not_built() {
    let tree = json_tree(&["a", "b"]);
    assert_eq!(tree.get_merkle_root(), Err(MerkleError::NotBuilt));
    let empty = MerkleTree::default();
    assert_eq!(empty.get_merkle_root(), Err(MerkleError::NotBuilt));
}

#[test]
fn audit_of_absent_leaf_is_not_found() {
    let mut tree = json_tree(&["a", "b", "c"]);
    assert_eq!(tree.audit_proof(&[7u8; 32]), Err(MerkleError::NotFound));
    assert!(tree.is_built());
}

#[test]
fn audit_on_empty_tree_has_no_leaves() {
    let mut tree = MerkleTree::default();
    assert_eq!(tree.audit_proof(&[0u8; 32]), Err(MerkleError::NoLeaves));
}

#[test]
fn audit_of_single_leaf() {
    let mut tree = json_tree(&["only"]);
    let leaf = hash_leaf(&json(&"only"));
    assert_eq!(tree.audit_proof(&leaf), Ok(vec![hash_leaf(&leaf)]));
    assert_eq!(tree.audit_proof(&[1u8; 32]), Err(MerkleError::TreeInvalidated));
}

#[test]
fn audit_uses_first_matching_leaf() {
    let mut tree = json_tree(&["a", "b", "a", "c"]);
    tree.build().unwrap();
    let a = hash_leaf(&json(&"a"));
    let b = hash_leaf(&json(&"b"));
    let path = tree.audit_proof(&a).unwrap();
    assert_eq!(path[0], hash_node(&a, &b));
}

#[test]
fn build_twice_rebuilds_from_leaves() {
    let mut tree = json_tree(&["a", "b", "c"]);
    tree.build().unwrap();
    let first = tree.layers().clone();
    tree.build().unwrap();
    assert_eq!(tree.layers(), &first);
    tree.push(&json(&"d"));
    tree.build().unwrap();
    let mut fresh = json_tree(&["a", "b", "c", "d"]);
    fresh.build().unwrap();
    assert_eq!(tree, fresh);
}

#[test]
fn push_before_build_only_appends() {
    let mut tree = MerkleTree::default();
    tree.push(&msgpack(&"a"));
    tree.push(&msgpack(&"b"));
    assert_eq!(tree.layers().len(), 1);
    assert_eq!(tree.layers()[0], vec![hash_leaf(&msgpack(&"a")), hash_leaf(&msgpack(&"b"))]);
    assert_eq!(tree.format(), SerializationFormat::MsgPack);
    assert!(tree.parallel());
}

#[test]
fn recursive_audit_path_from_inner_layer() {
    let mut tree = json_tree(&["a", "b", "c", "d", "e"]);
    tree.build().unwrap();
    let layers = tree.layers().clone();
    let path = tree.recursive_audit_path(layers[1][1], 1, 1, Vec::new()).unwrap();
    assert_eq!(path, vec![layers[2][0], layers[3][0]]);
    assert_eq!(
        tree.recursive_audit_path([9u8; 32], 1, 1, Vec::new()),
        Err(MerkleError::TreeInvalidated)
    );
    assert_eq!(tree.recursive_audit_path(layers[3][0], 0, 3, Vec::new()), Ok(Vec::new()));
}
