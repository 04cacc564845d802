use merkle_tree::hash_function_string::{hash_leaf_string, hash_node_string};
use merkle_tree::merkle_tree_string::audit_layers;
use merkle_tree::{MerkleError, MerkleTreeString, SerializationFormat};

fn strings(values: &[&str]) -> Vec<String> {
    values.iter().map(|v| String::from(*v)).collect()
}

#[test]
fn merkle_tree_string_build_tree() {
    let mut merkle_tree_sequence: MerkleTreeString = MerkleTreeString::default();
    merkle_tree_sequence.set_parallel(false);
    merkle_tree_sequence.push(&String::from("a"));
    merkle_tree_sequence.build().unwrap();
    let mut merkle_tree_parallel: MerkleTreeString = MerkleTreeString::default();
    merkle_tree_parallel.push(&String::from("a"));
    merkle_tree_parallel.build().unwrap();
    assert_eq!(merkle_tree_sequence.layers(), merkle_tree_parallel.layers());
}

#[test]
fn merkle_tree_string_build_empty_tree() {
    let mut merkle_tree: MerkleTreeString = MerkleTreeString::default();
    assert_eq!(merkle_tree.build(), Err(MerkleError::NoLeaves));
}

#[test]
fn merkle_tree_string_build_tree_one_leaf() {
    let mut merkle_tree: MerkleTreeString = MerkleTreeString::default();
    merkle_tree.push(&String::from("a"));
    merkle_tree.build().unwrap();
    assert_eq!(merkle_tree.layers(), &vec![strings(&["a"]), strings(&["aa"])]);
}

#[test]
fn merkle_tree_string_build_tree_two_leaf() {
    let mut merkle_tree: MerkleTreeString = MerkleTreeString::default();
    merkle_tree.push(&String::from("a"));
    merkle_tree.push(&String::from("a"));
    merkle_tree.build().unwrap();
    assert_eq!(merkle_tree.layers(), &vec![strings(&["a", "a"]), strings(&["aa"])]);
}

#[test]
fn merkle_tree_string_build_tree_three_leaf() {
    let mut merkle_tree: MerkleTreeString = MerkleTreeString::default();
    merkle_tree.push(&String::from("a"));
    merkle_tree.push(&String::from("a"));
    merkle_tree.push(&String::from("a"));
    merkle_tree.build().unwrap();
    assert_eq!(
        merkle_tree.layers(),
        &vec![strings(&["a", "a", "a"]), strings(&["aa", "aa"]), strings(&["aaaa"])]
    );
}

#[test]
fn merkle_tree_string_build_tree_four_leaf() {
    let mut merkle_tree: MerkleTreeString = MerkleTreeString::default();
    merkle_tree.push(&String::from("a"));
    merkle_tree.push(&String::from("a"));
    merkle_tree.push(&String::from("a"));
    merkle_tree.push(&String::from("a"));
    merkle_tree.build().unwrap();
    assert_eq!(merkle_tree.layers().len(), 3);
    assert_eq!(merkle_tree.layers()[2], strings(&["aaaa"]));
}

#[test]
fn build_tree_from_leafs() {
    let mut merkle_tree =
        MerkleTreeString::from(&strings(&["a", "b", "c", "d"]), SerializationFormat::Json);
    assert_eq!(merkle_tree.layers(), &vec![strings(&["a", "b", "c", "d"])]);
    merkle_tree.build().unwrap();
    assert_eq!(
        merkle_tree.layers(),
        &vec![strings(&["a", "b", "c", "d"]), strings(&["ab", "cd"]), strings(&["abcd"])]
    );
}

#[test]
fn merkle_tree_string_repair_branch() {
    let mut merkle_tree =
        MerkleTreeString::from(&strings(&["a", "b", "c", "d", "e"]), SerializationFormat::Json);
    merkle_tree.build().unwrap();
    let mut merkle_tree_two = MerkleTreeString::from(&strings(&["a"]), SerializationFormat::Json);
    merkle_tree_two.build().unwrap();
    merkle_tree_two.push(&String::from("b"));
    merkle_tree_two.push(&String::from("c"));
    merkle_tree_two.push(&String::from("d"));
    merkle_tree_two.push(&String::from("e"));
    assert_eq!(merkle_tree_two, merkle_tree);
    assert_eq!(merkle_tree_two.layers()[3], strings(&["abcdeeee"]));
}

#[test]
fn merkle_tree_string_audit_proof() {
    let mut merkle_tree =
        MerkleTreeString::from(&strings(&["a", "b", "c", "d", "e"]), SerializationFormat::Json);
    merkle_tree.build().unwrap();
    let proof_path = merkle_tree.audit_proof(&String::from("b")).unwrap();
    assert_eq!(vec![String::from("ab"), String::from("abcd"), String::from("abcdeeee")], proof_path);
}

#[test]
fn string_hashes() {
    assert_eq!(hash_leaf_string(&String::from("ab")), "abab");
    assert_eq!(hash_node_string(&String::from("ab"), &String::from("c")), "abc");
    assert_eq!(hash_leaf_string(&String::new()), "");
}

#[test]
fn string_repair_matches_rebuild() {
    for k in 1..=20usize {
        let values: Vec<String> = (0..k).map(|i| format!("{}", (b'a' + (i % 26) as u8) as char)).collect();
        let mut grown = MerkleTreeString::from(&values[..1], SerializationFormat::Json);
        grown.build().unwrap();
        for value in &values[1..] {
            grown.push(value);
        }
        let mut fresh = MerkleTreeString::from(&values, SerializationFormat::Json);
        fresh.build().unwrap();
        assert_eq!(grown.layers(), fresh.layers(), "leaf count {}", k);
    }
}

#[test]
fn string_audit_of_trailing_singleton() {
    let mut tree =
        MerkleTreeString::from(&strings(&["a", "b", "c", "d", "e"]), SerializationFormat::Json);
    let path = tree.audit_proof(&String::from("e")).unwrap();
    assert_eq!(path, strings(&["ee", "eeee", "abcdeeee"]));
    assert_eq!(tree.audit_proof(&String::from("z")), Err(MerkleError::NotFound));
}

#[test]
fn string_tampered_layer_invalidates_audit() {
    let mut tree =
        MerkleTreeString::from(&strings(&["a", "b", "c", "d", "e"]), SerializationFormat::Json);
    tree.build().unwrap();
    let mut layers = tree.layers().clone();
    layers[2][0] = String::from("abXd");
    assert_eq!(audit_layers(&layers, &String::from("c")), Err(MerkleError::TreeInvalidated));
    assert_eq!(audit_layers(&layers, &String::from("e")), Err(MerkleError::TreeInvalidated));
    assert_eq!(audit_layers(tree.layers(), &String::from("e")), Ok(strings(&["ee", "eeee", "abcdeeee"])));
}

#[test]
fn string_recursive_audit_path_from_middle() {
    let mut tree =
        MerkleTreeString::from(&strings(&["a", "b", "c", "d", "e"]), SerializationFormat::Json);
    tree.build().unwrap();
    let path = tree.recursive_audit_path(String::from("cd"), 1, 1, vec![String::from("cd")]);
    assert_eq!(path, Ok(strings(&["cd", "abcd", "abcdeeee"])));
    let bad = tree.recursive_audit_path(String::from("xx"), 1, 1, Vec::new());
    assert_eq!(bad, Err(MerkleError::TreeInvalidated));
}
