use merkle_trie::store::db::{Database, TrieDB};
use merkle_trie::store::types::{Leaf, Node, Root};
use std::collections::HashMap;

fn leaf_with(data: u8) -> Node {
    Node::Leaf(Leaf::new(vec![0; 256], Some(vec![data])))
}

fn data_of(node: Option<Node>) -> Option<Vec<u8>> {
    match node {
        Some(Node::Leaf(leaf)) => leaf.data,
        _ => None,
    }
}

#[test]
fn get_of_what_was_never_put_is_none() {
    let mut db = TrieDB {
        nodes: HashMap::new(),
    };
    assert!(db.get(&[1, 2, 3]).is_none());
    assert!(db.get(&[]).is_none());
    db.insert(&[1, 2, 3], leaf_with(1));
    assert!(db.get(&[1, 2]).is_none());
    assert!(db.get(&[1, 2, 3, 0]).is_none());
    assert!(db.get(&[]).is_none());
}

#[test]
fn get_gives_what_was_put_last() {
    let mut db = TrieDB {
        nodes: HashMap::new(),
    };
    db.insert(&[9; 32], leaf_with(1));
    assert_eq!(data_of(db.get(&[9; 32])), Some(vec![1]));
    db.insert(&[9; 32], leaf_with(2));
    assert_eq!(data_of(db.get(&[9; 32])), Some(vec![2]));
    db.insert(&[9; 32], Node::Root(Root::empty()));
    assert!(matches!(db.get(&[9; 32]), Some(Node::Root(_))));
}

#[test]
fn put_is_idempotent() {
    let mut db = TrieDB {
        nodes: HashMap::new(),
    };
    db.insert(&[9; 32], leaf_with(1));
    db.insert(&[9; 32], leaf_with(1));
    assert_eq!(db.nodes.len(), 1);
    assert_eq!(db.nodes.values().map(|shelf| shelf.len()).sum::<usize>(), 1);
    assert_eq!(data_of(db.get(&[9; 32])), Some(vec![1]));
}

#[test]
fn keys_that_begin_alike_are_kept_apart() {
    let mut db = TrieDB {
        nodes: HashMap::new(),
    };
    let mut first = vec![7u8; 32];
    let mut second = vec![7u8; 32];
    first[31] = 1;
    second[31] = 2;
    db.insert(&first, leaf_with(1));
    db.insert(&second, leaf_with(2));
    db.insert(&[7u8; 8], leaf_with(3));
    db.insert(&[7u8; 9], leaf_with(4));
    assert_eq!(data_of(db.get(&first)), Some(vec![1]));
    assert_eq!(data_of(db.get(&second)), Some(vec![2]));
    assert_eq!(data_of(db.get(&[7u8; 8])), Some(vec![3]));
    assert_eq!(data_of(db.get(&[7u8; 9])), Some(vec![4]));
    db.insert(&first, leaf_with(5));
    assert_eq!(data_of(db.get(&first)), Some(vec![5]));
    assert_eq!(data_of(db.get(&second)), Some(vec![2]));
    // Short keys, and keys that differ in a leading zero.
    db.insert(&[], leaf_with(6));
    db.insert(&[0], leaf_with(7));
    db.insert(&[0, 0], leaf_with(8));
    assert_eq!(data_of(db.get(&[])), Some(vec![6]));
    assert_eq!(data_of(db.get(&[0])), Some(vec![7]));
    assert_eq!(data_of(db.get(&[0, 0])), Some(vec![8]));
}

#[test]
fn get_hands_out_a_copy() {
    let mut db = TrieDB {
        nodes: HashMap::new(),
    };
    db.insert(&[1; 32], leaf_with(1));
    if let Some(Node::Leaf(mut leaf)) = db.get(&[1; 32]) {
        leaf.data = Some(vec![99]);
    }
    assert_eq!(data_of(db.get(&[1; 32])), Some(vec![1]));
}
