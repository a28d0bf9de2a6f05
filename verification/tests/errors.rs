use merkle_trie::error::TrieError;
use merkle_trie::merkle::{fold_merkle_proof, merkle_proof, verify_merkle_proof};
use merkle_trie::store::db::{Database, TrieDB};
use merkle_trie::store::types::{Branch, Hashable, Leaf, Node, Root};
use merkle_trie::{check_leaf, insert_leaf, traverse_trie, update_modified_leafs};
use std::collections::HashMap;

fn hashed(key: Vec<u8>, data: Option<Vec<u8>>) -> Leaf {
    let mut leaf = Leaf::new(key, data);
    leaf.hash().unwrap();
    leaf
}

fn empty_db() -> TrieDB {
    TrieDB {
        nodes: HashMap::new(),
    }
}

#[test]
fn error_names() {
    assert_eq!(TrieError::DuplicateLeaf.name(), "DuplicateLeaf");
    assert_eq!(TrieError::InvalidChild.name(), "InvalidChild");
    assert_eq!(TrieError::InvalidParent.name(), "InvalidParent");
    assert_eq!(TrieError::InvalidBranch.name(), "InvalidBranch");
    assert_eq!(TrieError::MissingNode.name(), "MissingNode");
    assert_eq!(TrieError::CodecError.name(), "CodecError");
    assert_eq!(TrieError::HashMissing.name(), "HashMissing");
    assert_eq!(TrieError::RootMismatch.name(), "RootMismatch");
}

#[test]
fn error_as_io_error() {
    let error: std::io::Error = TrieError::MissingNode.into();
    assert_eq!(error.kind(), std::io::ErrorKind::Other);
    assert_eq!(error.to_string(), "MissingNode");
    let error = std::io::Error::from(TrieError::DuplicateLeaf);
    assert_eq!(error.to_string(), "DuplicateLeaf");
}

#[test]
fn unwrap_as_the_variant() {
    let leaf = Node::Leaf(Leaf::empty(vec![0; 256]));
    let branch = Node::Branch(Branch::empty(vec![1]));
    let root = Node::Root(Root::empty());
    assert!(root.clone().unwrap_as_root().is_ok());
    assert!(branch.clone().unwrap_as_branch().is_ok());
    assert!(leaf.clone().unwrap_as_leaf().is_ok());
    assert_eq!(
        leaf.clone().unwrap_as_root().err(),
        Some(TrieError::InvalidParent)
    );
    assert_eq!(
        branch.clone().unwrap_as_root().err(),
        Some(TrieError::InvalidParent)
    );
    assert_eq!(
        leaf.unwrap_as_branch().err(),
        Some(TrieError::InvalidBranch)
    );
    assert_eq!(
        root.clone().unwrap_as_branch().err(),
        Some(TrieError::InvalidBranch)
    );
    assert_eq!(root.unwrap_as_leaf().err(), Some(TrieError::InvalidChild));
    assert_eq!(branch.unwrap_as_leaf().err(), Some(TrieError::InvalidChild));
}

#[test]
fn node_without_hash_is_not_stored() {
    let mut db = empty_db();
    assert_eq!(
        Leaf::empty(vec![0; 256]).store(&mut db),
        Err(TrieError::HashMissing)
    );
    assert_eq!(
        Branch::empty(vec![0]).store(&mut db),
        Err(TrieError::HashMissing)
    );
    assert_eq!(Root::empty().store(&mut db), Err(TrieError::HashMissing));
    assert_eq!(db.nodes.len(), 0);
}

#[test]
fn hash_and_store_keeps_the_node_under_its_digest() {
    let mut db = empty_db();
    let mut leaf = Leaf::new(vec![1; 256], Some(vec![1]));
    leaf.hash_and_store(&mut db).unwrap();
    let digest = leaf.hash.clone().unwrap();
    match db.get(&digest) {
        Some(Node::Leaf(stored)) => assert_eq!(stored, leaf),
        other => panic!("stored {:?}", other),
    }
    let mut branch = Branch::new(vec![4], Some(digest.clone()), Some(digest.clone()));
    branch.hash_and_store(&mut db).unwrap();
    match db.get(&branch.hash.clone().unwrap()) {
        Some(Node::Branch(stored)) => {
            assert_eq!(stored.key, vec![4]);
            assert_eq!(stored.left, Some(digest.clone()));
            assert_eq!(stored.hash, branch.hash);
        }
        other => panic!("stored {:?}", other),
    }
    let mut root = Root::empty();
    root.right = branch.hash.clone();
    root.hash_and_store(&mut db).unwrap();
    match db.get(&root.hash.clone().unwrap()) {
        Some(Node::Root(stored)) => {
            assert_eq!(stored.left, None);
            assert_eq!(stored.right, branch.hash);
        }
        other => panic!("stored {:?}", other),
    }
    // What has no serialization is not stored.
    let mut branch = Branch::empty(vec![4]);
    let size = db.nodes.len();
    assert_eq!(
        branch.hash_and_store(&mut db),
        Err(TrieError::InvalidBranch)
    );
    assert_eq!(db.nodes.len(), size);
}

#[test]
fn branch_update_replaces_both_children() {
    let mut branch = Branch::new(vec![9], Some(vec![1; 32]), None);
    branch.hash = Some(vec![7; 32]);
    branch.update(None, Some(vec![2; 32]));
    assert_eq!(branch.left, None);
    assert_eq!(branch.right, Some(vec![2; 32]));
    assert_eq!(branch.key, vec![9]);
    assert_eq!(branch.hash, Some(vec![7; 32]));
}

#[test]
fn leaf_without_hash_is_not_inserted() {
    let mut db = empty_db();
    let mut leaf = Leaf::empty(vec![0; 256]);
    let result = insert_leaf(&mut db, &mut leaf, Node::Root(Root::empty()));
    assert_eq!(result.err(), Some(TrieError::HashMissing));
    assert_eq!(db.nodes.len(), 0);
    // Also where it meets a leaf.
    let mut first = hashed(vec![0; 256], None);
    let root = insert_leaf(&mut db, &mut first, Node::Root(Root::empty())).unwrap();
    let size = db.nodes.len();
    let mut second = Leaf::empty(vec![0; 255].into_iter().chain([1]).collect());
    let result = insert_leaf(&mut db, &mut second, Node::Root(root));
    assert_eq!(result.err(), Some(TrieError::HashMissing));
    assert_eq!(db.nodes.len(), size);
}

#[test]
fn missing_node_gives_an_error() {
    let mut db = empty_db();
    let root = Root {
        hash: None,
        left: Some(vec![0x55; 32]),
        right: None,
    };
    let mut leaf = hashed(vec![0; 256], None);
    assert!(!check_leaf(&mut db, &leaf, Node::Root(root.clone())));
    assert_eq!(
        traverse_trie(&mut db, &leaf, Node::Root(root.clone())).err(),
        Some(TrieError::MissingNode)
    );
    assert_eq!(
        insert_leaf(&mut db, &mut leaf, Node::Root(root.clone())).err(),
        Some(TrieError::MissingNode)
    );
    assert_eq!(
        merkle_proof(&mut db, vec![0; 256], Node::Root(root)).err(),
        Some(TrieError::MissingNode)
    );
    assert_eq!(db.nodes.len(), 0);
}

#[test]
fn proof_for_a_key_on_an_empty_side_has_no_child_to_follow() {
    let mut db = empty_db();
    let mut leaf = hashed(vec![0; 256], None);
    let root = insert_leaf(&mut db, &mut leaf, Node::Root(Root::empty())).unwrap();
    assert_eq!(
        merkle_proof(&mut db, vec![1; 256], Node::Root(root)).err(),
        Some(TrieError::InvalidChild)
    );
    assert_eq!(
        merkle_proof(&mut db, vec![1; 256], Node::Root(Root::empty())).err(),
        Some(TrieError::InvalidChild)
    );
}

#[test]
fn branch_that_lacks_what_a_walk_needs() {
    let mut db = empty_db();
    let stored = hashed(vec![0; 256], None);
    stored.store(&mut db).unwrap();
    let mut broken = Branch::new(vec![7], stored.hash.clone(), None);
    broken.hash = Some(vec![0x77; 32]);
    broken.store(&mut db).unwrap();
    let root = Root {
        hash: None,
        left: broken.hash.clone(),
        right: None,
    };
    let mut key = vec![0u8; 256];
    key[7] = 1;
    let mut leaf = hashed(key.clone(), None);
    assert!(!check_leaf(&mut db, &leaf, Node::Root(root.clone())));
    assert_eq!(
        insert_leaf(&mut db, &mut leaf, Node::Root(root.clone())).err(),
        Some(TrieError::InvalidChild)
    );
    assert_eq!(
        merkle_proof(&mut db, key, Node::Root(root.clone())).err(),
        Some(TrieError::InvalidChild)
    );
    // A branch without split position.
    let mut broken = Branch::new(Vec::new(), stored.hash.clone(), stored.hash.clone());
    broken.hash = Some(vec![0x78; 32]);
    broken.store(&mut db).unwrap();
    let root = Root {
        hash: None,
        left: broken.hash.clone(),
        right: None,
    };
    assert_eq!(
        merkle_proof(&mut db, vec![0; 256], Node::Root(root)).err(),
        Some(TrieError::InvalidBranch)
    );
}

#[test]
fn chain_of_branches_longer_than_a_key_is_invalid() {
    let mut db = empty_db();
    // A branch that is its own left child.
    let digest = vec![0x42u8; 32];
    let looped = Branch {
        key: vec![3],
        hash: Some(digest.clone()),
        left: Some(digest.clone()),
        right: Some(digest.clone()),
    };
    looped.store(&mut db).unwrap();
    let root = Root {
        hash: None,
        left: Some(digest),
        right: None,
    };
    let mut leaf = hashed(vec![0; 256], None);
    assert!(!check_leaf(&mut db, &leaf, Node::Root(root.clone())));
    assert_eq!(
        insert_leaf(&mut db, &mut leaf, Node::Root(root.clone())).err(),
        Some(TrieError::InvalidBranch)
    );
    assert_eq!(
        merkle_proof(&mut db, vec![0; 256], Node::Root(root)).err(),
        Some(TrieError::InvalidBranch)
    );
}

#[test]
fn insertion_below_what_is_no_root() {
    let mut db = empty_db();
    let mut first = hashed(vec![0; 256], None);
    let mut second = hashed(vec![1; 256], None);
    let below = Node::Leaf(first.clone());
    let result = insert_leaf(&mut db, &mut second, below.clone());
    assert_eq!(result.err(), Some(TrieError::InvalidParent));
    // The same leaf is a duplicate before anything else.
    let result = insert_leaf(&mut db, &mut first, below);
    assert_eq!(result.err(), Some(TrieError::DuplicateLeaf));
}

#[test]
fn rebuild_refuses_paths_that_are_none() {
    let mut db = empty_db();
    let leaf = hashed(vec![0; 256], None);
    let branch = {
        let mut branch = Branch::new(vec![5], leaf.hash.clone(), leaf.hash.clone());
        branch.hash().unwrap();
        branch
    };
    // No node at all.
    assert_eq!(
        update_modified_leafs(&mut db, Vec::new(), Root::empty()).err(),
        Some(TrieError::InvalidChild)
    );
    // A leaf as a parent.
    let path = vec![
        (0u8, Node::Leaf(leaf.clone())),
        (0u8, Node::Leaf(leaf.clone())),
    ];
    assert_eq!(
        update_modified_leafs(&mut db, path, Root::empty()).err(),
        Some(TrieError::InvalidParent)
    );
    // A root as a child.
    let path = vec![(0u8, Node::Root(Root::empty()))];
    assert_eq!(
        update_modified_leafs(&mut db, path, Root::empty()).err(),
        Some(TrieError::InvalidChild)
    );
    // A child without hash.
    let path = vec![(1u8, Node::Leaf(Leaf::empty(vec![1; 256])))];
    assert_eq!(
        update_modified_leafs(&mut db, path, Root::empty()).err(),
        Some(TrieError::HashMissing)
    );
    // A parent that has no serialization once the child is in place.
    let path = vec![
        (0u8, Node::Branch(Branch::empty(vec![5]))),
        (1u8, Node::Leaf(leaf.clone())),
    ];
    assert_eq!(
        update_modified_leafs(&mut db, path, Root::empty()).err(),
        Some(TrieError::InvalidBranch)
    );
    let path = vec![(0u8, Node::Branch(branch.clone()))];
    let old_root = Root {
        hash: None,
        left: None,
        right: Some(vec![1, 2, 3]),
    };
    assert_eq!(
        update_modified_leafs(&mut db, path, old_root).err(),
        Some(TrieError::CodecError)
    );
    assert_eq!(db.nodes.len(), 0);
    // And one that is a path.
    let path = vec![(1u8, Node::Branch(branch.clone()))];
    let root = update_modified_leafs(&mut db, path, Root::empty()).unwrap();
    assert_eq!(root.right, branch.hash);
    assert_eq!(root.left, None);
    assert_eq!(db.nodes.len(), 1);
}

#[test]
fn proofs_that_are_none() {
    let digest = vec![0u8; 32];
    let leaf = hashed(vec![0; 256], None);
    let mut root = Root {
        hash: None,
        left: leaf.hash.clone(),
        right: None,
    };
    root.hash().unwrap();
    let root_digest = root.hash.clone().unwrap();
    let branch = Branch::new(vec![5], leaf.hash.clone(), leaf.hash.clone());
    // The smallest proof there is.
    let proof = vec![
        (false, Node::Leaf(leaf.clone())),
        (false, Node::Root(root.clone())),
    ];
    assert_eq!(verify_merkle_proof(proof, root_digest.clone()), Ok(()));
    // No entry.
    assert_eq!(
        verify_merkle_proof(Vec::new(), digest.clone()),
        Err(TrieError::InvalidChild)
    );
    // The first entry is no leaf.
    let proof = vec![
        (false, Node::Branch(branch.clone())),
        (false, Node::Root(root.clone())),
    ];
    assert_eq!(
        verify_merkle_proof(proof, root_digest.clone()),
        Err(TrieError::InvalidChild)
    );
    let proof = vec![
        (false, Node::Root(root.clone())),
        (false, Node::Leaf(leaf.clone())),
    ];
    assert_eq!(fold_merkle_proof(&proof), Err(TrieError::InvalidChild));
    // Turned round, that one is a proof.
    assert_eq!(verify_merkle_proof(proof, root_digest.clone()), Ok(()));
    // No root at the end.
    let proof = vec![(false, Node::Leaf(leaf.clone()))];
    assert_eq!(
        verify_merkle_proof(proof, root_digest.clone()),
        Err(TrieError::InvalidParent)
    );
    let proof = vec![
        (false, Node::Leaf(leaf.clone())),
        (false, Node::Branch(branch.clone())),
    ];
    assert_eq!(
        verify_merkle_proof(proof, root_digest.clone()),
        Err(TrieError::InvalidParent)
    );
    // A leaf above the leaf.
    let proof = vec![
        (false, Node::Leaf(leaf.clone())),
        (false, Node::Leaf(leaf.clone())),
        (false, Node::Root(root.clone())),
    ];
    assert_eq!(
        verify_merkle_proof(proof, root_digest.clone()),
        Err(TrieError::InvalidParent)
    );
    // A root below the last entry.
    let proof = vec![
        (false, Node::Leaf(leaf.clone())),
        (false, Node::Root(root.clone())),
        (false, Node::Root(root.clone())),
    ];
    assert_eq!(
        verify_merkle_proof(proof, root_digest.clone()),
        Err(TrieError::InvalidChild)
    );
    // A branch that lacks its other child.
    let proof = vec![
        (false, Node::Leaf(leaf.clone())),
        (false, Node::Branch(Branch::empty(vec![5]))),
        (false, Node::Root(root.clone())),
    ];
    assert_eq!(
        verify_merkle_proof(proof, root_digest.clone()),
        Err(TrieError::InvalidBranch)
    );
    // A root whose other child is no digest.
    let bad_root = Root {
        hash: None,
        left: None,
        right: Some(vec![1]),
    };
    let proof = vec![
        (false, Node::Leaf(leaf.clone())),
        (false, Node::Root(bad_root)),
    ];
    assert_eq!(
        verify_merkle_proof(proof, root_digest.clone()),
        Err(TrieError::CodecError)
    );
    // The leaf on the other side of the root.
    let proof = vec![(false, Node::Leaf(leaf)), (true, Node::Root(root))];
    assert_eq!(
        verify_merkle_proof(proof, root_digest),
        Err(TrieError::RootMismatch)
    );
}
