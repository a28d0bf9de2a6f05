use merkle_trie::codec::encode_root;
use merkle_trie::error::TrieError;
use merkle_trie::merkle::{fold_merkle_proof, merkle_proof, verify_merkle_proof};
use merkle_trie::store::db::{Database, TrieDB};
use merkle_trie::store::types::{default_hash, Hashable, Key, Leaf, Node, Root};
use merkle_trie::{check_leaf, find_key_idx_not_eq, insert_leaf};
use merkle_trie::{traverse_trie, update_modified_leafs};
use rand::Rng;
use std::collections::HashMap;

fn generate_random_key() -> Key {
    let mut rng = rand::thread_rng();
    (0..256)
        .map(|_| if rng.gen_bool(0.5) { 1 } else { 0 })
        .collect()
}

fn generate_random_data() -> Vec<u8> {
    let mut rng = rand::thread_rng();
    let len: usize = rng.gen_range(0..16);
    (0..len).map(|_| rng.gen_range(0..=255u8)).collect()
}

fn hashed(key: Key, data: Option<Vec<u8>>) -> Leaf {
    let mut leaf = Leaf::new(key, data);
    leaf.hash().unwrap();
    leaf
}

fn prove_and_verify(db: &mut TrieDB, key: Key, root: &Root) {
    let proof = merkle_proof(db, key, Node::Root(root.clone()));
    let mut inner_proof = proof.unwrap().nodes;
    inner_proof.reverse();
    verify_merkle_proof(inner_proof, root.hash.clone().unwrap()).unwrap();
}

#[test]
fn test_find_key_neq() {
    let x = vec![0, 1, 1, 0, 0, 0, 1, 0, 0, 1, 0, 1, 1];
    let y = vec![0, 1, 1, 0, 0, 0, 1, 0, 0, 0, 0, 1, 1];
    assert_eq!(find_key_idx_not_eq(&x, &y).unwrap(), 9);
}

#[test]
fn find_key_neq_of_equal_keys_is_none() {
    let x = vec![0, 1, 1, 0];
    assert_eq!(find_key_idx_not_eq(&x, &x.clone()), None);
    assert_eq!(find_key_idx_not_eq(&Vec::new(), &x), None);
}

#[test]
fn find_key_neq_counts_a_missing_bit_as_different() {
    let x = vec![0, 1, 1, 0];
    let y = vec![0, 1];
    assert_eq!(find_key_idx_not_eq(&x, &y), Some(2));
    assert_eq!(find_key_idx_not_eq(&y, &x), None);
}

#[test]
fn test_insert_leaf() {
    let mut db = TrieDB {
        nodes: HashMap::new(),
    };
    let mut leaf_1: Leaf = Leaf::empty(vec![0u8; 256]);
    let mut leaf_2_key: Vec<u8> = vec![0; 253];
    for _i in 0..3 {
        leaf_2_key.push(1);
    }
    let mut leaf_2: Leaf = Leaf::empty(leaf_2_key);

    let mut leaf_3_key: Vec<u8> = vec![0; 253];
    for _i in 0..3 {
        leaf_3_key.push(0);
    }
    let mut leaf_3 = Leaf::empty(leaf_3_key);
    leaf_1.hash().unwrap();
    leaf_2.hash().unwrap();
    leaf_3.hash().unwrap();
    let root: Root = Root::empty();
    let root_node = Node::Root(root);
    let mut new_root = insert_leaf(&mut db, &mut leaf_1, root_node.clone()).unwrap();
    new_root = insert_leaf(&mut db, &mut leaf_2, Node::Root(new_root)).unwrap();

    assert!(check_leaf(&mut db, &leaf_1, Node::Root(new_root.clone())));
    assert!(check_leaf(&mut db, &leaf_2, Node::Root(new_root.clone())));
}

#[test]
fn test_many_leafs() {
    let transaction_count: u32 = 10000;
    let mut transactions: Vec<Leaf> = Vec::new();
    for _ in 0..transaction_count {
        let leaf_key = generate_random_key();
        let leaf: Leaf = Leaf::new(leaf_key, Some(generate_random_data()));
        transactions.push(leaf);
    }
    let mut db = TrieDB {
        nodes: HashMap::new(),
    };
    let root: Root = Root::empty();
    let mut root_node = Node::Root(root);
    for mut leaf in transactions {
        leaf.hash().unwrap();
        let new_root = insert_leaf(&mut db, &mut leaf, root_node.clone()).unwrap();
        assert!(check_leaf(
            &mut db,
            &leaf.clone(),
            Node::Root(new_root.clone())
        ));
        root_node = Node::Root(new_root.clone());
    }
}

#[test]
fn test_merkle_proof() {
    let mut db = TrieDB {
        nodes: HashMap::new(),
    };
    let mut leaf_1: Leaf = Leaf::empty(vec![0u8; 256]);
    leaf_1.hash().unwrap();

    let mut leaf_2_key = vec![0, 0];
    for _i in 0..254 {
        leaf_2_key.push(1);
    }
    let mut leaf_2: Leaf = Leaf::empty(leaf_2_key);
    leaf_2.hash().unwrap();
    let root: Root = Root::empty();
    let root_node: Node = Node::Root(root);
    let new_root: Root = insert_leaf(&mut db, &mut leaf_1, root_node).unwrap();
    let new_root: Root = insert_leaf(&mut db, &mut leaf_2, Node::Root(new_root)).unwrap();
    let proof = merkle_proof(&mut db, leaf_2.key, Node::Root(new_root.clone()));

    // verify merkle proof
    let mut inner_proof = proof.unwrap().nodes;
    inner_proof.reverse();
    verify_merkle_proof(inner_proof, new_root.hash.clone().unwrap()).unwrap();

    let proof = merkle_proof(&mut db, leaf_1.key, Node::Root(new_root.clone()));
    let mut inner_proof = proof.unwrap().nodes;
    inner_proof.reverse();
    verify_merkle_proof(inner_proof, new_root.hash.clone().unwrap()).unwrap();
}

#[test]
fn simulate_insert_flow() {
    let mut db = TrieDB {
        nodes: HashMap::new(),
    };
    let mut leaf_data: Vec<u8> = vec![0];
    let root: Root = Root::empty();
    let root_node: Node = Node::Root(root);
    let mut current_root = root_node.clone();
    let mut idx = 0;
    let mut leaf_keys: Vec<Key> = Vec::new();
    let transaction_count: u32 = 1000;
    loop {
        let leaf_key: Key = generate_random_key();
        leaf_data.push(0);
        let mut leaf: Leaf = Leaf::empty(leaf_key.clone());
        leaf.data = Some(leaf_data.clone());
        leaf.hash().unwrap();
        let new_root: Root = insert_leaf(&mut db, &mut leaf, current_root.clone()).unwrap();
        let proof = merkle_proof(&mut db, leaf.key, Node::Root(new_root.clone()));
        let mut inner_proof = proof.unwrap().nodes;
        inner_proof.reverse();
        verify_merkle_proof(inner_proof, new_root.hash.clone().unwrap()).unwrap();

        let proof = merkle_proof(&mut db, leaf_key.clone(), Node::Root(new_root.clone()));
        let mut inner_proof = proof.unwrap().nodes;
        inner_proof.reverse();
        verify_merkle_proof(inner_proof, new_root.hash.clone().unwrap()).unwrap();
        leaf_keys.push(leaf_key);
        current_root = Node::Root(new_root.clone());
        idx += 1;
        if idx >= transaction_count {
            break;
        }
    }
    assert_eq!(leaf_keys.len(), 1000);
    assert!(db.nodes.len() >= 1000);
    println!("Memory DB size: {:?}", &db.nodes.len());
}

#[test]
fn single_insert_all_zero_key() {
    let mut db = TrieDB {
        nodes: HashMap::new(),
    };
    let mut leaf = hashed(vec![0u8; 256], None);
    let root = insert_leaf(&mut db, &mut leaf, Node::Root(Root::empty())).unwrap();
    assert_eq!(root.left, leaf.hash);
    assert!(root.left.is_some());
    assert!(root.right.is_none());
    assert!(root.hash.is_some());
    // No branch was made: the root's child is the leaf itself.
    match db.get(&root.left.clone().unwrap()) {
        Some(Node::Leaf(stored)) => assert_eq!(stored, leaf),
        other => panic!("the root's child is {:?}", other),
    }
    assert_eq!(db.nodes.len(), 2);
}

#[test]
fn two_inserts_diverging_at_last_bit() {
    let mut db = TrieDB {
        nodes: HashMap::new(),
    };
    let mut key_b = vec![0u8; 255];
    key_b.push(1);
    let mut leaf_a = hashed(vec![0u8; 256], None);
    let mut leaf_b = hashed(key_b, None);
    let root = insert_leaf(&mut db, &mut leaf_a, Node::Root(Root::empty())).unwrap();
    let root = insert_leaf(&mut db, &mut leaf_b, Node::Root(root)).unwrap();
    assert!(root.right.is_none());
    match db.get(&root.left.clone().unwrap()) {
        Some(Node::Branch(branch)) => {
            assert_eq!(branch.key, vec![255u8]);
            assert_eq!(branch.left, leaf_a.hash);
            assert_eq!(branch.right, leaf_b.hash);
            match db.get(&branch.left.clone().unwrap()) {
                Some(Node::Leaf(stored)) => assert_eq!(stored, leaf_a),
                other => panic!("the left child is {:?}", other),
            }
            match db.get(&branch.right.clone().unwrap()) {
                Some(Node::Leaf(stored)) => assert_eq!(stored, leaf_b),
                other => panic!("the right child is {:?}", other),
            }
        }
        other => panic!("the root's left child is {:?}", other),
    }
    prove_and_verify(&mut db, leaf_a.key.clone(), &root);
    prove_and_verify(&mut db, leaf_b.key.clone(), &root);
}

#[test]
fn cross_side_pair_canonical_root() {
    let mut db = TrieDB {
        nodes: HashMap::new(),
    };
    let mut leaf_a = hashed(vec![0u8; 256], None);
    let mut leaf_b = hashed(vec![1u8; 256], None);
    let root = insert_leaf(&mut db, &mut leaf_a, Node::Root(Root::empty())).unwrap();
    let root = insert_leaf(&mut db, &mut leaf_b, Node::Root(root)).unwrap();
    assert_eq!(root.left, leaf_a.hash);
    assert_eq!(root.right, leaf_b.hash);
    let expected = Root {
        hash: None,
        left: leaf_a.hash.clone(),
        right: leaf_b.hash.clone(),
    };
    let digest = default_hash(&encode_root(&expected).unwrap());
    assert_eq!(root.hash, Some(digest));
}

#[test]
fn root_digest_does_not_depend_on_the_order_of_a_cross_side_pair() {
    let mut leaf_a = hashed(vec![0u8; 256], Some(vec![7]));
    let mut leaf_b = hashed(vec![1u8; 256], Some(vec![8, 9]));
    let mut db_1 = TrieDB {
        nodes: HashMap::new(),
    };
    let root = insert_leaf(&mut db_1, &mut leaf_a, Node::Root(Root::empty())).unwrap();
    let root_ab = insert_leaf(&mut db_1, &mut leaf_b, Node::Root(root)).unwrap();
    let mut db_2 = TrieDB {
        nodes: HashMap::new(),
    };
    let root = insert_leaf(&mut db_2, &mut leaf_b, Node::Root(Root::empty())).unwrap();
    let root_ba = insert_leaf(&mut db_2, &mut leaf_a, Node::Root(root)).unwrap();
    assert!(root_ab.hash.is_some());
    assert_eq!(root_ab.hash, root_ba.hash);
}

#[test]
fn bulk_random_insert() {
    let mut db = TrieDB {
        nodes: HashMap::new(),
    };
    let mut leaves: Vec<Leaf> = Vec::new();
    let mut root = Root::empty();
    for _ in 0..10000 {
        let mut leaf = hashed(generate_random_key(), Some(generate_random_data()));
        root = insert_leaf(&mut db, &mut leaf, Node::Root(root)).unwrap();
        prove_and_verify(&mut db, leaf.key.clone(), &root);
        leaves.push(leaf);
    }
    for leaf in &leaves {
        assert!(check_leaf(&mut db, leaf, Node::Root(root.clone())));
    }
}

#[test]
fn duplicate_rejection() {
    let mut db = TrieDB {
        nodes: HashMap::new(),
    };
    let mut leaf = hashed(generate_random_key(), Some(vec![1, 2, 3]));
    let root = insert_leaf(&mut db, &mut leaf, Node::Root(Root::empty())).unwrap();
    let size = db.nodes.len();
    let again = insert_leaf(&mut db, &mut leaf, Node::Root(root.clone()));
    assert_eq!(again.err(), Some(TrieError::DuplicateLeaf));
    assert_eq!(db.nodes.len(), size);
    assert!(check_leaf(&mut db, &leaf, Node::Root(root)));
}

#[test]
fn same_key_with_another_payload_is_a_duplicate() {
    let mut db = TrieDB {
        nodes: HashMap::new(),
    };
    let key = generate_random_key();
    let mut first = hashed(key.clone(), Some(vec![1]));
    let mut second = hashed(key, Some(vec![2]));
    let root = insert_leaf(&mut db, &mut first, Node::Root(Root::empty())).unwrap();
    let size = db.nodes.len();
    let again = insert_leaf(&mut db, &mut second, Node::Root(root.clone()));
    assert_eq!(again.err(), Some(TrieError::DuplicateLeaf));
    assert_eq!(db.nodes.len(), size);
    assert!(!check_leaf(&mut db, &second, Node::Root(root)));
}

#[test]
fn leaf_that_was_never_inserted_is_not_found() {
    let mut db = TrieDB {
        nodes: HashMap::new(),
    };
    let mut key = vec![0u8; 256];
    key[17] = 1;
    let mut leaf = hashed(key.clone(), Some(vec![1]));
    let empty = Root::empty();
    assert!(!check_leaf(&mut db, &leaf, Node::Root(empty.clone())));
    let root = insert_leaf(&mut db, &mut leaf, Node::Root(empty.clone())).unwrap();
    // Another key on the same side, another key on the other side, and the
    // same key with another payload.
    let other = hashed(vec![0u8; 256], Some(vec![1]));
    assert!(!check_leaf(&mut db, &other, Node::Root(root.clone())));
    let other = hashed(vec![1u8; 256], Some(vec![1]));
    assert!(!check_leaf(&mut db, &other, Node::Root(root.clone())));
    let other = hashed(key, Some(vec![2]));
    assert!(!check_leaf(&mut db, &other, Node::Root(root.clone())));
    // The old root knows nothing of the leaf.
    assert!(!check_leaf(&mut db, &leaf, Node::Root(empty)));
}

#[test]
fn earlier_roots_stay_valid() {
    let mut db = TrieDB {
        nodes: HashMap::new(),
    };
    let mut leaves: Vec<Leaf> = Vec::new();
    let mut roots: Vec<Root> = Vec::new();
    let mut root = Root::empty();
    for _ in 0..50 {
        let mut leaf = hashed(generate_random_key(), Some(generate_random_data()));
        root = insert_leaf(&mut db, &mut leaf, Node::Root(root)).unwrap();
        leaves.push(leaf);
        roots.push(root.clone());
    }
    for (i, old_root) in roots.iter().enumerate() {
        // The node kept under the root's digest is that root.
        match db.get(&old_root.hash.clone().unwrap()) {
            Some(Node::Root(stored)) => {
                assert_eq!(stored.hash, old_root.hash);
                assert_eq!(stored.left, old_root.left);
                assert_eq!(stored.right, old_root.right);
            }
            other => panic!("under the root's digest is {:?}", other),
        }
        for (j, leaf) in leaves.iter().enumerate() {
            let found = check_leaf(&mut db, leaf, Node::Root(old_root.clone()));
            assert_eq!(found, j <= i);
            if j <= i {
                prove_and_verify(&mut db, leaf.key.clone(), old_root);
            }
        }
    }
}

#[test]
fn every_stored_node_is_kept_under_the_digest_of_its_content() {
    let mut db = TrieDB {
        nodes: HashMap::new(),
    };
    let mut root = Root::empty();
    for _ in 0..200 {
        let mut leaf = hashed(generate_random_key(), Some(generate_random_data()));
        root = insert_leaf(&mut db, &mut leaf, Node::Root(root)).unwrap();
    }
    let mut count = 0;
    for shelf in db.nodes.values() {
        for (key, node) in shelf {
            let bytes = merkle_trie::codec::encode_node(node).unwrap();
            assert_eq!(&default_hash(&bytes), key);
            let hash = match node {
                Node::Root(root) => root.hash.clone(),
                Node::Branch(branch) => branch.hash.clone(),
                Node::Leaf(leaf) => leaf.hash.clone(),
            };
            assert_eq!(hash.as_ref(), Some(key));
            count += 1;
        }
    }
    assert!(count >= 400);
}

#[test]
fn tampered_proof_is_refused() {
    let mut db = TrieDB {
        nodes: HashMap::new(),
    };
    let mut key_b = vec![0u8; 256];
    key_b[3] = 1;
    let mut key_c = vec![0u8; 256];
    key_c[200] = 1;
    let mut leaf_a = hashed(vec![0u8; 256], Some(vec![1]));
    let mut leaf_b = hashed(key_b, Some(vec![2]));
    let mut leaf_c = hashed(key_c.clone(), Some(vec![3]));
    let root = insert_leaf(&mut db, &mut leaf_a, Node::Root(Root::empty())).unwrap();
    let root = insert_leaf(&mut db, &mut leaf_b, Node::Root(root)).unwrap();
    let root = insert_leaf(&mut db, &mut leaf_c, Node::Root(root)).unwrap();
    let digest = root.hash.clone().unwrap();
    let mut good = merkle_proof(&mut db, key_c, Node::Root(root)).unwrap().nodes;
    good.reverse();
    assert_eq!(good.len(), 4);
    assert_eq!(verify_merkle_proof(good.clone(), digest.clone()), Ok(()));

    // The payload of the leaf.
    let mut bad = good.clone();
    if let Node::Leaf(leaf) = &mut bad[0].1 {
        leaf.data = Some(vec![2]);
    }
    assert_eq!(
        verify_merkle_proof(bad, digest.clone()),
        Err(TrieError::RootMismatch)
    );
    // One bit of the key of the leaf.
    let mut bad = good.clone();
    if let Node::Leaf(leaf) = &mut bad[0].1 {
        leaf.key[99] ^= 1;
    }
    assert_eq!(
        verify_merkle_proof(bad, digest.clone()),
        Err(TrieError::RootMismatch)
    );
    // The sibling digest in a branch.
    let mut bad = good.clone();
    if let Node::Branch(branch) = &mut bad[1].1 {
        let sibling = branch.left.as_mut().unwrap();
        sibling[0] ^= 0x80;
    }
    assert_eq!(
        verify_merkle_proof(bad, digest.clone()),
        Err(TrieError::RootMismatch)
    );
    // The split position of a branch.
    let mut bad = good.clone();
    if let Node::Branch(branch) = &mut bad[2].1 {
        branch.key[0] ^= 1;
    }
    assert_eq!(
        verify_merkle_proof(bad, digest.clone()),
        Err(TrieError::RootMismatch)
    );
    // The side that an entry names.
    let mut bad = good.clone();
    bad[1].0 = !bad[1].0;
    assert_eq!(
        verify_merkle_proof(bad, digest.clone()),
        Err(TrieError::RootMismatch)
    );
    // The expected digest.
    let mut other = digest.clone();
    other[31] ^= 1;
    assert_eq!(
        verify_merkle_proof(good, other),
        Err(TrieError::RootMismatch)
    );
}

#[test]
fn descent_and_rebuild_of_a_second_leaf() {
    let mut db = TrieDB {
        nodes: HashMap::new(),
    };
    let mut key_b = vec![0u8; 256];
    key_b[5] = 1;
    let mut leaf_a = hashed(vec![0u8; 256], None);
    let leaf_b = hashed(key_b, None);
    let root = insert_leaf(&mut db, &mut leaf_a, Node::Root(Root::empty())).unwrap();
    let path = traverse_trie(&mut db, &leaf_b, Node::Root(root.clone())).unwrap();
    assert_eq!(path.len(), 1);
    assert_eq!(path[0].0, 0);
    let branch_hash = match &path[0].1 {
        Node::Branch(branch) => {
            assert_eq!(branch.key, vec![5u8]);
            assert_eq!(branch.left, leaf_a.hash);
            assert_eq!(branch.right, leaf_b.hash);
            branch.hash.clone()
        }
        other => panic!("the new node is {:?}", other),
    };
    let new_root = update_modified_leafs(&mut db, path, root.clone()).unwrap();
    assert_eq!(new_root.left, branch_hash);
    assert_eq!(new_root.right, None);
    assert!(new_root.hash != root.hash);
    assert!(check_leaf(&mut db, &leaf_b, Node::Root(new_root)));
}

fn key_ending_in(bits: [u8; 3]) -> Key {
    let mut key = vec![0u8; 253];
    key.extend_from_slice(&bits);
    key
}

fn root_of(order: &[Key]) -> (TrieDB, Root) {
    let mut db = TrieDB {
        nodes: HashMap::new(),
    };
    let mut root = Root::empty();
    for key in order {
        let mut leaf = hashed(key.clone(), Some(vec![key[254], key[255]]));
        root = insert_leaf(&mut db, &mut leaf, Node::Root(root)).unwrap();
    }
    (db, root)
}

#[test]
fn orders_that_keep_each_branch_at_the_first_difference_give_one_root() {
    let a = key_ending_in([0, 0, 0]);
    let b = key_ending_in([0, 0, 1]);
    let c = key_ending_in([0, 1, 1]);
    // The keys part at bit 254 first, and a and b at bit 255 below that.
    let (mut db, first) = root_of(&[a.clone(), c.clone(), b.clone()]);
    match db.get(&first.left.clone().unwrap()) {
        Some(Node::Branch(top)) => {
            assert_eq!(top.key, vec![254u8]);
            match db.get(&top.left.clone().unwrap()) {
                Some(Node::Branch(below)) => assert_eq!(below.key, vec![255u8]),
                other => panic!("below the branch is {:?}", other),
            }
        }
        other => panic!("below the root is {:?}", other),
    }
    for order in [
        [c.clone(), a.clone(), b.clone()],
        [b.clone(), c.clone(), a.clone()],
        [c.clone(), b.clone(), a.clone()],
    ] {
        let (_, root) = root_of(&order);
        assert_eq!(root.hash, first.hash);
        assert_eq!(root.left, first.left);
        assert_eq!(root.right, None);
    }
}

#[test]
fn a_key_that_parts_before_the_branch_it_comes_under_makes_the_order_count() {
    let a = key_ending_in([0, 0, 0]);
    let b = key_ending_in([0, 0, 1]);
    let c = key_ending_in([0, 1, 1]);
    let (_, compact) = root_of(&[a.clone(), c.clone(), b.clone()]);
    // With a and b in place the branch over them splits at bit 255; c then
    // comes to stand below it, though it parts from both at bit 254.
    let (mut db, root) = root_of(&[a.clone(), b.clone(), c.clone()]);
    match db.get(&root.left.clone().unwrap()) {
        Some(Node::Branch(top)) => {
            assert_eq!(top.key, vec![255u8]);
            match db.get(&top.right.clone().unwrap()) {
                Some(Node::Branch(below)) => assert_eq!(below.key, vec![254u8]),
                other => panic!("below the branch is {:?}", other),
            }
        }
        other => panic!("below the root is {:?}", other),
    }
    assert!(root.hash != compact.hash);
    // Every leaf is found all the same, and has its proof.
    for key in [a, b, c] {
        let leaf = hashed(key.clone(), Some(vec![key[254], key[255]]));
        assert!(check_leaf(&mut db, &leaf, Node::Root(root.clone())));
        prove_and_verify(&mut db, key, &root);
    }
}

#[test]
fn proof_does_not_rest_on_what_the_fold_computes_itself() {
    let a = key_ending_in([0, 0, 0]);
    let b = key_ending_in([0, 0, 1]);
    let (mut db, root) = root_of(&[a.clone(), b.clone()]);
    let digest = root.hash.clone().unwrap();
    let mut good = merkle_proof(&mut db, b, Node::Root(root)).unwrap().nodes;
    good.reverse();
    assert_eq!(good.len(), 3);
    // The hash that a node carries, and the digest in the slot of the child
    // that the proof goes through, are computed anew and never read.
    let mut other = good.clone();
    if let Node::Leaf(leaf) = &mut other[0].1 {
        leaf.hash = None;
    }
    if let Node::Branch(branch) = &mut other[1].1 {
        branch.hash = Some(vec![1, 2, 3]);
        branch.right = None;
    }
    if let Node::Root(root) = &mut other[2].1 {
        root.hash = None;
        root.left = Some(vec![0; 32]);
    }
    assert_eq!(verify_merkle_proof(other, digest.clone()), Ok(()));
    // The sibling is read.
    let mut other = good.clone();
    if let Node::Branch(branch) = &mut other[1].1 {
        branch.left = Some(vec![0; 32]);
    }
    assert_eq!(
        verify_merkle_proof(other, digest),
        Err(TrieError::RootMismatch)
    );
}

#[test]
fn proof_entries_name_the_side_taken() {
    let a = key_ending_in([0, 0, 0]);
    let b = key_ending_in([0, 0, 1]);
    let mut right = vec![1u8; 256];
    right[9] = 0;
    let (mut db, root) = root_of(&[a.clone(), b.clone(), right.clone()]);
    let proof = merkle_proof(&mut db, b, Node::Root(root.clone())).unwrap();
    assert_eq!(proof.nodes.len(), 3);
    assert!(matches!(proof.nodes[0], (false, Node::Root(_))));
    assert!(matches!(proof.nodes[1], (true, Node::Branch(_))));
    assert!(matches!(proof.nodes[2], (false, Node::Leaf(_))));
    let proof = merkle_proof(&mut db, a, Node::Root(root.clone())).unwrap();
    assert!(matches!(proof.nodes[0], (false, Node::Root(_))));
    assert!(matches!(proof.nodes[1], (false, Node::Branch(_))));
    let proof = merkle_proof(&mut db, right, Node::Root(root)).unwrap();
    assert_eq!(proof.nodes.len(), 2);
    assert!(matches!(proof.nodes[0], (true, Node::Root(_))));
    assert!(matches!(proof.nodes[1], (false, Node::Leaf(_))));
}

#[test]
fn proof_is_checked_as_it_is_collected_or_turned_round() {
    let mut db = TrieDB {
        nodes: HashMap::new(),
    };
    let mut leaf_1: Leaf = Leaf::empty(vec![0u8; 256]);
    let mut leaf_2_key: Vec<u8> = vec![0; 253];
    for _i in 0..3 {
        leaf_2_key.push(1);
    }
    let mut leaf_2: Leaf = Leaf::empty(leaf_2_key);
    leaf_1.hash().unwrap();
    leaf_2.hash().unwrap();
    let new_root = insert_leaf(&mut db, &mut leaf_1, Node::Root(Root::empty()));
    let new_root = insert_leaf(&mut db, &mut leaf_2, Node::Root(new_root.unwrap()));
    let mut leaf_3: Leaf = Leaf::empty(vec![1u8; 256]);
    leaf_3.hash().unwrap();
    let new_root: Root = insert_leaf(&mut db, &mut leaf_3, Node::Root(new_root.unwrap())).unwrap();
    let proof = merkle_proof(&mut db, leaf_3.key, Node::Root(new_root.clone()));
    let inner_proof = proof.unwrap().nodes;
    verify_merkle_proof(inner_proof.clone(), new_root.hash.clone().unwrap()).unwrap();
    let mut turned = inner_proof;
    turned.reverse();
    verify_merkle_proof(turned.clone(), new_root.hash.clone().unwrap()).unwrap();
    // Folding takes the proof leaf first only.
    assert_eq!(fold_merkle_proof(&turned), Ok(new_root.hash.clone().unwrap()));
    turned.reverse();
    assert_eq!(fold_merkle_proof(&turned), Err(TrieError::InvalidChild));
}
