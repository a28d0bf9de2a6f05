use crate::{branches, member, reseat};
use crate::codec::{branch_error, law_canonical, leaf_digest, leaf_preimage, payload};
use crate::codec::root_digest;
use crate::error::TrieError;
use crate::merkle::{ascend, collide, fold_proof, proof_of, slot_of, steps, upward};
use crate::model::trie::{agrees_on, bare, lemma_depth, lemma_digest_len, lemma_every_holds};
use crate::model::trie::{lemma_find_holds, lemma_find_own, lemma_kept_top, lemma_sound_leaves};
use crate::model::trie::{stands, valid_leaf, Tree, Trie};
use crate::store::types::{LeafView, NodeView, RootView};
use crate::walk::{descent, side_of, turn, walk, Landing, MAX_DEPTH, Turn, Visit, Walk};
use vstd::prelude::*;
use vstd::set_lib::*;

verus! {

/// A walk through a stored tree, with fuel for the tree's depth, passes the
/// branches that the key's bits lead through, and ends at the leaf that
/// they lead to.
pub proof fn lemma_walk(
    t: Trie,
    store: Map<Seq<u8>, NodeView>,
    key: Seq<u8>,
    slot: u8,
    fuel: nat,
)
    requires
        t.kept(store),
        fuel >= t.depth(),
    ensures
        walk(store, key, t.node(), slot, fuel) == (Walk {
            visits: t.trace(key, slot),
            end: Landing::Leaf(t.find(key)),
        }),
    decreases t,
{
    match t {
        Trie::Leaf(leaf) => {
            assert(turn(t.node(), key) == Turn::Arrive(leaf));
        },
        Trie::Fork { at, left, right } => {
            let side = side_of(key, at as int);
            let branch = t.node()->Branch_0;
            assert(branch.key[0] == at);
            if side == 0 {
                assert(turn(t.node(), key) == (Turn::Follow { side, child: left.digest() }));
                lemma_kept_top(*left, store);
                lemma_walk(*left, store, key, side, (fuel - 1) as nat);
            } else {
                assert(turn(t.node(), key) == (Turn::Follow { side, child: right.digest() }));
                lemma_kept_top(*right, store);
                lemma_walk(*right, store, key, side, (fuel - 1) as nat);
            }
        },
    }
}

/// A walk from the root of a stored sound tree ends at the leaf that the
/// key's bits lead to, or at the root where the key's side is empty.
pub proof fn lemma_descent(
    tree: Tree,
    store: Map<Seq<u8>, NodeView>,
    root: RootView,
    key: Seq<u8>,
)
    requires
        stands(tree, store, root),
    ensures
        descent(store, key, NodeView::Root(root)) == (match tree.below(side_of(key, 0)) {
            Some(t) => Walk {
                visits: seq![
                    Visit { slot: 0, node: NodeView::Root(root), side: side_of(key, 0) },
                ] + t.trace(key, side_of(key, 0)),
                end: Landing::Leaf(t.find(key)),
            },
            None => Walk {
                visits: seq![
                    Visit { slot: 0, node: NodeView::Root(root), side: side_of(key, 0) },
                ],
                end: Landing::Vacant,
            },
        }),
{
    let side = side_of(key, 0);
    match tree.below(side) {
        Some(t) => {
            assert(agrees_on(t, set![0int]));
            lemma_depth(t, set![0int]);
            assert(set![0int].len() == 1) by {
                lemma_int_range(0, 1);
                assert(set![0int] =~= set_int_range(0, 1));
            }
            lemma_kept_top(t, store);
            lemma_walk(t, store, key, side, (MAX_DEPTH - 1) as nat);
            assert(turn(NodeView::Root(root), key) == (Turn::Follow { side, child: t.digest() }));
        },
        None => {
            assert(turn(NodeView::Root(root), key) == (Turn::Vacant { side }));
        },
    }
}

/// Membership: a leaf of a stored sound tree is found under the tree's
/// root.
pub proof fn law_membership(
    tree: Tree,
    store: Map<Seq<u8>, NodeView>,
    root: RootView,
    leaf: LeafView,
)
    requires
        stands(tree, store, root),
        tree.holds(leaf),
    ensures
        member(store, leaf, NodeView::Root(root)),
{
    lemma_descent(tree, store, root, leaf.key);
    if tree.left is Some && tree.left->Some_0.holds(leaf) {
        let t = tree.left->Some_0;
        lemma_every_holds(t, 0, 0, leaf);
        lemma_find_own(t, leaf);
    } else {
        let t = tree.right->Some_0;
        lemma_every_holds(t, 0, 1, leaf);
        lemma_find_own(t, leaf);
    }
}

/// Exclusion: what is found under the root of a stored sound tree carries
/// the hash of one of the tree's leaves. A leaf whose hash no leaf of the
/// tree carries is not found.
pub proof fn law_exclusion(
    tree: Tree,
    store: Map<Seq<u8>, NodeView>,
    root: RootView,
    leaf: LeafView,
)
    requires
        stands(tree, store, root),
        member(store, leaf, NodeView::Root(root)),
    ensures
        exists|own: LeafView| tree.holds(own) && own.hash == leaf.hash,
{
    lemma_descent(tree, store, root, leaf.key);
    let t = tree.below(side_of(leaf.key, 0))->Some_0;
    lemma_find_holds(t, leaf.key);
    assert(tree.holds(t.find(leaf.key)));
}

/// Exclusion, of a leaf that carries the hash of its content: where such a
/// leaf is found under the root of a stored sound tree, the tree holds a
/// leaf with its key and its payload, or the two are a collision of the
/// hash function. So a leaf that differs in key or payload from every leaf
/// of the tree is found only by such a collision.
pub proof fn law_found_is_held(
    tree: Tree,
    store: Map<Seq<u8>, NodeView>,
    root: RootView,
    leaf: LeafView,
)
    requires
        stands(tree, store, root),
        valid_leaf(leaf),
        member(store, leaf, NodeView::Root(root)),
    ensures
        exists|own: LeafView|
            tree.holds(own) && (collide(leaf_preimage(own), leaf_preimage(leaf)) || (own.key
                == leaf.key && payload(own) == payload(leaf))),
{
    law_exclusion(tree, store, root, leaf);
    let own = choose|own: LeafView| tree.holds(own) && own.hash == leaf.hash;
    if tree.left is Some && tree.left->Some_0.holds(own) {
        lemma_sound_leaves(tree.left->Some_0, own);
    } else {
        lemma_sound_leaves(tree.right->Some_0, own);
    }
    if !collide(leaf_preimage(own), leaf_preimage(leaf)) {
        law_canonical(NodeView::Leaf(own), NodeView::Leaf(leaf));
    }
}

/// Folding the entries of a way down, taken from the bottom up, gives the
/// digest of the tree at the top of the way: each branch takes the digest
/// of its child in the slot where the child is, and so keeps its own.
proof fn lemma_ascend(t: Trie, key: Seq<u8>, slot: u8, tail: Seq<(bool, NodeView)>)
    ensures
        ascend(steps(t.trace(key, slot)).reverse() + tail, leaf_digest(t.find(key))) == ascend(
            tail,
            t.digest(),
        ),
    decreases t,
{
    match t {
        Trie::Leaf(_) => {
            assert(steps(t.trace(key, slot)).reverse() + tail =~= tail);
        },
        Trie::Fork { at, left, right } => {
            let side = side_of(key, at as int);
            let child = if side == 0 {
                *left
            } else {
                *right
            };
            let entry = (side != 0, t.node());
            let higher = seq![entry] + tail;
            let below = child.trace(key, side);
            assert(steps(t.trace(key, slot)) =~= seq![entry] + steps(below));
            assert(steps(t.trace(key, slot)).reverse() + tail =~= steps(below).reverse() + higher);
            lemma_ascend(child, key, side, higher);
            lemma_digest_len(*left);
            lemma_digest_len(*right);
            assert(higher.drop_first() =~= tail);
            let fresh = bare(at, left.digest(), right.digest());
            assert(reseat(t.node(), slot_of(side != 0), child.digest()) == Ok::<
                NodeView,
                TrieError,
            >(t.node())) by {
                assert(branch_error(fresh) is None);
            }
        },
    }
}

/// Proof soundness: the proof for the key of a leaf of a stored sound tree
/// ends with that leaf and folds to the digest of the tree's root. So it
/// holds against the hash of a root that carries the hash of its content.
pub proof fn law_proof_soundness(
    tree: Tree,
    store: Map<Seq<u8>, NodeView>,
    root: RootView,
    leaf: LeafView,
)
    requires
        stands(tree, store, root),
        tree.holds(leaf),
    ensures
        proof_of(store, leaf.key, NodeView::Root(root)) matches Ok(proof) && proof.last().1
            == NodeView::Leaf(leaf) && fold_proof(upward(proof)) == Ok::<Seq<u8>, TrieError>(
            root_digest(root),
        ),
{
    let key = leaf.key;
    let side = side_of(key, 0);
    lemma_descent(tree, store, root, key);
    if tree.left is Some && tree.left->Some_0.holds(leaf) {
        lemma_every_holds(tree.left->Some_0, 0, 0, leaf);
    } else {
        lemma_every_holds(tree.right->Some_0, 0, 1, leaf);
    }
    let t = tree.below(side)->Some_0;
    lemma_find_own(t, leaf);
    lemma_sound_leaves(t, leaf);
    let first = Visit { slot: 0, node: NodeView::Root(root), side };
    let way = seq![first] + t.trace(key, side);
    let proof = steps(way).push((false, NodeView::Leaf(leaf)));
    let top = seq![(side != 0, NodeView::Root(root))];
    let upward = proof.reverse();
    assert(steps(way) =~= top + steps(t.trace(key, side)));
    assert(upward.drop_first() =~= steps(t.trace(key, side)).reverse() + top);
    lemma_ascend(t, key, side, top);
    lemma_digest_len(t);
    if tree.left is Some {
        lemma_digest_len(tree.left->Some_0);
    }
    if tree.right is Some {
        lemma_digest_len(tree.right->Some_0);
    }
    let bare_root = RootView { hash: None, ..root };
    assert(reseat(NodeView::Root(root), slot_of(side != 0), t.digest()) == Ok::<
        NodeView,
        TrieError,
    >(NodeView::Root(RootView { hash: Some(root_digest(bare_root)), ..bare_root })));
}

} // verus!
