pub mod codec;
pub mod error;
pub mod merkle;
pub mod model;
pub mod store;
pub mod walk;
pub mod wire;

use crate::codec::{branch_digest, branch_error, root_digest, root_encodable};
use crate::error::TrieError;
use crate::store::db::Database;
use crate::store::types::clone_opt_bytes;
use crate::store::types::{Branch, BranchView, Hashable, Key, Leaf, LeafView};
use crate::store::types::{Node, NodeHash, NodeView, Root, RootView};
use crate::walk::{descent, resume, same_opt_bytes, step, walk};
use crate::walk::{Landing, Step, Visit, Walk, KEY_BITS, MAX_DEPTH};
use vstd::prelude::*;

verus! {

/// Whether the walk along the leaf's key from `node` ends at a stored leaf
/// that carries the same hash as `leaf`.
pub open spec fn member(store: Map<Seq<u8>, NodeView>, leaf: LeafView, node: NodeView) -> bool {
    match descent(store, leaf.key, node).end {
        Landing::Leaf(found) => found.hash == leaf.hash,
        _ => false,
    }
}

/// Whether `leaf_expected` is bound under `current_node`: follows the key's
/// bits from that node and compares the hash of the leaf that the walk ends
/// at. A walk that ends anywhere else finds nothing. The store is left as
/// it was.
pub fn check_leaf<D: Database + ?Sized>(
    db: &mut D,
    leaf_expected: &Leaf,
    current_node: Node,
) -> (found: bool)
    requires
        leaf_expected.key@.len() == KEY_BITS,
    ensures
        final(db).contents() == old(db).contents(),
        found == member(old(db).contents(), leaf_expected@, current_node@),
{
    let ghost store = db.contents();
    let ghost start = current_node@;
    let ghost mut seen: Seq<Visit> = Seq::empty();
    let mut current = current_node;
    let mut slot: u8 = 0;
    let mut fuel: usize = MAX_DEPTH;
    loop
        invariant
            db.contents() == store,
            store == old(db).contents(),
            start == current_node@,
            leaf_expected.key@.len() == KEY_BITS,
            fuel <= MAX_DEPTH,
            descent(store, leaf_expected.key@, start) == resume(
                seen,
                walk(store, leaf_expected.key@, current@, slot, fuel as nat),
            ),
        decreases fuel,
    {
        match step(&current, &leaf_expected.key) {
            Step::Arrive => {
                match current {
                    Node::Leaf(leaf) => {
                        return same_opt_bytes(&leaf.hash, &leaf_expected.hash);
                    },
                    _ => {
                        return false;
                    },
                }
            },
            Step::Vacant(_) => {
                return false;
            },
            Step::Broken(_) => {
                return false;
            },
            Step::Follow(side, child) => {
                match db.get(child.as_slice()) {
                    None => {
                        return false;
                    },
                    Some(node) => {
                        if fuel == 0 {
                            return false;
                        }
                        proof {
                            let here = Visit { slot, node: current@, side };
                            let rest = walk(
                                store,
                                leaf_expected.key@,
                                node@,
                                side,
                                (fuel - 1) as nat,
                            );
                            assert(seen + (seq![here] + rest.visits) =~= seen.push(here)
                                + rest.visits);
                            seen = seen.push(here);
                        }
                        current = node;
                        slot = side;
                        fuel = fuel - 1;
                    },
                }
            },
        }
    }
}

/// Whether two keys differ at a position: the first has a bit there that
/// the second has not, or has otherwise.
pub open spec fn differ_at(a: Seq<u8>, b: Seq<u8>, i: int) -> bool {
    0 <= i < a.len() && (i >= b.len() || a[i] != b[i])
}

/// Whether `i` is the first position at which two keys differ.
pub open spec fn is_first_diff(a: Seq<u8>, b: Seq<u8>, i: int) -> bool {
    differ_at(a, b, i) && forall|j: int| 0 <= j < i ==> !differ_at(a, b, j)
}

/// The first position at which two keys differ, if they do within the
/// length of the first.
pub open spec fn first_diff(a: Seq<u8>, b: Seq<u8>) -> Option<int> {
    if exists|i: int| is_first_diff(a, b, i) {
        Some(choose|i: int| is_first_diff(a, b, i))
    } else {
        None
    }
}

/// Two keys have one first difference at most.
pub proof fn lemma_first_diff_unique(a: Seq<u8>, b: Seq<u8>, i: int, j: int)
    requires
        is_first_diff(a, b, i),
        is_first_diff(a, b, j),
    ensures
        i == j,
{
    if i < j {
        assert(!differ_at(a, b, i));
    }
    if j < i {
        assert(!differ_at(a, b, j));
    }
}

/// The first index at which `k1` differs from `k2`, or nothing where `k2`
/// agrees with `k1` over the whole length of `k1`.
pub fn find_key_idx_not_eq(k1: &Key, k2: &Key) -> (r: Option<usize>)
    ensures
        match r {
            Some(i) => is_first_diff(k1@, k2@, i as int) && first_diff(k1@, k2@) == Some(i as int),
            None => first_diff(k1@, k2@) is None && forall|j: int| !differ_at(k1@, k2@, j),
        },
{
    let mut idx: usize = 0;
    while idx < k1.len()
        invariant
            idx <= k1.len(),
            forall|j: int| 0 <= j < idx ==> !differ_at(k1@, k2@, j),
        decreases k1.len() - idx,
    {
        if idx >= k2.len() || k1[idx] != k2[idx] {
            proof {
                assert(is_first_diff(k1@, k2@, idx as int));
                lemma_first_diff_unique(
                    k1@,
                    k2@,
                    idx as int,
                    choose|i: int| is_first_diff(k1@, k2@, i),
                );
            }
            return Some(idx);
        }
        idx += 1;
    }
    None
}

/// The entries of a path as mathematical values.
pub open spec fn path_view(path: Seq<(u8, Node)>) -> Seq<(u8, NodeView)> {
    Seq::new(path.len(), |i: int| (path[i].0, path[i].1@))
}

/// The branches among the visits of a walk, top first, each with the slot
/// that it holds in its parent.
pub open spec fn branches(visits: Seq<Visit>) -> Seq<(u8, NodeView)>
    decreases visits.len(),
{
    if visits.len() == 0 {
        Seq::empty()
    } else {
        let above = branches(visits.drop_last());
        let visit = visits.last();
        if visit.node is Branch {
            above.push((visit.slot, visit.node))
        } else {
            above
        }
    }
}

/// The slot below the last visit: the side on which the walk left it. Below
/// no visit it is slot 0.
pub open spec fn last_side(visits: Seq<Visit>) -> u8 {
    if visits.len() == 0 {
        0
    } else {
        visits.last().side
    }
}

/// The branch that parts a new leaf from the leaf found where it should go:
/// it splits at the first bit in which the two keys differ, and has no hash
/// yet.
pub open spec fn fork(fresh: LeafView, found: LeafView, at: int) -> BranchView {
    if fresh.key[at] == 0 {
        BranchView { key: seq![at as u8], hash: None, left: fresh.hash, right: found.hash }
    } else {
        BranchView { key: seq![at as u8], hash: None, left: found.hash, right: fresh.hash }
    }
}

/// The node that an insertion puts at the end of a walk, with the slot that
/// it takes: the leaf itself at the empty side of a root, and at a leaf the
/// branch that parts the two.
pub open spec fn sprout(w: Walk, leaf: LeafView) -> Result<(u8, NodeView), TrieError> {
    match w.end {
        Landing::Broken(e) => Err(e),
        Landing::Vacant => if leaf.hash is None {
            Err(TrieError::HashMissing)
        } else {
            Ok((last_side(w.visits), NodeView::Leaf(leaf)))
        },
        Landing::Leaf(found) => match first_diff(leaf.key, found.key) {
            None => Err(TrieError::DuplicateLeaf),
            Some(at) => if leaf.hash is None {
                Err(TrieError::HashMissing)
            } else {
                let parting = fork(leaf, found, at);
                match branch_error(parting) {
                    Some(e) => Err(e),
                    None => Ok(
                        (
                            last_side(w.visits),
                            NodeView::Branch(
                                BranchView { hash: Some(branch_digest(parting)), ..parting },
                            ),
                        ),
                    ),
                }
            },
        },
    }
}

/// The path that an insertion of `leaf` below `node` has to rebuild: the
/// branches that the walk passes, top first, and below them the new node.
pub open spec fn trail(store: Map<Seq<u8>, NodeView>, leaf: LeafView, node: NodeView) -> Result<
    Seq<(u8, NodeView)>,
    TrieError,
> {
    let w = descent(store, leaf.key, node);
    match sprout(w, leaf) {
        Err(e) => Err(e),
        Ok(bottom) => Ok(branches(w.visits).push(bottom)),
    }
}

/// The nodes that the descent of an insertion writes, in their order: the
/// new leaf, and the new branch where there is one.
pub open spec fn sown(leaf: LeafView, bottom: NodeView) -> Seq<NodeView> {
    if bottom is Branch {
        seq![NodeView::Leaf(leaf), bottom]
    } else {
        seq![NodeView::Leaf(leaf)]
    }
}

/// A store after nodes were put in it one after the other, each under its
/// hash.
pub open spec fn put_all(store: Map<Seq<u8>, NodeView>, nodes: Seq<NodeView>) -> Map<
    Seq<u8>,
    NodeView,
>
    decreases nodes.len(),
{
    if nodes.len() == 0 {
        store
    } else {
        put_all(store.insert(nodes[0].hash().unwrap(), nodes[0]), nodes.drop_first())
    }
}

/// Putting nodes one after the other is putting the first, then the rest.
pub proof fn lemma_put_all_append(
    store: Map<Seq<u8>, NodeView>,
    first: Seq<NodeView>,
    rest: Seq<NodeView>,
)
    ensures
        put_all(store, first + rest) == put_all(put_all(store, first), rest),
    decreases first.len(),
{
    if first.len() == 0 {
        assert(first + rest =~= rest);
    } else {
        assert((first + rest).drop_first() =~= first.drop_first() + rest);
        lemma_put_all_append(
            store.insert(first[0].hash().unwrap(), first[0]),
            first.drop_first(),
            rest,
        );
    }
}

proof fn lemma_put_one(store: Map<Seq<u8>, NodeView>, node: NodeView)
    ensures
        put_all(store, seq![node]) == store.insert(node.hash().unwrap(), node),
{
    reveal_with_fuel(put_all, 2);
    assert(seq![node].drop_first() =~= Seq::<NodeView>::empty());
}

proof fn lemma_branches_push(seen: Seq<Visit>, visit: Visit)
    ensures
        branches(seen.push(visit)) == if visit.node is Branch {
            branches(seen).push((visit.slot, visit.node))
        } else {
            branches(seen)
        },
{
    assert(seen.push(visit).drop_last() =~= seen);
}

/// Walks from `root_node` along the key of `new_leaf` to the place where the
/// leaf belongs, and puts it there: at the empty side of a root the leaf
/// itself, at a leaf a new branch over both. Returns the nodes to rebuild:
/// the branches passed, top first, and the new node last, each with the slot
/// that it holds in its parent. On failure the store is left as it was.
pub fn traverse_trie<D: Database + ?Sized>(db: &mut D, new_leaf: &Leaf, root_node: Node) -> (r:
    Result<Vec<(u8, Node)>, TrieError>)
    requires
        new_leaf.key@.len() == KEY_BITS,
    ensures
        match r {
            Ok(path) => trail(old(db).contents(), new_leaf@, root_node@) == Ok::<
                Seq<(u8, NodeView)>,
                TrieError,
            >(path_view(path@)) && final(db).contents() == put_all(
                old(db).contents(),
                sown(new_leaf@, path_view(path@).last().1),
            ),
            Err(e) => trail(old(db).contents(), new_leaf@, root_node@) == Err::<
                Seq<(u8, NodeView)>,
                TrieError,
            >(e) && final(db).contents() == old(db).contents(),
        },
{
    let ghost store = db.contents();
    let ghost mut seen: Seq<Visit> = Seq::empty();
    let mut modified_nodes: Vec<(u8, Node)> = Vec::new();
    let mut current_node = root_node;
    let mut current_node_pos: u8 = 0;
    let mut fuel: usize = MAX_DEPTH;
    assert(path_view(modified_nodes@) =~= branches(seen));
    loop
        invariant
            db.contents() == store,
            store == old(db).contents(),
            new_leaf.key@.len() == KEY_BITS,
            fuel <= MAX_DEPTH,
            current_node_pos == last_side(seen),
            path_view(modified_nodes@) == branches(seen),
            descent(store, new_leaf.key@, root_node@) == resume(
                seen,
                walk(store, new_leaf.key@, current_node@, current_node_pos, fuel as nat),
            ),
        decreases fuel,
    {
        match step(&current_node, &new_leaf.key) {
            Step::Broken(e) => {
                return Err(e);
            },
            Step::Vacant(side) => {
                let ghost here = Visit { slot: current_node_pos, node: current_node@, side };
                proof {
                    assert(seen + seq![here] =~= seen.push(here));
                    lemma_branches_push(seen, here);
                }
                match new_leaf.store(db) {
                    Err(e) => {
                        return Err(e);
                    },
                    Ok(()) => {},
                }
                modified_nodes.push((side, Node::Leaf(new_leaf.clone())));
                assert(path_view(modified_nodes@) =~= branches(seen.push(here)).push(
                    (side, NodeView::Leaf(new_leaf@)),
                ));
                proof {
                    lemma_put_one(store, NodeView::Leaf(new_leaf@));
                }
                return Ok(modified_nodes);
            },
            Step::Arrive => {
                let leaf = match current_node {
                    Node::Leaf(leaf) => leaf,
                    _ => {
                        return Err(TrieError::InvalidChild);
                    },
                };
                assert(seen + Seq::<Visit>::empty() =~= seen);
                let neq_idx = match find_key_idx_not_eq(&new_leaf.key, &leaf.key) {
                    Some(neq_idx) => neq_idx,
                    None => {
                        return Err(TrieError::DuplicateLeaf);
                    },
                };
                if new_leaf.hash.is_none() {
                    return Err(TrieError::HashMissing);
                }
                let new_leaf_pos: u8 = new_leaf.key[neq_idx];
                let mut new_branch: Branch = Branch::empty(vec![neq_idx as u8]);
                if new_leaf_pos == 0 {
                    new_branch.left = clone_opt_bytes(&new_leaf.hash);
                    new_branch.right = clone_opt_bytes(&leaf.hash);
                } else {
                    new_branch.left = clone_opt_bytes(&leaf.hash);
                    new_branch.right = clone_opt_bytes(&new_leaf.hash);
                }
                assert(new_branch@ == fork(new_leaf@, leaf@, neq_idx as int)) by {
                    assert(new_branch@.key =~= seq![neq_idx as u8]);
                }
                match new_branch.hash() {
                    Err(e) => {
                        return Err(e);
                    },
                    Ok(()) => {},
                }
                match new_leaf.store(db) {
                    Err(e) => {
                        return Err(e);
                    },
                    Ok(()) => {},
                }
                match new_branch.store(db) {
                    Err(e) => {
                        return Err(e);
                    },
                    Ok(()) => {},
                }
                modified_nodes.push((current_node_pos, Node::Branch(new_branch)));
                assert(path_view(modified_nodes@) =~= branches(seen).push(
                    (current_node_pos, NodeView::Branch(new_branch@)),
                ));
                proof {
                    let first = seq![NodeView::Leaf(new_leaf@)];
                    let second = seq![NodeView::Branch(new_branch@)];
                    lemma_put_one(store, NodeView::Leaf(new_leaf@));
                    lemma_put_one(put_all(store, first), NodeView::Branch(new_branch@));
                    lemma_put_all_append(store, first, second);
                    assert(first + second =~= sown(new_leaf@, NodeView::Branch(new_branch@)));
                }
                return Ok(modified_nodes);
            },
            Step::Follow(side, child) => {
                let node = match db.get(child.as_slice()) {
                    Some(node) => node,
                    None => {
                        return Err(TrieError::MissingNode);
                    },
                };
                if fuel == 0 {
                    return Err(TrieError::InvalidBranch);
                }
                let ghost here = Visit { slot: current_node_pos, node: current_node@, side };
                proof {
                    let rest = walk(store, new_leaf.key@, node@, side, (fuel - 1) as nat);
                    assert(seen + (seq![here] + rest.visits) =~= seen.push(here) + rest.visits);
                    lemma_branches_push(seen, here);
                }
                match current_node {
                    Node::Branch(branch) => {
                        modified_nodes.push((current_node_pos, Node::Branch(branch)));
                        assert(path_view(modified_nodes@) =~= branches(seen.push(here)));
                    },
                    _ => {},
                }
                proof {
                    seen = seen.push(here);
                }
                current_node = node;
                current_node_pos = side;
                fuel = fuel - 1;
            },
        }
    }
}

/// A parent with the child in `slot` replaced by `digest`, and with the
/// hash of what it then holds. A leaf is no parent.
pub open spec fn reseat(parent: NodeView, slot: u8, digest: Seq<u8>) -> Result<NodeView, TrieError> {
    match parent {
        NodeView::Leaf(_) => Err(TrieError::InvalidParent),
        NodeView::Root(root) => {
            let fresh = if slot == 0 {
                RootView { hash: None, left: Some(digest), right: root.right }
            } else {
                RootView { hash: None, left: root.left, right: Some(digest) }
            };
            if root_encodable(fresh) {
                Ok(NodeView::Root(RootView { hash: Some(root_digest(fresh)), ..fresh }))
            } else {
                Err(TrieError::CodecError)
            }
        },
        NodeView::Branch(branch) => {
            let fresh = if slot == 0 {
                BranchView { hash: None, left: Some(digest), ..branch }
            } else {
                BranchView { hash: None, right: Some(digest), ..branch }
            };
            match branch_error(fresh) {
                Some(e) => Err(e),
                None => Ok(
                    NodeView::Branch(BranchView { hash: Some(branch_digest(fresh)), ..fresh }),
                ),
            }
        },
    }
}

/// A parent rebuilt over a child that has changed: the child's hash takes
/// the child's slot, and the parent is hashed again. The parent is no leaf,
/// the child is no root and has its hash.
pub open spec fn lift(child: (u8, NodeView), parent: NodeView) -> Result<NodeView, TrieError> {
    if parent is Leaf {
        Err(TrieError::InvalidParent)
    } else if child.1 is Root {
        Err(TrieError::InvalidChild)
    } else if child.1.hash() is None {
        Err(TrieError::HashMissing)
    } else {
        reseat(parent, child.0, child.1.hash().unwrap())
    }
}

/// The nodes rebuilt above a changed child, deepest first: `above` holds the
/// old nodes that lead to the child, top first.
pub open spec fn climb(above: Seq<(u8, NodeView)>, child: (u8, NodeView)) -> Result<
    Seq<NodeView>,
    TrieError,
>
    decreases above.len(),
{
    if above.len() == 0 {
        Ok(Seq::empty())
    } else {
        match lift(child, above.last().1) {
            Err(e) => Err(e),
            Ok(parent) => match climb(above.drop_last(), (above.last().0, parent)) {
                Err(e) => Err(e),
                Ok(rest) => Ok(seq![parent] + rest),
            },
        }
    }
}

/// The nodes that replace the old ones along a path, deepest first and the
/// new root last. There is none for a path without nodes.
pub open spec fn rebuilt(path: Seq<(u8, NodeView)>, old_root: RootView) -> Result<
    Seq<NodeView>,
    TrieError,
> {
    if path.len() == 0 {
        Err(TrieError::InvalidChild)
    } else {
        climb(seq![(0u8, NodeView::Root(old_root))] + path.drop_last(), path.last())
    }
}

/// Nodes as mathematical values.
pub open spec fn nodes_view(nodes: Seq<Node>) -> Seq<NodeView> {
    Seq::new(nodes.len(), |i: int| nodes[i]@)
}

fn child_digest(child: &Node) -> (r: Result<NodeHash, TrieError>)
    ensures
        match r {
            Ok(digest) => !(child@ is Root) && child@.hash() == Some(digest@),
            Err(e) => if child@ is Root {
                e == TrieError::InvalidChild
            } else {
                child@.hash() is None && e == TrieError::HashMissing
            },
        },
{
    if let Node::Root(_) = child {
        return Err(TrieError::InvalidChild);
    }
    match child.carried_hash() {
        Some(digest) => Ok(digest),
        None => Err(TrieError::HashMissing),
    }
}

/// Puts `digest` into a slot of `parent` and hashes the parent again.
pub fn reseat_node(parent: Node, slot: u8, digest: NodeHash) -> (r: Result<Node, TrieError>)
    ensures
        match r {
            Ok(node) => reseat(parent@, slot, digest@) == Ok::<NodeView, TrieError>(node@),
            Err(e) => reseat(parent@, slot, digest@) == Err::<NodeView, TrieError>(e),
        },
{
    match parent {
        Node::Leaf(_) => Err(TrieError::InvalidParent),
        Node::Root(mut root) => {
            if slot == 0 {
                root.left = Some(digest);
            } else {
                root.right = Some(digest);
            }
            match root.hash() {
                Ok(()) => Ok(Node::Root(root)),
                Err(e) => Err(e),
            }
        },
        Node::Branch(mut branch) => {
            if slot == 0 {
                branch.left = Some(digest);
            } else {
                branch.right = Some(digest);
            }
            match branch.hash() {
                Ok(()) => Ok(Node::Branch(branch)),
                Err(e) => Err(e),
            }
        },
    }
}

/// Puts the hash of `child` into the slot of `parent` that the child holds,
/// and hashes the parent again.
fn lift_node(slot: u8, child: &Node, parent: Node) -> (r: Result<Node, TrieError>)
    ensures
        match r {
            Ok(node) => lift((slot, child@), parent@) == Ok::<NodeView, TrieError>(node@),
            Err(e) => lift((slot, child@), parent@) == Err::<NodeView, TrieError>(e),
        },
{
    if let Node::Leaf(_) = parent {
        return Err(TrieError::InvalidParent);
    }
    match child_digest(child) {
        Ok(digest) => reseat_node(parent, slot, digest),
        Err(e) => Err(e),
    }
}

fn store_node<D: Database + ?Sized>(db: &mut D, node: &Node) -> (r: Result<(), TrieError>)
    ensures
        match r {
            Ok(()) => node@.hash() is Some && final(db).contents() == old(db).contents().insert(
                node@.hash().unwrap(),
                node@,
            ),
            Err(e) => node@.hash() is None && e == TrieError::HashMissing && final(db).contents()
                == old(db).contents(),
        },
{
    match node {
        Node::Root(root) => root.store(db),
        Node::Branch(branch) => branch.store(db),
        Node::Leaf(leaf) => leaf.store(db),
    }
}

proof fn lemma_climb_shape(above: Seq<(u8, NodeView)>, child: (u8, NodeView))
    ensures
        climb(above, child) matches Ok(nodes) ==> nodes.len() == above.len() && (forall|i: int|
            0 <= i < nodes.len() ==> (#[trigger] nodes[i]).hash() is Some) && (above.len() > 0
            && above[0].1 is Root ==> nodes.last() is Root),
    decreases above.len(),
{
    if above.len() > 0 {
        if let Ok(parent) = lift(child, above.last().1) {
            let inner = above.drop_last();
            lemma_climb_shape(inner, (above.last().0, parent));
            if let Ok(rest) = climb(inner, (above.last().0, parent)) {
                let nodes = seq![parent] + rest;
                if inner.len() > 0 {
                    assert(inner[0] == above[0]);
                    assert(nodes.last() == rest.last());
                }
            }
        }
    }
}

/// Rebuilds the nodes above a changed node. `modified_nodes` is the path to
/// it as the descent returns it: top first, the changed node last. From the
/// deepest entry upward each parent gets the hash of its child in the
/// child's slot and is hashed again; the last parent is `old_root`. The
/// rebuilt nodes are then stored, deepest first, and the new root is
/// returned. On failure the store is left as it was.
pub fn update_modified_leafs<D: Database + ?Sized>(
    db: &mut D,
    modified_nodes: Vec<(u8, Node)>,
    old_root: Root,
) -> (r: Result<Root, TrieError>)
    ensures
        match r {
            Ok(new_root) => rebuilt(path_view(modified_nodes@), old_root@) matches Ok(nodes)
                && nodes.len() > 0 && nodes.last() == NodeView::Root(new_root@)
                && final(db).contents() == put_all(old(db).contents(), nodes),
            Err(e) => rebuilt(path_view(modified_nodes@), old_root@) == Err::<
                Seq<NodeView>,
                TrieError,
            >(e) && final(db).contents() == old(db).contents(),
        },
{
    let ghost path = path_view(modified_nodes@);
    let ghost top = seq![(0u8, NodeView::Root(old_root@))];
    let mut above = modified_nodes;
    let mut child: (u8, Node) = match above.pop() {
        Some(child) => child,
        None => {
            return Err(TrieError::InvalidChild);
        },
    };
    above.insert(0, (0, Node::Root(old_root)));
    assert(path_view(above@) =~= top + path.drop_last());
    assert((child.0, child.1@) == path.last());
    let mut done: Vec<Node> = Vec::new();
    let ghost goal = rebuilt(path, old_root@);
    assert(nodes_view(done@) =~= Seq::<NodeView>::empty());
    loop
        invariant
            goal == rebuilt(path_view(modified_nodes@), old_root@),
            db.contents() == old(db).contents(),
            done@.len() > 0 ==> child.1@ == nodes_view(done@).last(),
            match climb(path_view(above@), (child.0, child.1@)) {
                Ok(rest) => goal == Ok::<Seq<NodeView>, TrieError>(nodes_view(done@) + rest),
                Err(e) => goal == Err::<Seq<NodeView>, TrieError>(e),
            },
        ensures
            db.contents() == old(db).contents(),
            goal == Ok::<Seq<NodeView>, TrieError>(nodes_view(done@)),
            done@.len() > 0 ==> child.1@ == nodes_view(done@).last(),
        decreases above.len(),
    {
        let ghost before = path_view(above@);
        let ghost had = nodes_view(done@);
        let (slot, parent) = match above.pop() {
            Some(entry) => entry,
            None => {
                assert(had + Seq::<NodeView>::empty() =~= had);
                break ;
            },
        };
        assert(path_view(above@) =~= before.drop_last());
        assert(before.last() == (slot, parent@));
        let node = match lift_node(child.0, &child.1, parent) {
            Ok(node) => node,
            Err(e) => {
                return Err(e);
            },
        };
        proof {
            if let Ok(rest) = climb(path_view(above@), (slot, node@)) {
                assert(had.push(node@) + rest =~= had + (seq![node@] + rest));
            }
        }
        done.push(node.clone());
        assert(nodes_view(done@) =~= had.push(node@));
        child = (slot, node);
    }
    let ghost nodes = nodes_view(done@);
    proof {
        lemma_climb_shape(top + path.drop_last(), path.last());
    }
    let ghost store = db.contents();
    let mut i: usize = 0;
    assert(nodes.skip(0) =~= nodes);
    while i < done.len()
        invariant
            i <= done.len(),
            nodes == nodes_view(done@),
            forall|j: int| 0 <= j < nodes.len() ==> (#[trigger] nodes[j]).hash() is Some,
            put_all(store, nodes) == put_all(db.contents(), nodes.skip(i as int)),
        decreases done.len() - i,
    {
        assert(nodes.skip(i as int).drop_first() =~= nodes.skip(i + 1));
        assert(nodes.skip(i as int)[0] == nodes[i as int]);
        match store_node(db, &done[i]) {
            Ok(()) => {},
            Err(e) => {
                return Err(e);
            },
        }
        i += 1;
    }
    child.1.unwrap_as_root()
}

/// What an insertion does: what it returns, and the nodes that it puts in
/// the store, in their order.
pub struct Insertion {
    pub result: Result<RootView, TrieError>,
    pub writes: Seq<NodeView>,
}

/// The insertion of `leaf` into the tree under `root_node`.
///
/// A leaf that is bound already is refused and nothing is written. Else the
/// descent finds the place of the leaf; where it fails nothing is written.
/// Else the store gets the leaf, and the branch that parts it from the leaf
/// that was found in its place. The nodes above are then rebuilt from the
/// bottom up and stored, the new root last; where that fails no more is
/// written than the leaf and that branch.
pub open spec fn insertion(store: Map<Seq<u8>, NodeView>, leaf: LeafView, root_node: NodeView)
    -> Insertion {
    if member(store, leaf, root_node) {
        Insertion { result: Err(TrieError::DuplicateLeaf), writes: Seq::empty() }
    } else {
        match trail(store, leaf, root_node) {
            Err(e) => Insertion { result: Err(e), writes: Seq::empty() },
            Ok(path) => {
                let below = sown(leaf, path.last().1);
                match root_node {
                    NodeView::Root(old_root) => match rebuilt(path, old_root) {
                        Err(e) => Insertion { result: Err(e), writes: below },
                        Ok(nodes) => Insertion {
                            result: Ok(nodes.last()->Root_0),
                            writes: below + nodes,
                        },
                    },
                    _ => Insertion { result: Err(TrieError::InvalidParent), writes: below },
                }
            },
        }
    }
}

/// Binds the key of `new_leaf` to its payload in the tree under `root_node`
/// and returns the root of the new version of the tree. The old root, and
/// every node under it, stays in the store. The leaf must carry its hash.
pub fn insert_leaf<D: Database + ?Sized>(db: &mut D, new_leaf: &mut Leaf, root_node: Node) -> (r:
    Result<Root, TrieError>)
    requires
        old(new_leaf).key@.len() == KEY_BITS,
    ensures
        final(new_leaf)@ == old(new_leaf)@,
        final(db).contents() == put_all(
            old(db).contents(),
            insertion(old(db).contents(), old(new_leaf)@, root_node@).writes,
        ),
        match r {
            Ok(new_root) => insertion(old(db).contents(), old(new_leaf)@, root_node@).result
                == Ok::<RootView, TrieError>(new_root@),
            Err(e) => insertion(old(db).contents(), old(new_leaf)@, root_node@).result == Err::<
                RootView,
                TrieError,
            >(e),
        },
{
    if check_leaf(db, new_leaf, root_node.clone()) {
        return Err(TrieError::DuplicateLeaf);
    }
    let modified_nodes = match traverse_trie(db, new_leaf, root_node.clone()) {
        Ok(modified_nodes) => modified_nodes,
        Err(e) => {
            return Err(e);
        },
    };
    let ghost below = sown(new_leaf@, path_view(modified_nodes@).last().1);
    let old_root = match root_node.unwrap_as_root() {
        Ok(old_root) => old_root,
        Err(e) => {
            return Err(e);
        },
    };
    proof {
        if let Ok(nodes) = rebuilt(path_view(modified_nodes@), old_root@) {
            lemma_put_all_append(old(db).contents(), below, nodes);
        }
    }
    update_modified_leafs(db, modified_nodes, old_root)
}

} // verus!
