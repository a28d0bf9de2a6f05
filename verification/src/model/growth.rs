use crate::{branches, climb, differ_at, first_diff, fork, insertion, is_first_diff, last_side};
use crate::{lift, member, put_all, rebuilt, sown, sprout, Insertion};
use crate::codec::{branch_digest, branch_error};
use crate::error::TrieError;
use crate::model::lookup::{law_membership, lemma_descent};
use crate::model::trie::{bare, lemma_digest_len, lemma_every_holds, lemma_find_holds};
use crate::model::trie::{lemma_find_own, lemma_kept_leaf, lemma_kept_on, lemma_kept_top};
use crate::model::trie::{lemma_sound_leaves, stands, valid_leaf, Tree, Trie};
use crate::store::types::{BranchView, LeafView, NodeView, RootView};
use crate::walk::{descent, side_of, walk, Visit};
use vstd::prelude::*;

verus! {

/// Keys of one length that are not the same differ at a first position.
pub proof fn lemma_first_diff_exists(a: Seq<u8>, b: Seq<u8>)
    requires
        a.len() == b.len(),
        a != b,
    ensures
        first_diff(a, b) is Some,
{
    if !exists|k: int| differ_at(a, b, k) {
        assert forall|k: int| 0 <= k < a.len() implies a[k] == b[k] by {
            assert(!differ_at(a, b, k));
        }
        assert(a =~= b);
    }
    let k = choose|k: int| differ_at(a, b, k);
    lemma_scan(a, b, 0, k);
}

proof fn lemma_scan(a: Seq<u8>, b: Seq<u8>, from: int, k: int)
    requires
        0 <= from <= k,
        differ_at(a, b, k),
        forall|j: int| 0 <= j < from ==> !differ_at(a, b, j),
    ensures
        exists|i: int| is_first_diff(a, b, i),
    decreases k - from,
{
    if differ_at(a, b, from) {
        assert(is_first_diff(a, b, from));
    } else {
        lemma_scan(a, b, from + 1, k);
    }
}

/// What `first_diff` finds is the first position at which the keys differ.
pub proof fn lemma_first_diff(a: Seq<u8>, b: Seq<u8>)
    ensures
        match first_diff(a, b) {
            Some(at) => is_first_diff(a, b, at),
            None => forall|k: int| !differ_at(a, b, k),
        },
{
    if first_diff(a, b) is None {
        assert forall|k: int| !differ_at(a, b, k) by {
            if differ_at(a, b, k) {
                lemma_scan(a, b, 0, k);
            }
        }
    }
}

/// The branches among visits, taken part by part.
pub proof fn lemma_branches_concat(a: Seq<Visit>, b: Seq<Visit>)
    ensures
        branches(a + b) == branches(a) + branches(b),
    decreases b.len(),
{
    if b.len() == 0 {
        assert(a + b =~= a);
        assert(branches(a) + branches(b) =~= branches(a));
    } else {
        assert((a + b).drop_last() =~= a + b.drop_last());
        lemma_branches_concat(a, b.drop_last());
        assert(branches(a + b) =~= branches(a) + branches(b));
    }
}

proof fn lemma_branches_one(visit: Visit)
    ensures
        branches(seq![visit]) == if visit.node is Branch {
            seq![(visit.slot, visit.node)]
        } else {
            Seq::empty()
        },
{
    reveal_with_fuel(branches, 2);
    assert(seq![visit].drop_last() =~= Seq::<Visit>::empty());
    assert(branches(seq![visit]) =~= if visit.node is Branch {
        seq![(visit.slot, visit.node)]
    } else {
        Seq::empty()
    });
}

impl Trie {
    /// The tree with one more leaf. The leaf goes where its bits lead; the
    /// leaf found there makes room under a new branch, which splits at the
    /// first bit in which the two keys differ. A leaf whose key the tree
    /// holds already changes nothing.
    pub open spec fn grow(self, leaf: LeafView) -> Trie
        decreases self,
    {
        match self {
            Trie::Leaf(found) => match first_diff(leaf.key, found.key) {
                Some(at) => if leaf.key[at] == 0 {
                    Trie::Fork {
                        at: at as u8,
                        left: Box::new(Trie::Leaf(leaf)),
                        right: Box::new(self),
                    }
                } else {
                    Trie::Fork {
                        at: at as u8,
                        left: Box::new(self),
                        right: Box::new(Trie::Leaf(leaf)),
                    }
                },
                None => self,
            },
            Trie::Fork { at, left, right } => if side_of(leaf.key, at as int) == 0 {
                Trie::Fork { at, left: Box::new(left.grow(leaf)), right }
            } else {
                Trie::Fork { at, left, right: Box::new(right.grow(leaf)) }
            },
        }
    }

    /// The top nodes of the trees that grow on the way to a new leaf,
    /// deepest first, without the new branch at the bottom.
    pub open spec fn regrown(self, leaf: LeafView) -> Seq<NodeView>
        decreases self,
    {
        match self {
            Trie::Leaf(_) => Seq::empty(),
            Trie::Fork { at, left, right } => {
                let below = if side_of(leaf.key, at as int) == 0 {
                    left.regrown(leaf)
                } else {
                    right.regrown(leaf)
                };
                below.push(self.grow(leaf).node())
            },
        }
    }

    /// The slot of the leaf that the bits of `key` lead to; `slot` is the
    /// slot that the tree holds in its parent.
    pub open spec fn landing(self, key: Seq<u8>, slot: u8) -> u8
        decreases self,
    {
        match self {
            Trie::Leaf(_) => slot,
            Trie::Fork { at, left, right } => {
                let side = side_of(key, at as int);
                if side == 0 {
                    left.landing(key, side)
                } else {
                    right.landing(key, side)
                }
            },
        }
    }
}

proof fn lemma_landing(t: Trie, key: Seq<u8>, before: Visit)
    ensures
        last_side(seq![before] + t.trace(key, before.side)) == t.landing(key, before.side),
    decreases t,
{
    match t {
        Trie::Leaf(_) => {
            assert(seq![before] + t.trace(key, before.side) =~= seq![before]);
        },
        Trie::Fork { at, left, right } => {
            let side = side_of(key, at as int);
            let here = Visit { slot: before.side, node: t.node(), side };
            let child = if side == 0 {
                *left
            } else {
                *right
            };
            lemma_landing(child, key, here);
            let below = child.trace(key, side);
            assert(t.trace(key, before.side) == seq![here] + below);
            assert((seq![before] + (seq![here] + below)).last() == (seq![here] + below).last());
        },
    }
}

/// A tree that grows by a valid leaf with a new key stays sound, and holds
/// what it held and the new leaf.
pub proof fn lemma_grow_sound(t: Trie, leaf: LeafView)
    requires
        t.sound(),
        valid_leaf(leaf),
        t.find(leaf.key).key != leaf.key,
    ensures
        t.grow(leaf).sound(),
        t.grow(leaf) is Fork,
        forall|at: int, side: u8|
            t.every(at, side) && side_of(leaf.key, at) == side ==> #[trigger] t.grow(leaf).every(
                at,
                side,
            ),
        forall|own: LeafView| #[trigger]
            t.grow(leaf).holds(own) <==> t.holds(own) || own == leaf,
    decreases t,
{
    let grown = t.grow(leaf);
    match t {
        Trie::Leaf(found) => {
            lemma_first_diff_exists(leaf.key, found.key);
            lemma_first_diff(leaf.key, found.key);
            let at = first_diff(leaf.key, found.key)->Some_0;
            assert(leaf.key[at] <= 1);
            assert(found.key[at] <= 1);
            reveal_with_fuel(Trie::sound, 2);
            reveal_with_fuel(Trie::every, 2);
            reveal_with_fuel(Trie::holds, 2);
            assert forall|own: LeafView| #[trigger] grown.holds(own) <==> t.holds(own) || own
                == leaf by {}
            assert forall|p: int, side: u8|
                t.every(p, side) && side_of(leaf.key, p) == side implies #[trigger] grown.every(
                p,
                side,
            ) by {}
        },
        Trie::Fork { at, left, right } => {
            if side_of(leaf.key, at as int) == 0 {
                lemma_grow_sound(*left, leaf);
                assert forall|own: LeafView| #[trigger] grown.holds(own) <==> t.holds(own) || own
                    == leaf by {
                    assert(grown.holds(own) == (left.grow(leaf).holds(own) || right.holds(own)));
                }
                assert forall|p: int, side: u8|
                    t.every(p, side) && side_of(leaf.key, p) == side implies #[trigger] grown.every(
                    p,
                    side,
                ) by {
                    assert(left.grow(leaf).every(p, side));
                }
            } else {
                lemma_grow_sound(*right, leaf);
                assert forall|own: LeafView| #[trigger] grown.holds(own) <==> t.holds(own) || own
                    == leaf by {
                    assert(grown.holds(own) == (left.holds(own) || right.grow(leaf).holds(own)));
                }
                assert forall|p: int, side: u8|
                    t.every(p, side) && side_of(leaf.key, p) == side implies #[trigger] grown.every(
                    p,
                    side,
                ) by {
                    assert(right.grow(leaf).every(p, side));
                }
            }
        },
    }
}

/// The rebuilding of the nodes above a new leaf, seen in the tree: above
/// the new branch at the bottom each branch on the way gives place to the
/// top node of the tree that has grown below it.
proof fn lemma_climb(t: Trie, leaf: LeafView, slot: u8, above: Seq<(u8, NodeView)>)
    requires
        t.sound(),
        valid_leaf(leaf),
        t.find(leaf.key).key != leaf.key,
    ensures
        climb(
            above + branches(t.trace(leaf.key, slot)),
            (t.landing(leaf.key, slot), Trie::Leaf(t.find(leaf.key)).grow(leaf).node()),
        ) == (match climb(above, (slot, t.grow(leaf).node())) {
            Ok(rest) => Ok::<Seq<NodeView>, TrieError>(t.regrown(leaf) + rest),
            Err(e) => Err(e),
        }),
    decreases t,
{
    let key = leaf.key;
    match t {
        Trie::Leaf(found) => {
            assert(above + branches(t.trace(key, slot)) =~= above);
            if let Ok(rest) = climb(above, (slot, t.grow(leaf).node())) {
                assert(t.regrown(leaf) + rest =~= rest);
            }
        },
        Trie::Fork { at, left, right } => {
            let side = side_of(key, at as int);
            let child = if side == 0 {
                *left
            } else {
                *right
            };
            let here = Visit { slot, node: t.node(), side };
            let entry = (slot, t.node());
            let higher = above.push(entry);
            let bottom = (
                t.landing(key, slot),
                Trie::Leaf(t.find(key)).grow(leaf).node(),
            );
            lemma_branches_concat(seq![here], child.trace(key, side));
            lemma_branches_one(here);
            assert(above + branches(t.trace(key, slot)) =~= higher + branches(
                child.trace(key, side),
            ));
            lemma_climb(child, leaf, side, higher);
            lemma_grow_sound(child, leaf);
            lemma_digest_len(child.grow(leaf));
            lemma_digest_len(*left);
            lemma_digest_len(*right);
            let grown = child.grow(leaf);
            assert(higher.last() == entry);
            assert(higher.drop_last() =~= above);
            assert(lift((side, grown.node()), t.node()) == Ok::<
                NodeView,
                TrieError,
            >(t.grow(leaf).node())) by {
                let fresh = if side == 0 {
                    bare(at, grown.digest(), right.digest())
                } else {
                    bare(at, left.digest(), grown.digest())
                };
                assert(branch_error(fresh) is None);
                assert(fresh.key =~= seq![at]);
            }
            match climb(above, (slot, t.grow(leaf).node())) {
                Ok(rest) => {
                    assert(child.regrown(leaf) + (seq![t.grow(leaf).node()] + rest)
                        =~= t.regrown(leaf) + rest);
                },
                Err(e) => {},
            }
        },
    }
}

impl Tree {
    /// Whether a leaf of the tree has this key.
    pub open spec fn has_key(self, key: Seq<u8>) -> bool {
        exists|own: LeafView| self.holds(own) && own.key == key
    }

    /// The tree with one more leaf: the side of the leaf's first bit grows,
    /// and an empty side becomes the leaf.
    pub open spec fn grow(self, leaf: LeafView) -> Tree {
        let side = side_of(leaf.key, 0);
        let grown = match self.below(side) {
            Some(t) => t.grow(leaf),
            None => Trie::Leaf(leaf),
        };
        if side == 0 {
            Tree { left: Some(grown), right: self.right }
        } else {
            Tree { left: self.left, right: Some(grown) }
        }
    }

    /// The nodes that make the grown tree and that the old tree has not, in
    /// the order in which an insertion writes them: the leaf, the branch
    /// over it and the leaf found in its place, the nodes above from the
    /// bottom up, and the root.
    pub open spec fn writes(self, leaf: LeafView) -> Seq<NodeView> {
        let top = seq![NodeView::Root(self.grow(leaf).root())];
        match self.below(side_of(leaf.key, 0)) {
            Some(t) => seq![
                NodeView::Leaf(leaf),
                Trie::Leaf(t.find(leaf.key)).grow(leaf).node(),
            ] + t.regrown(leaf) + top,
            None => seq![NodeView::Leaf(leaf)] + top,
        }
    }
}

/// Duplicate rejection: a leaf whose key the tree holds already is refused,
/// and nothing is written.
pub proof fn law_duplicate(
    tree: Tree,
    store: Map<Seq<u8>, NodeView>,
    root: RootView,
    leaf: LeafView,
)
    requires
        stands(tree, store, root),
        tree.has_key(leaf.key),
    ensures
        insertion(store, leaf, NodeView::Root(root)) == (Insertion {
            result: Err(TrieError::DuplicateLeaf),
            writes: Seq::empty(),
        }),
{
    let own = choose|own: LeafView| tree.holds(own) && own.key == leaf.key;
    lemma_descent(tree, store, root, leaf.key);
    if tree.left is Some && tree.left->Some_0.holds(own) {
        let t = tree.left->Some_0;
        lemma_every_holds(t, 0, 0, own);
        lemma_find_own(t, own);
    } else {
        let t = tree.right->Some_0;
        lemma_every_holds(t, 0, 1, own);
        lemma_find_own(t, own);
    }
    lemma_first_diff(leaf.key, own.key);
}

/// Insertion of a new key: where the tree holds no leaf with the key of a
/// valid leaf, and the leaf is not taken for one that is there, the
/// insertion succeeds. It returns the root of the grown tree and writes the
/// nodes that the grown tree has and the old tree has not. The grown tree is
/// sound and holds the leaves of the old tree and the new leaf.
pub proof fn law_insertion(
    tree: Tree,
    store: Map<Seq<u8>, NodeView>,
    root: RootView,
    leaf: LeafView,
)
    requires
        stands(tree, store, root),
        valid_leaf(leaf),
        !tree.has_key(leaf.key),
        !member(store, leaf, NodeView::Root(root)),
    ensures
        insertion(store, leaf, NodeView::Root(root)) == (Insertion {
            result: Ok(tree.grow(leaf).root()),
            writes: tree.writes(leaf),
        }),
        tree.grow(leaf).sound(),
        tree.grow(leaf).shown_by(tree.grow(leaf).root()),
        forall|own: LeafView| #[trigger]
            tree.grow(leaf).holds(own) <==> tree.holds(own) || own == leaf,
{
    let key = leaf.key;
    let side = side_of(key, 0);
    let top = NodeView::Root(root);
    let first = Visit { slot: 0, node: top, side };
    let grown = tree.grow(leaf);
    lemma_descent(tree, store, root, key);
    let w = descent(store, key, top);
    lemma_branches_one(first);
    match tree.below(side) {
        None => {
            let bottom = (side, NodeView::Leaf(leaf));
            assert(sprout(w, leaf) == Ok::<(u8, NodeView), TrieError>(bottom));
            let path = branches(w.visits).push(bottom);
            assert(path =~= seq![bottom]);
            let above = seq![(0u8, top)];
            assert(above + path.drop_last() =~= above);
            lemma_root_lift(tree, root, leaf);
            assert(above.drop_last() =~= Seq::<(u8, NodeView)>::empty());
            reveal_with_fuel(climb, 2);
            assert(climb(above, bottom) == Ok::<Seq<NodeView>, TrieError>(
                seq![NodeView::Root(grown.root())] + Seq::<NodeView>::empty(),
            ));
            assert(seq![NodeView::Root(grown.root())] + Seq::<NodeView>::empty() =~= seq![
                NodeView::Root(grown.root()),
            ]);
        },
        Some(t) => {
            let found = t.find(key);
            lemma_find_holds(t, key);
            assert(tree.holds(found));
            lemma_sound_leaves(t, found);
            lemma_first_diff_exists(key, found.key);
            lemma_first_diff(key, found.key);
            let at = first_diff(key, found.key)->Some_0;
            let parting = fork(leaf, found, at);
            lemma_landing(t, key, first);
            let new_branch = Trie::Leaf(found).grow(leaf);
            assert(parting.key =~= seq![at as u8]);
            assert(branch_error(parting) is None);
            let bottom = (t.landing(key, side), new_branch.node());
            assert(new_branch.node() == NodeView::Branch(
                BranchView { hash: Some(branch_digest(parting)), ..parting },
            )) by {
                reveal_with_fuel(Trie::digest, 2);
            }
            assert(sprout(w, leaf) == Ok::<(u8, NodeView), TrieError>(bottom));
            lemma_branches_concat(seq![first], t.trace(key, side));
            let spine = branches(t.trace(key, side));
            assert(branches(w.visits) =~= spine);
            let path = spine.push(bottom);
            assert(path.drop_last() =~= spine);
            let above = seq![(0u8, top)];
            lemma_climb(t, leaf, side, above);
            lemma_grow_sound(t, leaf);
            lemma_root_lift(tree, root, leaf);
            assert(above.drop_last() =~= Seq::<(u8, NodeView)>::empty());
            reveal_with_fuel(climb, 2);
            assert(climb(above, (side, t.grow(leaf).node())) == Ok::<Seq<NodeView>, TrieError>(
                seq![NodeView::Root(grown.root())] + Seq::<NodeView>::empty(),
            ));
            let nodes = t.regrown(leaf) + (seq![NodeView::Root(grown.root())] + Seq::<
                NodeView,
            >::empty());
            assert(rebuilt(path, root) == Ok::<Seq<NodeView>, TrieError>(nodes));
            assert(sown(leaf, bottom.1) + nodes =~= tree.writes(leaf));
            assert(nodes.last() == NodeView::Root(grown.root()));
        },
    }
}

/// The root of a sound tree, rebuilt over the side that has grown, is the
/// root of the grown tree.
pub(crate) proof fn lemma_root_lift(tree: Tree, root: RootView, leaf: LeafView)
    requires
        tree.sound(),
        tree.shown_by(root),
        valid_leaf(leaf),
        tree.below(side_of(leaf.key, 0)) matches Some(t) ==> t.find(leaf.key).key != leaf.key,
    ensures
        lift(
            (side_of(leaf.key, 0), tree.grow(leaf).below(side_of(leaf.key, 0))->Some_0.node()),
            NodeView::Root(root),
        ) == Ok::<NodeView, TrieError>(NodeView::Root(tree.grow(leaf).root())),
        tree.grow(leaf).sound(),
        tree.grow(leaf).shown_by(tree.grow(leaf).root()),
        forall|own: LeafView| #[trigger]
            tree.grow(leaf).holds(own) <==> tree.holds(own) || own == leaf,
{
    let side = side_of(leaf.key, 0);
    let grown = tree.grow(leaf).below(side)->Some_0;
    lemma_digest_len(grown);
    if tree.left is Some {
        lemma_digest_len(tree.left->Some_0);
    }
    if tree.right is Some {
        lemma_digest_len(tree.right->Some_0);
    }
    match tree.below(side) {
        Some(t) => {
            lemma_grow_sound(t, leaf);
        },
        None => {},
    }
    assert forall|own: LeafView| #[trigger]
        tree.grow(leaf).holds(own) <==> tree.holds(own) || own == leaf by {}
}

/// Whether a store holds a node under the node's hash.
pub open spec fn placed(store: Map<Seq<u8>, NodeView>, node: NodeView) -> bool {
    node.hash() is Some && store.contains_key(node.hash().unwrap()) && store[node.hash().unwrap()]
        == node
}

/// Whether writing has displaced nothing: the store holds afterwards every
/// node that it held before, and every node that was written. Two nodes
/// with one digest, of which the later one takes the place of the earlier,
/// are what it rules out: a collision of the hash function.
pub open spec fn settled(
    before: Map<Seq<u8>, NodeView>,
    written: Seq<NodeView>,
    after: Map<Seq<u8>, NodeView>,
) -> bool {
    &&& forall|d: Seq<u8>| #[trigger]
        before.contains_key(d) ==> after.contains_key(d) && after[d] == before[d]
    &&& forall|i: int| 0 <= i < written.len() ==> placed(after, #[trigger] written[i])
}

/// A store that holds a tree, the new leaf, the new branch and the nodes
/// that have grown above it holds the grown tree.
proof fn lemma_kept_grow(t: Trie, leaf: LeafView, after: Map<Seq<u8>, NodeView>)
    requires
        t.sound(),
        valid_leaf(leaf),
        t.find(leaf.key).key != leaf.key,
        t.kept(after),
        placed(after, NodeView::Leaf(leaf)),
        placed(after, Trie::Leaf(t.find(leaf.key)).grow(leaf).node()),
        forall|i: int| 0 <= i < t.regrown(leaf).len() ==> placed(after, #[trigger] t.regrown(leaf)[i]),
    ensures
        t.grow(leaf).kept(after),
    decreases t,
{
    match t {
        Trie::Leaf(found) => {
            lemma_first_diff_exists(leaf.key, found.key);
            reveal_with_fuel(Trie::kept, 2);
            reveal_with_fuel(Trie::digest, 2);
        },
        Trie::Fork { at, left, right } => {
            let side = side_of(leaf.key, at as int);
            let child = if side == 0 {
                *left
            } else {
                *right
            };
            let grown = t.grow(leaf);
            assert(t.regrown(leaf).last() == grown.node());
            assert(placed(after, t.regrown(leaf)[t.regrown(leaf).len() - 1]));
            assert forall|i: int| 0 <= i < child.regrown(leaf).len() implies placed(
                after,
                #[trigger] child.regrown(leaf)[i],
            ) by {
                assert(child.regrown(leaf)[i] == t.regrown(leaf)[i]);
            }
            lemma_kept_grow(child, leaf, after);
        },
    }
}

/// Immutability: where writing has displaced nothing, a root shows after
/// it the tree that it showed before, and every walk from it goes as it
/// went.
pub proof fn law_immutability(
    tree: Tree,
    before: Map<Seq<u8>, NodeView>,
    root: RootView,
    written: Seq<NodeView>,
    after: Map<Seq<u8>, NodeView>,
)
    requires
        stands(tree, before, root),
        settled(before, written, after),
    ensures
        stands(tree, after, root),
        forall|key: Seq<u8>| #[trigger]
            descent(after, key, NodeView::Root(root)) == descent(before, key, NodeView::Root(root)),
        forall|leaf: LeafView| #[trigger]
            member(after, leaf, NodeView::Root(root)) == member(before, leaf, NodeView::Root(root)),
{
    if tree.left is Some {
        lemma_kept_on(tree.left->Some_0, before, after);
    }
    if tree.right is Some {
        lemma_kept_on(tree.right->Some_0, before, after);
    }
    assert forall|key: Seq<u8>| #[trigger]
        descent(after, key, NodeView::Root(root)) == descent(
            before,
            key,
            NodeView::Root(root),
        ) by {
        lemma_descent(tree, before, root, key);
        lemma_descent(tree, after, root, key);
    }
    assert forall|leaf: LeafView| #[trigger]
        member(after, leaf, NodeView::Root(root)) == member(
            before,
            leaf,
            NodeView::Root(root),
        ) by {
        assert(descent(after, leaf.key, NodeView::Root(root)) == descent(
            before,
            leaf.key,
            NodeView::Root(root),
        ));
    }
}

/// Membership after insertion: where an insertion into a stored sound tree
/// has succeeded and displaced nothing, the new root shows the grown tree
/// in the new store, and under it the new leaf is found, and every leaf
/// that the tree held before.
pub proof fn law_inserted_is_member(
    tree: Tree,
    store: Map<Seq<u8>, NodeView>,
    root: RootView,
    leaf: LeafView,
    new_root: RootView,
)
    requires
        stands(tree, store, root),
        valid_leaf(leaf),
        insertion(store, leaf, NodeView::Root(root)).result == Ok::<RootView, TrieError>(new_root),
        settled(
            store,
            insertion(store, leaf, NodeView::Root(root)).writes,
            put_all(store, insertion(store, leaf, NodeView::Root(root)).writes),
        ),
    ensures
        new_root == tree.grow(leaf).root(),
        stands(
            tree.grow(leaf),
            put_all(store, insertion(store, leaf, NodeView::Root(root)).writes),
            new_root,
        ),
        member(
            put_all(store, insertion(store, leaf, NodeView::Root(root)).writes),
            leaf,
            NodeView::Root(new_root),
        ),
        forall|own: LeafView|
            tree.holds(own) ==> #[trigger] member(
                put_all(store, insertion(store, leaf, NodeView::Root(root)).writes),
                own,
                NodeView::Root(new_root),
            ),
{
    let ins = insertion(store, leaf, NodeView::Root(root));
    let after = put_all(store, ins.writes);
    if tree.has_key(leaf.key) {
        law_duplicate(tree, store, root, leaf);
    }
    law_insertion(tree, store, root, leaf);
    let grown = tree.grow(leaf);
    let side = side_of(leaf.key, 0);
    let written = tree.writes(leaf);
    law_immutability(tree, store, root, written, after);
    assert(placed(after, written[0]));
    match tree.below(side) {
        None => {},
        Some(t) => {
            lemma_find_holds(t, leaf.key);
            assert(tree.holds(t.find(leaf.key)));
            assert(placed(after, written[1]));
            assert forall|i: int| 0 <= i < t.regrown(leaf).len() implies placed(
                after,
                #[trigger] t.regrown(leaf)[i],
            ) by {
                assert(t.regrown(leaf)[i] == written[i + 2]);
            }
            lemma_kept_grow(t, leaf, after);
        },
    }
    law_membership(grown, after, new_root, leaf);
    assert forall|own: LeafView| tree.holds(own) implies #[trigger] member(
        after,
        own,
        NodeView::Root(new_root),
    ) by {
        assert(grown.holds(own));
        law_membership(grown, after, new_root, own);
    }
}

/// A tree that has grown by leaves put in one after the other.
pub open spec fn grown_by(tree: Tree, leaves: Seq<LeafView>) -> Tree
    decreases leaves.len(),
{
    if leaves.len() == 0 {
        tree
    } else {
        grown_by(tree, leaves.drop_last()).grow(leaves.last())
    }
}

/// The store and the root that a run of insertions comes to, each insertion
/// made under the root that the one before has returned. There is none
/// where an insertion fails, or displaces a node.
pub open spec fn run(store: Map<Seq<u8>, NodeView>, root: RootView, leaves: Seq<LeafView>)
    -> Option<(Map<Seq<u8>, NodeView>, RootView)>
    decreases leaves.len(),
{
    if leaves.len() == 0 {
        Some((store, root))
    } else {
        match run(store, root, leaves.drop_last()) {
            None => None,
            Some((before, old_root)) => {
                let ins = insertion(before, leaves.last(), NodeView::Root(old_root));
                let after = put_all(before, ins.writes);
                match ins.result {
                    Ok(new_root) => if settled(before, ins.writes, after) {
                        Some((after, new_root))
                    } else {
                        None
                    },
                    Err(_) => None,
                }
            },
        }
    }
}

/// Membership and immutability over a run: after a run of insertions of
/// valid leaves into a stored sound tree, the last root is the root of the
/// tree that has grown by these leaves. That tree holds every one of the
/// leaves, and every leaf that the tree held at the start, and each of
/// them is found under the last root. The root from which the run started
/// still shows in the last store the tree that it showed at the start.
pub proof fn law_run(
    tree: Tree,
    store: Map<Seq<u8>, NodeView>,
    root: RootView,
    leaves: Seq<LeafView>,
)
    requires
        stands(tree, store, root),
        forall|i: int| 0 <= i < leaves.len() ==> valid_leaf(#[trigger] leaves[i]),
        run(store, root, leaves) is Some,
    ensures
        stands(
            grown_by(tree, leaves),
            run(store, root, leaves)->Some_0.0,
            run(store, root, leaves)->Some_0.1,
        ),
        stands(tree, run(store, root, leaves)->Some_0.0, root),
        leaves.len() > 0 ==> run(store, root, leaves)->Some_0.1 == grown_by(tree, leaves).root(),
        forall|i: int| 0 <= i < leaves.len() ==> grown_by(tree, leaves).holds(#[trigger] leaves[i]),
        forall|own: LeafView| tree.holds(own) ==> #[trigger] grown_by(tree, leaves).holds(own),
        forall|own: LeafView|
            grown_by(tree, leaves).holds(own) ==> #[trigger] member(
                run(store, root, leaves)->Some_0.0,
                own,
                NodeView::Root(run(store, root, leaves)->Some_0.1),
            ),
    decreases leaves.len(),
{
    let end = run(store, root, leaves)->Some_0;
    if leaves.len() > 0 {
        let earlier = leaves.drop_last();
        let leaf = leaves.last();
        assert forall|i: int| 0 <= i < earlier.len() implies valid_leaf(
            #[trigger] earlier[i],
        ) by {
            assert(earlier[i] == leaves[i]);
        }
        law_run(tree, store, root, earlier);
        let (before, old_root) = run(store, root, earlier)->Some_0;
        let middle = grown_by(tree, earlier);
        let ins = insertion(before, leaf, NodeView::Root(old_root));
        assert(valid_leaf(leaves[leaves.len() - 1]));
        lemma_step(middle, before, old_root, leaf, end.1);
        law_immutability(tree, before, root, ins.writes, end.0);
        assert forall|i: int| 0 <= i < leaves.len() implies grown_by(tree, leaves).holds(
            #[trigger] leaves[i],
        ) by {
            if i < earlier.len() {
                assert(earlier[i] == leaves[i]);
            }
        }
    }
    let last = grown_by(tree, leaves);
    assert forall|own: LeafView| last.holds(own) implies #[trigger] member(
        end.0,
        own,
        NodeView::Root(end.1),
    ) by {
        law_membership(last, end.0, end.1, own);
    }
}

/// One step of a run: the new root shows the grown tree, which holds what
/// the tree held and the new leaf.
proof fn lemma_step(
    tree: Tree,
    store: Map<Seq<u8>, NodeView>,
    root: RootView,
    leaf: LeafView,
    new_root: RootView,
)
    requires
        stands(tree, store, root),
        valid_leaf(leaf),
        insertion(store, leaf, NodeView::Root(root)).result == Ok::<RootView, TrieError>(new_root),
        settled(
            store,
            insertion(store, leaf, NodeView::Root(root)).writes,
            put_all(store, insertion(store, leaf, NodeView::Root(root)).writes),
        ),
    ensures
        new_root == tree.grow(leaf).root(),
        stands(
            tree.grow(leaf),
            put_all(store, insertion(store, leaf, NodeView::Root(root)).writes),
            new_root,
        ),
        tree.grow(leaf).holds(leaf),
        forall|own: LeafView| tree.holds(own) ==> #[trigger] tree.grow(leaf).holds(own),
{
    law_inserted_is_member(tree, store, root, leaf, new_root);
    if tree.has_key(leaf.key) {
        law_duplicate(tree, store, root, leaf);
    }
    law_insertion(tree, store, root, leaf);
}

/// Whether a node names a digest as that of a child.
pub open spec fn refers_to(node: NodeView, digest: Seq<u8>) -> bool {
    match node {
        NodeView::Root(root) => root.left == Some(digest) || root.right == Some(digest),
        NodeView::Branch(branch) => branch.left == Some(digest) || branch.right == Some(digest),
        NodeView::Leaf(_) => false,
    }
}

/// Whether nodes stand in an order in which they can be written from the
/// bottom up: each child that a node names is in the store already, or
/// stands before the node.
pub open spec fn bottom_up(store: Map<Seq<u8>, NodeView>, nodes: Seq<NodeView>) -> bool {
    forall|i: int, digest: Seq<u8>|
        0 <= i < nodes.len() && refers_to(#[trigger] nodes[i], digest) ==> #[trigger] store.contains_key(
            digest,
        ) || exists|j: int| 0 <= j < i && nodes[j].hash() == Some(digest)
}

/// The nodes that grow above a new branch stand bottom up behind it.
proof fn lemma_regrown_order(
    t: Trie,
    leaf: LeafView,
    store: Map<Seq<u8>, NodeView>,
    before: Seq<NodeView>,
)
    requires
        t.sound(),
        t.kept(store),
        valid_leaf(leaf),
        t.find(leaf.key).key != leaf.key,
        before.len() > 0,
        before.last() == Trie::Leaf(t.find(leaf.key)).grow(leaf).node(),
        bottom_up(store, before),
    ensures
        bottom_up(store, before + t.regrown(leaf)),
        (before + t.regrown(leaf)).last() == t.grow(leaf).node(),
    decreases t,
{
    match t {
        Trie::Leaf(_) => {
            assert(before + t.regrown(leaf) =~= before);
        },
        Trie::Fork { at, left, right } => {
            let side = side_of(leaf.key, at as int);
            let child = if side == 0 {
                *left
            } else {
                *right
            };
            let other = if side == 0 {
                *right
            } else {
                *left
            };
            lemma_regrown_order(child, leaf, store, before);
            lemma_grow_sound(child, leaf);
            lemma_kept_top(other, store);
            let lower = before + child.regrown(leaf);
            let all = before + t.regrown(leaf);
            let top = t.grow(leaf).node();
            assert(all =~= lower.push(top));
            assert forall|i: int, digest: Seq<u8>|
                0 <= i < all.len() && refers_to(#[trigger] all[i], digest) implies #[trigger] store.contains_key(
                digest,
            ) || exists|j: int| 0 <= j < i && all[j].hash() == Some(digest) by {
                if i < lower.len() {
                    assert(all[i] == lower[i]);
                    if !store.contains_key(digest) {
                        let j = choose|j: int| 0 <= j < i && lower[j].hash() == Some(digest);
                        assert(all[j] == lower[j]);
                    }
                } else {
                    if digest != other.digest() {
                        assert(digest == child.grow(leaf).digest());
                        let j = lower.len() - 1;
                        assert(all[j] == lower.last());
                        assert(all[j].hash() == Some(digest));
                    }
                }
            }
        },
    }
}

/// Bottom-up order: the nodes that an insertion into a stored sound tree
/// writes stand in an order in which each child that a node names is in
/// the store already, or is written before the node. So whoever finds a
/// root in the store finds every node below it.
pub proof fn law_bottom_up(
    tree: Tree,
    store: Map<Seq<u8>, NodeView>,
    root: RootView,
    leaf: LeafView,
)
    requires
        stands(tree, store, root),
        valid_leaf(leaf),
        !tree.has_key(leaf.key),
        !member(store, leaf, NodeView::Root(root)),
    ensures
        bottom_up(store, insertion(store, leaf, NodeView::Root(root)).writes),
{
    law_insertion(tree, store, root, leaf);
    let side = side_of(leaf.key, 0);
    let writes = tree.writes(leaf);
    let top = NodeView::Root(tree.grow(leaf).root());
    let far = tree.below(if side == 0 {
        1u8
    } else {
        0u8
    });
    if far is Some {
        lemma_kept_top(far->Some_0, store);
    }
    match tree.below(side) {
        None => {
            assert forall|i: int, digest: Seq<u8>|
                0 <= i < writes.len() && refers_to(#[trigger] writes[i], digest) implies #[trigger] store.contains_key(
                digest,
            ) || exists|j: int| 0 <= j < i && writes[j].hash() == Some(digest) by {
                if !store.contains_key(digest) {
                    assert(writes[0].hash() == Some(digest));
                }
            }
        },
        Some(t) => {
            let found = t.find(leaf.key);
            lemma_find_holds(t, leaf.key);
            assert(tree.holds(found));
            lemma_sound_leaves(t, found);
            lemma_first_diff_exists(leaf.key, found.key);
            lemma_kept_leaf(t, store, found);
            let parting = Trie::Leaf(found).grow(leaf);
            let before = seq![NodeView::Leaf(leaf), parting.node()];
            assert(bottom_up(store, before)) by {
                reveal_with_fuel(Trie::digest, 2);
                assert forall|i: int, digest: Seq<u8>|
                    0 <= i < before.len() && refers_to(#[trigger] before[i], digest) implies #[trigger] store.contains_key(
                    digest,
                ) || exists|j: int| 0 <= j < i && before[j].hash() == Some(digest) by {
                    if !store.contains_key(digest) {
                        assert(before[0].hash() == Some(digest));
                    }
                }
            }
            lemma_regrown_order(t, leaf, store, before);
            let lower = before + t.regrown(leaf);
            assert(writes =~= lower.push(top));
            assert forall|i: int, digest: Seq<u8>|
                0 <= i < writes.len() && refers_to(#[trigger] writes[i], digest) implies #[trigger] store.contains_key(
                digest,
            ) || exists|j: int| 0 <= j < i && writes[j].hash() == Some(digest) by {
                if i < lower.len() {
                    assert(writes[i] == lower[i]);
                    if !store.contains_key(digest) {
                        let j = choose|j: int| 0 <= j < i && lower[j].hash() == Some(digest);
                        assert(writes[j] == lower[j]);
                    }
                } else {
                    if !store.contains_key(digest) {
                        let j = lower.len() - 1;
                        assert(writes[j] == lower.last());
                        lemma_grow_sound(t, leaf);
                        assert(writes[j].hash() == Some(digest));
                    }
                }
            }
        },
    }
}

} // verus!
