use crate::branches;
use crate::codec::{branch_digest, leaf_digest, leaf_encodable, root_digest};
use crate::store::types::{BranchView, LeafView, NodeView, RootView};
use crate::walk::{side_of, walk, Visit};
use vstd::prelude::*;
use vstd::set_lib::*;

verus! {

/// A leaf that a tree can hold: a key of 256 bits, a payload that the format
/// can hold, and the hash of its own content.
pub open spec fn valid_leaf(leaf: LeafView) -> bool {
    &&& leaf.key.len() == 256
    &&& forall|i: int| 0 <= i < 256 ==> #[trigger] leaf.key[i] <= 1
    &&& leaf_encodable(leaf)
    &&& leaf.hash == Some(leaf_digest(leaf))
}

/// A branch at a split position over two child digests, not hashed yet.
pub open spec fn bare(at: u8, left: Seq<u8>, right: Seq<u8>) -> BranchView {
    BranchView { key: seq![at], hash: None, left: Some(left), right: Some(right) }
}

/// The tree below one side of a root, as a mathematical value: a leaf, or
/// a branch over two trees. The nodes of a stored tree refer to each other
/// by digest; here the children are the trees themselves.
pub enum Trie {
    Leaf(LeafView),
    Fork { at: u8, left: Box<Trie>, right: Box<Trie> },
}

impl Trie {
    /// The digest of the tree's top node.
    pub open spec fn digest(self) -> Seq<u8>
        decreases self,
    {
        match self {
            Trie::Leaf(leaf) => leaf_digest(leaf),
            Trie::Fork { at, left, right } => branch_digest(
                bare(at, left.digest(), right.digest()),
            ),
        }
    }

    /// The tree's top node as it is stored.
    pub open spec fn node(self) -> NodeView {
        match self {
            Trie::Leaf(leaf) => NodeView::Leaf(leaf),
            Trie::Fork { at, left, right } => NodeView::Branch(
                BranchView {
                    hash: Some(self.digest()),
                    ..bare(at, left.digest(), right.digest())
                },
            ),
        }
    }

    /// Whether `leaf` is one of the tree's leaves.
    pub open spec fn holds(self, leaf: LeafView) -> bool
        decreases self,
    {
        match self {
            Trie::Leaf(own) => own == leaf,
            Trie::Fork { at, left, right } => left.holds(leaf) || right.holds(leaf),
        }
    }

    /// Whether the keys of all leaves take `side` at position `at`.
    pub open spec fn every(self, at: int, side: u8) -> bool
        decreases self,
    {
        match self {
            Trie::Leaf(leaf) => side_of(leaf.key, at) == side,
            Trie::Fork { at: _, left, right } => left.every(at, side) && right.every(at, side),
        }
    }

    /// Whether the tree is one that walks can rely on: its leaves are valid,
    /// and below each branch the leaves on the left have a 0 at the split
    /// position and those on the right a 1.
    pub open spec fn sound(self) -> bool
        decreases self,
    {
        match self {
            Trie::Leaf(leaf) => valid_leaf(leaf),
            Trie::Fork { at, left, right } => {
                &&& left.sound()
                &&& right.sound()
                &&& left.every(at as int, 0)
                &&& right.every(at as int, 1)
            },
        }
    }

    /// Whether the store holds every node of the tree under its digest.
    pub open spec fn kept(self, store: Map<Seq<u8>, NodeView>) -> bool
        decreases self,
    {
        &&& store.contains_key(self.digest())
        &&& store[self.digest()] == self.node()
        &&& match self {
            Trie::Leaf(_) => true,
            Trie::Fork { at, left, right } => left.kept(store) && right.kept(store),
        }
    }

    /// The leaf that the bits of `key` lead to.
    pub open spec fn find(self, key: Seq<u8>) -> LeafView
        decreases self,
    {
        match self {
            Trie::Leaf(leaf) => leaf,
            Trie::Fork { at, left, right } => if side_of(key, at as int) == 0 {
                left.find(key)
            } else {
                right.find(key)
            },
        }
    }

    /// The number of branches on the longest way down.
    pub open spec fn depth(self) -> nat
        decreases self,
    {
        match self {
            Trie::Leaf(_) => 0,
            Trie::Fork { at, left, right } => if left.depth() >= right.depth() {
                left.depth() + 1
            } else {
                right.depth() + 1
            },
        }
    }

    /// The branches that the bits of `key` lead through, top first, as a
    /// walk visits them; `slot` is the slot that the tree holds in its
    /// parent.
    pub open spec fn trace(self, key: Seq<u8>, slot: u8) -> Seq<Visit>
        decreases self,
    {
        match self {
            Trie::Leaf(_) => Seq::empty(),
            Trie::Fork { at, left, right } => {
                let side = side_of(key, at as int);
                let below = if side == 0 {
                    left.trace(key, side)
                } else {
                    right.trace(key, side)
                };
                seq![Visit { slot, node: self.node(), side }] + below
            },
        }
    }
}

/// A leaf of a tree takes the side that all leaves of the tree take.
pub proof fn lemma_every_holds(t: Trie, at: int, side: u8, leaf: LeafView)
    requires
        t.every(at, side),
        t.holds(leaf),
    ensures
        side_of(leaf.key, at) == side,
    decreases t,
{
    match t {
        Trie::Leaf(_) => {},
        Trie::Fork { at: _, left, right } => {
            if left.holds(leaf) {
                lemma_every_holds(*left, at, side, leaf);
            } else {
                lemma_every_holds(*right, at, side, leaf);
            }
        },
    }
}

/// What the bits of a key lead to is a leaf of the tree.
pub proof fn lemma_find_holds(t: Trie, key: Seq<u8>)
    ensures
        t.holds(t.find(key)),
    decreases t,
{
    match t {
        Trie::Leaf(_) => {},
        Trie::Fork { at, left, right } => {
            lemma_find_holds(*left, key);
            lemma_find_holds(*right, key);
        },
    }
}

/// In a sound tree the key of a leaf leads to that leaf.
pub proof fn lemma_find_own(t: Trie, leaf: LeafView)
    requires
        t.sound(),
        t.holds(leaf),
    ensures
        t.find(leaf.key) == leaf,
    decreases t,
{
    match t {
        Trie::Leaf(_) => {},
        Trie::Fork { at, left, right } => {
            if left.holds(leaf) {
                lemma_every_holds(*left, at as int, 0, leaf);
                lemma_find_own(*left, leaf);
            } else {
                lemma_every_holds(*right, at as int, 1, leaf);
                lemma_find_own(*right, leaf);
            }
        },
    }
}

/// The leaves of a sound tree are valid.
pub proof fn lemma_sound_leaves(t: Trie, leaf: LeafView)
    requires
        t.sound(),
        t.holds(leaf),
    ensures
        valid_leaf(leaf),
    decreases t,
{
    match t {
        Trie::Leaf(_) => {},
        Trie::Fork { at, left, right } => {
            if left.holds(leaf) {
                lemma_sound_leaves(*left, leaf);
            } else {
                lemma_sound_leaves(*right, leaf);
            }
        },
    }
}

/// All leaves of a tree cannot take both sides at one position.
proof fn lemma_every_one_side(t: Trie, at: int, a: u8, b: u8)
    requires
        t.every(at, a),
        t.every(at, b),
    ensures
        a == b,
    decreases t,
{
    match t {
        Trie::Leaf(_) => {},
        Trie::Fork { at: _, left, right } => {
            lemma_every_one_side(*left, at, a, b);
        },
    }
}

/// Whether the leaves of a tree agree at each position of a set.
pub open spec fn agrees_on(t: Trie, decided: Set<int>) -> bool {
    forall|at: int| #[trigger]
        decided.contains(at) ==> 0 <= at < 256 && (t.every(at, 0) || t.every(at, 1))
}

/// A sound tree is no deeper than the positions at which its leaves do not
/// agree already: each branch on a way down splits at a position of its
/// own.
pub proof fn lemma_depth(t: Trie, decided: Set<int>)
    requires
        t.sound(),
        decided.finite(),
        agrees_on(t, decided),
    ensures
        t.depth() + decided.len() <= 256,
    decreases t,
{
    let all = set_int_range(0, 256);
    lemma_int_range(0, 256);
    assert(decided.subset_of(all));
    lemma_len_subset(decided, all);
    match t {
        Trie::Leaf(_) => {},
        Trie::Fork { at, left, right } => {
            let at = at as int;
            if decided.contains(at) {
                if t.every(at, 0) {
                    lemma_every_one_side(*right, at, 0, 1);
                } else {
                    lemma_every_one_side(*left, at, 0, 1);
                }
            }
            let more = decided.insert(at);
            assert(agrees_on(*left, more));
            assert(agrees_on(*right, more));
            lemma_depth(*left, more);
            lemma_depth(*right, more);
        },
    }
}

/// The store holds the top node of a stored tree under the tree's digest.
pub proof fn lemma_kept_top(t: Trie, store: Map<Seq<u8>, NodeView>)
    requires
        t.kept(store),
    ensures
        store.contains_key(t.digest()),
        store[t.digest()] == t.node(),
{
}

/// One version of the whole tree, as a mathematical value: what stands
/// below the left and below the right side of its root.
pub struct Tree {
    pub left: Option<Trie>,
    pub right: Option<Trie>,
}

/// The digest of what stands below one side of a root.
pub open spec fn digest_below(side: Option<Trie>) -> Option<Seq<u8>> {
    match side {
        Some(t) => Some(t.digest()),
        None => None,
    }
}

impl Tree {
    /// What stands below one side.
    pub open spec fn below(self, side: u8) -> Option<Trie> {
        if side == 0 {
            self.left
        } else {
            self.right
        }
    }

    /// Whether `leaf` is one of the tree's leaves.
    pub open spec fn holds(self, leaf: LeafView) -> bool {
        ||| self.left matches Some(t) && t.holds(leaf)
        ||| self.right matches Some(t) && t.holds(leaf)
    }

    /// Whether both sides are sound, with the keys that start with 0 on the
    /// left and those that start with 1 on the right.
    pub open spec fn sound(self) -> bool {
        &&& self.left matches Some(t) ==> t.sound() && t.every(0, 0)
        &&& self.right matches Some(t) ==> t.sound() && t.every(0, 1)
    }

    /// Whether the store holds every node below the root under its digest.
    pub open spec fn kept(self, store: Map<Seq<u8>, NodeView>) -> bool {
        &&& self.left matches Some(t) ==> t.kept(store)
        &&& self.right matches Some(t) ==> t.kept(store)
    }

    /// Whether `root` is a root of this tree: its children are the digests
    /// of the two sides.
    pub open spec fn shown_by(self, root: RootView) -> bool {
        root.left == digest_below(self.left) && root.right == digest_below(self.right)
    }

    /// The root of this tree, with its hash.
    pub open spec fn root(self) -> RootView {
        let bare = RootView {
            hash: None,
            left: digest_below(self.left),
            right: digest_below(self.right),
        };
        RootView { hash: Some(root_digest(bare)), ..bare }
    }
}

/// A stored sound tree, seen from a root of it.
pub open spec fn stands(tree: Tree, store: Map<Seq<u8>, NodeView>, root: RootView) -> bool {
    tree.sound() && tree.kept(store) && tree.shown_by(root)
}

/// The digest of a tree has the length of a digest.
pub proof fn lemma_digest_len(t: Trie)
    ensures
        t.digest().len() == 32,
        t.node().hash() == Some(t.digest()) <==> (t matches Trie::Leaf(leaf) ==> leaf.hash == Some(
            leaf_digest(leaf),
        )),
{
}

/// A tree that a store holds is held by every store that holds as much.
pub proof fn lemma_kept_on(
    t: Trie,
    before: Map<Seq<u8>, NodeView>,
    after: Map<Seq<u8>, NodeView>,
)
    requires
        t.kept(before),
        forall|d: Seq<u8>| #[trigger]
            before.contains_key(d) ==> after.contains_key(d) && after[d] == before[d],
    ensures
        t.kept(after),
    decreases t,
{
    match t {
        Trie::Leaf(_) => {},
        Trie::Fork { at, left, right } => {
            lemma_kept_on(*left, before, after);
            lemma_kept_on(*right, before, after);
        },
    }
}

/// Key uniqueness: a sound tree holds one leaf at most with a given key.
pub proof fn law_key_uniqueness(tree: Tree, a: LeafView, b: LeafView)
    requires
        tree.sound(),
        tree.holds(a),
        tree.holds(b),
        a.key == b.key,
    ensures
        a == b,
{
    let side = side_of(a.key, 0);
    if tree.left is Some && tree.left->Some_0.holds(a) {
        lemma_every_holds(tree.left->Some_0, 0, 0, a);
    } else {
        lemma_every_holds(tree.right->Some_0, 0, 1, a);
    }
    if tree.left is Some && tree.left->Some_0.holds(b) {
        lemma_every_holds(tree.left->Some_0, 0, 0, b);
    } else {
        lemma_every_holds(tree.right->Some_0, 0, 1, b);
    }
    let t = tree.below(side)->Some_0;
    lemma_find_own(t, a);
    lemma_find_own(t, b);
}

/// The store holds each leaf of a stored tree under the leaf's digest.
pub(crate) proof fn lemma_kept_leaf(t: Trie, store: Map<Seq<u8>, NodeView>, leaf: LeafView)
    requires
        t.kept(store),
        t.holds(leaf),
    ensures
        store.contains_key(leaf_digest(leaf)),
    decreases t,
{
    match t {
        Trie::Leaf(_) => {},
        Trie::Fork { at, left, right } => {
            if left.holds(leaf) {
                lemma_kept_leaf(*left, store, leaf);
            } else {
                lemma_kept_leaf(*right, store, leaf);
            }
        },
    }
}

} // verus!
