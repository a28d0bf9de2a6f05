use crate::{differ_at, first_diff};
use crate::model::growth::{grown_by, lemma_first_diff, lemma_grow_sound, lemma_root_lift};
use crate::model::trie::{lemma_every_holds, lemma_find_holds, lemma_sound_leaves, stands};
use crate::model::trie::{valid_leaf, Tree, Trie};
use crate::store::types::LeafView;
use crate::walk::side_of;
use vstd::prelude::*;

verus! {

impl Trie {
    /// Whether each branch splits at the first position at which the keys
    /// below it differ: the keys below a branch agree at every position
    /// before its split position.
    pub open spec fn compact(self) -> bool
        decreases self,
    {
        match self {
            Trie::Leaf(_) => true,
            Trie::Fork { at, left, right } => {
                &&& left.compact()
                &&& right.compact()
                &&& forall|p: int| 0 <= p < at ==> self.every(p, 0) || self.every(p, 1)
            },
        }
    }
}

impl Tree {
    /// Whether both sides are compact.
    pub open spec fn compact(self) -> bool {
        &&& self.left matches Some(t) ==> t.compact()
        &&& self.right matches Some(t) ==> t.compact()
    }
}

/// A sound compact tree is the only one with its leaves.
pub proof fn lemma_compact_unique(a: Trie, b: Trie)
    requires
        a.sound(),
        b.sound(),
        a.compact(),
        b.compact(),
        forall|leaf: LeafView| a.holds(leaf) <==> b.holds(leaf),
    ensures
        a == b,
    decreases a,
{
    let any = Seq::<u8>::empty();
    match (a, b) {
        (Trie::Leaf(x), Trie::Leaf(y)) => {
            assert(b.holds(y));
        },
        (Trie::Leaf(x), Trie::Fork { at, left, right }) => {
            lemma_parted(b);
        },
        (Trie::Fork { at, left, right }, Trie::Leaf(y)) => {
            lemma_parted(a);
        },
        (
            Trie::Fork { at: at_a, left: left_a, right: right_a },
            Trie::Fork { at: at_b, left: left_b, right: right_b },
        ) => {
            lemma_parted(a);
            lemma_parted(b);
            let zero_a = left_a.find(any);
            let one_a = right_a.find(any);
            let zero_b = left_b.find(any);
            let one_b = right_b.find(any);
            if at_a < at_b {
                let side: u8 = if b.every(at_a as int, 0) {
                    0
                } else {
                    1
                };
                assert(b.every(at_a as int, side));
                lemma_every_holds(b, at_a as int, side, zero_a);
                lemma_every_holds(b, at_a as int, side, one_a);
            }
            if at_b < at_a {
                let side: u8 = if a.every(at_b as int, 0) {
                    0
                } else {
                    1
                };
                assert(a.every(at_b as int, side));
                lemma_every_holds(a, at_b as int, side, zero_b);
                lemma_every_holds(a, at_b as int, side, one_b);
            }
            assert(at_a == at_b);
            let at = at_a as int;
            assert forall|leaf: LeafView| left_a.holds(leaf) <==> left_b.holds(leaf) by {
                if left_a.holds(leaf) {
                    lemma_every_holds(*left_a, at, 0, leaf);
                    assert(a.holds(leaf));
                    if right_b.holds(leaf) {
                        lemma_every_holds(*right_b, at, 1, leaf);
                    }
                }
                if left_b.holds(leaf) {
                    lemma_every_holds(*left_b, at, 0, leaf);
                    assert(b.holds(leaf));
                    if right_a.holds(leaf) {
                        lemma_every_holds(*right_a, at, 1, leaf);
                    }
                }
            }
            assert forall|leaf: LeafView| right_a.holds(leaf) <==> right_b.holds(leaf) by {
                if right_a.holds(leaf) {
                    lemma_every_holds(*right_a, at, 1, leaf);
                    assert(a.holds(leaf));
                    if left_b.holds(leaf) {
                        lemma_every_holds(*left_b, at, 0, leaf);
                    }
                }
                if right_b.holds(leaf) {
                    lemma_every_holds(*right_b, at, 1, leaf);
                    assert(b.holds(leaf));
                    if left_a.holds(leaf) {
                        lemma_every_holds(*left_a, at, 0, leaf);
                    }
                }
            }
            lemma_compact_unique(*left_a, *left_b);
            lemma_compact_unique(*right_a, *right_b);
        },
    }
}

/// A sound branch holds two leaves that take different sides at its split
/// position.
proof fn lemma_parted(t: Trie)
    requires
        t.sound(),
        t is Fork,
    ensures
        t.holds(t->left.find(Seq::empty())),
        t.holds(t->right.find(Seq::empty())),
        side_of(t->left.find(Seq::empty()).key, t->at as int) == 0,
        side_of(t->right.find(Seq::empty()).key, t->at as int) == 1,
        t->left.find(Seq::empty()) != t->right.find(Seq::empty()),
{
    let any = Seq::<u8>::empty();
    lemma_find_holds(*t->left, any);
    lemma_find_holds(*t->right, any);
    lemma_every_holds(*t->left, t->at as int, 0, t->left.find(any));
    lemma_every_holds(*t->right, t->at as int, 1, t->right.find(any));
}

/// The tree that grows from the empty tree by leaves put in one after the
/// other.
pub open spec fn planted(leaves: Seq<LeafView>) -> Tree {
    grown_by(Tree { left: None, right: None }, leaves)
}

/// Valid leaves of which no two have one key.
pub open spec fn distinct(leaves: Seq<LeafView>) -> bool {
    &&& forall|i: int| 0 <= i < leaves.len() ==> valid_leaf(#[trigger] leaves[i])
    &&& forall|i: int, j: int|
        0 <= i < j < leaves.len() ==> (#[trigger] leaves[i]).key != (#[trigger] leaves[j]).key
}

/// The tree planted from distinct leaves is sound and holds these leaves
/// and no others.
pub proof fn lemma_planted(leaves: Seq<LeafView>)
    requires
        distinct(leaves),
    ensures
        planted(leaves).sound(),
        forall|leaf: LeafView| #[trigger] planted(leaves).holds(leaf) <==> leaves.contains(leaf),
    decreases leaves.len(),
{
    if leaves.len() > 0 {
        let before = leaves.drop_last();
        let leaf = leaves.last();
        let tree = planted(before);
        assert(planted(leaves) == tree.grow(leaf));
        assert(distinct(before)) by {
            assert forall|i: int| 0 <= i < before.len() implies valid_leaf(
                #[trigger] before[i],
            ) by {
                assert(before[i] == leaves[i]);
            }
            assert forall|i: int, j: int| 0 <= i < j < before.len() implies (
            #[trigger] before[i]).key != (#[trigger] before[j]).key by {
                assert(before[i] == leaves[i]);
                assert(before[j] == leaves[j]);
            }
        }
        lemma_planted(before);
        match tree.below(side_of(leaf.key, 0)) {
            Some(t) => {
                let found = t.find(leaf.key);
                lemma_find_holds(t, leaf.key);
                assert(tree.holds(found));
                assert(before.contains(found));
                let i = choose|i: int| 0 <= i < before.len() && before[i] == found;
                assert(leaves[i] == found);
                assert(leaves[leaves.len() - 1] == leaf);
            },
            None => {},
        }
        assert(valid_leaf(leaves[leaves.len() - 1]));
        lemma_root_lift(tree, tree.root(), leaf);
        assert forall|own: LeafView| #[trigger]
            planted(leaves).holds(own) <==> leaves.contains(own) by {
            if leaves.contains(own) {
                let i = choose|i: int| 0 <= i < leaves.len() && leaves[i] == own;
                if i < before.len() {
                    assert(before[i] == own);
                    assert(before.contains(own));
                }
            }
            if tree.holds(own) {
                assert(before.contains(own));
                let i = choose|i: int| 0 <= i < before.len() && before[i] == own;
                assert(leaves[i] == own);
            }
        }
    }
}

/// Determinism: two orders of the same distinct leaves, each of which
/// plants a compact tree, plant the same tree, and so come to the same
/// root digest. The order counts only where a leaf comes to stand below a
/// branch that splits behind the first bit in which the leaf's key differs
/// from the keys below that branch: such a tree is not compact.
pub proof fn law_determinism(first: Seq<LeafView>, second: Seq<LeafView>)
    requires
        distinct(first),
        distinct(second),
        forall|leaf: LeafView| first.contains(leaf) <==> second.contains(leaf),
        planted(first).compact(),
        planted(second).compact(),
    ensures
        planted(first) == planted(second),
        planted(first).root().hash == planted(second).root().hash,
{
    let a = planted(first);
    let b = planted(second);
    lemma_planted(first);
    lemma_planted(second);
    assert forall|leaf: LeafView| a.holds(leaf) <==> b.holds(leaf) by {
        assert(a.holds(leaf) <==> first.contains(leaf));
        assert(b.holds(leaf) <==> second.contains(leaf));
    }
    lemma_same_side(a, b, 0);
    lemma_same_side(a, b, 1);
    lemma_same_side(b, a, 0);
    lemma_same_side(b, a, 1);
    if a.left is Some {
        lemma_compact_unique(a.left->Some_0, b.left->Some_0);
    }
    if a.right is Some {
        lemma_compact_unique(a.right->Some_0, b.right->Some_0);
    }
}

/// What stands on one side of a sound tree stands on that side of every
/// sound tree with the same leaves.
proof fn lemma_same_side(a: Tree, b: Tree, side: u8)
    requires
        a.sound(),
        b.sound(),
        side == 0 || side == 1,
        forall|leaf: LeafView| a.holds(leaf) <==> b.holds(leaf),
    ensures
        a.below(side) matches Some(t) ==> b.below(side) is Some && forall|leaf: LeafView|
            t.holds(leaf) ==> b.below(side)->Some_0.holds(leaf),
{
    if let Some(t) = a.below(side) {
        assert forall|leaf: LeafView| t.holds(leaf) implies b.below(side) is Some && b.below(
            side,
        )->Some_0.holds(leaf) by {
            lemma_every_holds(t, 0, side, leaf);
            assert(a.holds(leaf));
            assert(b.holds(leaf));
            let other: u8 = if side == 0 {
                1
            } else {
                0
            };
            if b.below(other) is Some && b.below(other)->Some_0.holds(leaf) {
                lemma_every_holds(b.below(other)->Some_0, 0, other, leaf);
            }
        }
        lemma_find_holds(t, Seq::empty());
    }
}

impl Trie {
    /// Whether every branch on the way of `key` splits before position
    /// `at`.
    pub open spec fn splits_before(self, key: Seq<u8>, at: int) -> bool
        decreases self,
    {
        match self {
            Trie::Leaf(_) => true,
            Trie::Fork { at: here, left, right } => here < at && if side_of(key, here as int)
                == 0 {
                left.splits_before(key, at)
            } else {
                right.splits_before(key, at)
            },
        }
    }
}

/// The leaves of a tree agree with what a key leads to at every position
/// at which they agree with each other.
proof fn lemma_every_find(t: Trie, p: int, key: Seq<u8>)
    requires
        t.every(p, 0) || t.every(p, 1),
    ensures
        t.every(p, side_of(t.find(key).key, p)),
    decreases t,
{
    lemma_find_holds(t, key);
    if t.every(p, 0) {
        lemma_every_holds(t, p, 0, t.find(key));
    } else {
        lemma_every_holds(t, p, 1, t.find(key));
    }
}

/// A compact tree stays compact where the new leaf parts from the leaf
/// found in its place behind every branch on its way.
pub proof fn law_compact_grows(t: Trie, leaf: LeafView)
    requires
        t.sound(),
        t.compact(),
        valid_leaf(leaf),
        first_diff(leaf.key, t.find(leaf.key).key) matches Some(at) && t.splits_before(
            leaf.key,
            at,
        ),
    ensures
        t.grow(leaf).compact(),
    decreases t,
{
    let found = t.find(leaf.key);
    let at = first_diff(leaf.key, found.key)->Some_0;
    lemma_first_diff(leaf.key, found.key);
    lemma_find_holds(t, leaf.key);
    lemma_sound_leaves(t, found);
    let grown = t.grow(leaf);
    match t {
        Trie::Leaf(_) => {
            reveal_with_fuel(Trie::compact, 2);
            reveal_with_fuel(Trie::every, 2);
            assert forall|p: int| 0 <= p < at implies grown.every(p, 0) || grown.every(p, 1) by {
                assert(!differ_at(leaf.key, found.key, p));
            }
        },
        Trie::Fork { at: here, left, right } => {
            let child = if side_of(leaf.key, here as int) == 0 {
                *left
            } else {
                *right
            };
            law_compact_grows(child, leaf);
            lemma_grow_sound(t, leaf);
            assert forall|p: int| 0 <= p < here implies grown.every(p, 0) || grown.every(
                p,
                1,
            ) by {
                lemma_every_find(t, p, leaf.key);
                assert(!differ_at(leaf.key, found.key, p));
                assert(side_of(leaf.key, p) == side_of(found.key, p));
            }
        },
    }
}

} // verus!
