use crate::error::TrieError;
use crate::store::types::{clone_bytes, opt_seq};
use crate::store::types::{Key, LeafView, Node, NodeHash, NodeView};
use vstd::prelude::*;

verus! {

/// The number of bits in a key.
pub const KEY_BITS: usize = 256;

/// The number of child digests that a walk follows at most: one below the
/// root, and one below each branch of the longest chain that the keys allow.
pub const MAX_DEPTH: usize = 257;

/// The side that a key takes at a bit position: 0 is left, 1 is right.
pub open spec fn side_of(key: Seq<u8>, at: int) -> u8 {
    if key[at] == 0 {
        0
    } else {
        1
    }
}

/// The child of a node on one side.
pub open spec fn child_on(left: Option<Seq<u8>>, right: Option<Seq<u8>>, side: u8) -> Option<
    Seq<u8>,
> {
    if side == 0 {
        left
    } else {
        right
    }
}

/// What a node says of where a key goes next.
pub enum Turn {
    /// The node is a leaf: the walk is over.
    Arrive(LeafView),
    /// The node has a child on the key's side.
    Follow { side: u8, child: Seq<u8> },
    /// The node is a root with nothing on the key's side.
    Vacant { side: u8 },
    /// The node is a branch without split position (`InvalidBranch`) or
    /// without a child on the key's side (`InvalidChild`).
    Broken(TrieError),
}

/// Where a key goes at a node. A root splits on the first bit, a branch on
/// the bit at its split position.
pub open spec fn turn(node: NodeView, key: Seq<u8>) -> Turn {
    match node {
        NodeView::Leaf(leaf) => Turn::Arrive(leaf),
        NodeView::Root(root) => {
            let side = side_of(key, 0);
            match child_on(root.left, root.right, side) {
                Some(child) => Turn::Follow { side, child },
                None => Turn::Vacant { side },
            }
        },
        NodeView::Branch(branch) => if branch.key.len() == 0 {
            Turn::Broken(TrieError::InvalidBranch)
        } else {
            let side = side_of(key, branch.key[0] as int);
            match child_on(branch.left, branch.right, side) {
                Some(child) => Turn::Follow { side, child },
                None => Turn::Broken(TrieError::InvalidChild),
            }
        },
    }
}

/// One inner node that a walk passed: the slot that the node holds in its
/// parent, the node, and the side on which the walk left it.
pub struct Visit {
    pub slot: u8,
    pub node: NodeView,
    pub side: u8,
}

/// How a walk ends.
pub enum Landing {
    /// At a leaf.
    Leaf(LeafView),
    /// At the empty side of a root, which is the last visit.
    Vacant,
    /// At a broken branch, at a digest that the store does not hold, or
    /// below the depth that the keys allow.
    Broken(TrieError),
}

/// A walk: the inner nodes passed, top first, and the way it ended.
pub struct Walk {
    pub visits: Seq<Visit>,
    pub end: Landing,
}

/// The walk that follows `key` from `node` through the store. `slot` is the
/// slot that `node` holds in its parent, and `fuel` the number of digests
/// that may still be followed.
pub open spec fn walk(
    store: Map<Seq<u8>, NodeView>,
    key: Seq<u8>,
    node: NodeView,
    slot: u8,
    fuel: nat,
) -> Walk
    decreases fuel,
{
    match turn(node, key) {
        Turn::Arrive(leaf) => Walk { visits: Seq::empty(), end: Landing::Leaf(leaf) },
        Turn::Vacant { side } => Walk {
            visits: seq![Visit { slot, node, side }],
            end: Landing::Vacant,
        },
        Turn::Broken(e) => Walk { visits: Seq::empty(), end: Landing::Broken(e) },
        Turn::Follow { side, child } => if !store.contains_key(child) {
            Walk { visits: Seq::empty(), end: Landing::Broken(TrieError::MissingNode) }
        } else if fuel == 0 {
            Walk { visits: Seq::empty(), end: Landing::Broken(TrieError::InvalidBranch) }
        } else {
            let rest = walk(store, key, store[child], side, (fuel - 1) as nat);
            Walk { visits: seq![Visit { slot, node, side }] + rest.visits, end: rest.end }
        },
    }
}

/// A walk after the visits that led to its start.
pub open spec fn resume(seen: Seq<Visit>, rest: Walk) -> Walk {
    Walk { visits: seen + rest.visits, end: rest.end }
}

/// The walk from the top of a tree, with all the fuel there is.
pub open spec fn descent(store: Map<Seq<u8>, NodeView>, key: Seq<u8>, node: NodeView) -> Walk {
    walk(store, key, node, 0, MAX_DEPTH as nat)
}

/// One step of a walk, as the loops that walk take it.
pub enum Step {
    Arrive,
    Follow(u8, NodeHash),
    Vacant(u8),
    Broken(TrieError),
}

impl Step {
    /// Whether the step is what `turn` says.
    pub open spec fn matches_turn(self, t: Turn) -> bool {
        match self {
            Step::Arrive => t is Arrive,
            Step::Follow(side, child) => t == (Turn::Follow { side, child: child@ }),
            Step::Vacant(side) => t == (Turn::Vacant { side }),
            Step::Broken(e) => t == Turn::Broken(e),
        }
    }
}

fn pick(left: &Option<NodeHash>, right: &Option<NodeHash>, side: u8) -> (child: Option<NodeHash>)
    ensures
        opt_seq(child) == child_on(opt_seq(*left), opt_seq(*right), side),
{
    let chosen = if side == 0 {
        left
    } else {
        right
    };
    match chosen {
        Some(digest) => Some(clone_bytes(digest)),
        None => None,
    }
}

fn side_at(key: &Key, at: usize) -> (side: u8)
    requires
        at < key.len(),
    ensures
        side == side_of(key@, at as int),
{
    if key[at] == 0 {
        0
    } else {
        1
    }
}

/// Where `key` goes at `node`.
pub fn step(node: &Node, key: &Key) -> (s: Step)
    requires
        key@.len() == KEY_BITS,
    ensures
        s.matches_turn(turn(node@, key@)),
{
    match node {
        Node::Leaf(_) => Step::Arrive,
        Node::Root(root) => {
            let side = side_at(key, 0);
            match pick(&root.left, &root.right, side) {
                Some(child) => Step::Follow(side, child),
                None => Step::Vacant(side),
            }
        },
        Node::Branch(branch) => {
            if branch.key.len() == 0 {
                return Step::Broken(TrieError::InvalidBranch);
            }
            let at: usize = branch.key[0] as usize;
            let side = side_at(key, at);
            match pick(&branch.left, &branch.right, side) {
                Some(child) => Step::Follow(side, child),
                None => Step::Broken(TrieError::InvalidChild),
            }
        },
    }
}

/// Whether two byte strings are the same.
pub fn same_bytes(a: &Vec<u8>, b: &Vec<u8>) -> (same: bool)
    ensures
        same == (a@ == b@),
{
    if a.len() != b.len() {
        return false;
    }
    let mut i: usize = 0;
    while i < a.len()
        invariant
            a.len() == b.len(),
            i <= a.len(),
            forall|j: int| 0 <= j < i ==> a@[j] == b@[j],
        decreases a.len() - i,
    {
        if a[i] != b[i] {
            return false;
        }
        i += 1;
    }
    assert(a@ =~= b@);
    true
}

/// Whether two optional byte strings are the same.
pub fn same_opt_bytes(a: &Option<Vec<u8>>, b: &Option<Vec<u8>>) -> (same: bool)
    ensures
        same == (opt_seq(*a) == opt_seq(*b)),
{
    match (a, b) {
        (Some(x), Some(y)) => same_bytes(x, y),
        (None, None) => true,
        _ => false,
    }
}

} // verus!
