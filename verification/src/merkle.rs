use crate::codec::{law_canonical, leaf_digest, leaf_encodable, node_digest, node_error};
use crate::codec::{node_preimage, plain};
use crate::error::TrieError;
use crate::store::db::Database;
use crate::store::types::{digest_of, Hashable, Key, Node, NodeHash, NodeView, RootHash};
use crate::walk::{descent, resume, same_bytes, step, walk};
use crate::walk::{Landing, Step, Visit, KEY_BITS, MAX_DEPTH};
use crate::{reseat, reseat_node};
use vstd::prelude::*;

verus! {

/// The nodes on the way from a root to a leaf, root first. Each entry says
/// on which side the way leaves the node: `false` is left, `true` is right.
/// The entry of the leaf says `false`.
#[derive(Debug)]
pub struct MerkleProof {
    pub nodes: Vec<(bool, Node)>,
}

impl Clone for MerkleProof {
    fn clone(&self) -> (r: Self)
        ensures
            proof_view(r.nodes@) == proof_view(self.nodes@),
    {
        let mut nodes: Vec<(bool, Node)> = Vec::new();
        let mut i: usize = 0;
        while i < self.nodes.len()
            invariant
                i <= self.nodes.len(),
                proof_view(nodes@) == proof_view(self.nodes@.take(i as int)),
            decreases self.nodes.len() - i,
        {
            let ghost had = proof_view(nodes@);
            assert(had.len() == i);
            nodes.push((self.nodes[i].0, self.nodes[i].1.clone()));
            assert(proof_view(nodes@) =~= proof_view(self.nodes@.take(i + 1))) by {
                assert forall|j: int| 0 <= j < i implies proof_view(nodes@)[j] == proof_view(
                    self.nodes@.take(i + 1),
                )[j] by {
                    assert(had[j] == proof_view(self.nodes@.take(i as int))[j]);
                }
            }
            i += 1;
        }
        assert(self.nodes@.take(i as int) =~= self.nodes@);
        MerkleProof { nodes }
    }
}

/// The entries of a proof as mathematical values.
pub open spec fn proof_view(nodes: Seq<(bool, Node)>) -> Seq<(bool, NodeView)> {
    Seq::new(nodes.len(), |i: int| (nodes[i].0, nodes[i].1@))
}

/// The visits of a walk as entries of a proof.
pub open spec fn steps(visits: Seq<Visit>) -> Seq<(bool, NodeView)> {
    Seq::new(visits.len(), |i: int| (visits[i].side != 0, visits[i].node))
}

/// The proof for `key` under `node`: the inner nodes that the walk along
/// the key passes, and the leaf that it ends at. There is none where the
/// walk ends anywhere else.
pub open spec fn proof_of(store: Map<Seq<u8>, NodeView>, key: Seq<u8>, node: NodeView) -> Result<
    Seq<(bool, NodeView)>,
    TrieError,
> {
    let w = descent(store, key, node);
    match w.end {
        Landing::Leaf(leaf) => Ok(steps(w.visits).push((false, NodeView::Leaf(leaf)))),
        Landing::Vacant => Err(TrieError::InvalidChild),
        Landing::Broken(e) => Err(e),
    }
}

/// Collects the proof for `key` in the tree under `trie_root`: every node
/// on the way down, with the side taken, and the leaf at the end. The store
/// is left as it was.
pub fn merkle_proof<D: Database + ?Sized>(db: &mut D, key: Key, trie_root: Node) -> (r: Result<
    MerkleProof,
    TrieError,
>)
    requires
        key@.len() == KEY_BITS,
    ensures
        final(db).contents() == old(db).contents(),
        match r {
            Ok(proof) => proof_of(old(db).contents(), key@, trie_root@) == Ok::<
                Seq<(bool, NodeView)>,
                TrieError,
            >(proof_view(proof.nodes@)),
            Err(e) => proof_of(old(db).contents(), key@, trie_root@) == Err::<
                Seq<(bool, NodeView)>,
                TrieError,
            >(e),
        },
{
    let ghost store = db.contents();
    let ghost mut seen: Seq<Visit> = Seq::empty();
    let mut proof: MerkleProof = MerkleProof { nodes: Vec::new() };
    let mut current_node = trie_root;
    let mut slot: u8 = 0;
    let mut fuel: usize = MAX_DEPTH;
    assert(proof_view(proof.nodes@) =~= steps(seen));
    loop
        invariant
            db.contents() == store,
            store == old(db).contents(),
            key@.len() == KEY_BITS,
            fuel <= MAX_DEPTH,
            proof_view(proof.nodes@) == steps(seen),
            descent(store, key@, trie_root@) == resume(
                seen,
                walk(store, key@, current_node@, slot, fuel as nat),
            ),
        decreases fuel,
    {
        match step(&current_node, &key) {
            Step::Broken(e) => {
                return Err(e);
            },
            Step::Vacant(_) => {
                return Err(TrieError::InvalidChild);
            },
            Step::Arrive => {
                assert(seen + Seq::<Visit>::empty() =~= seen);
                let ghost had = proof.nodes@;
                proof.nodes.push((false, current_node));
                assert(proof_view(proof.nodes@) =~= steps(seen).push((false, current_node@))) by {
                    assert forall|i: int| 0 <= i < had.len() implies proof_view(
                        proof.nodes@,
                    )[i] == steps(seen)[i] by {
                        assert(proof_view(had)[i] == steps(seen)[i]);
                    }
                }
                return Ok(proof);
            },
            Step::Follow(side, child) => {
                let node = match db.get(child.as_slice()) {
                    Some(node) => node,
                    None => {
                        return Err(TrieError::MissingNode);
                    },
                };
                if fuel == 0 {
                    return Err(TrieError::InvalidBranch);
                }
                let ghost here = Visit { slot, node: current_node@, side };
                proof {
                    let rest = walk(store, key@, node@, side, (fuel - 1) as nat);
                    assert(seen + (seq![here] + rest.visits) =~= seen.push(here) + rest.visits);
                }
                let ghost had = proof.nodes@;
                assert(proof_view(had).len() == steps(seen).len());
                proof.nodes.push((side != 0, current_node));
                assert(proof_view(proof.nodes@) =~= steps(seen.push(here))) by {
                    assert forall|i: int| 0 <= i < had.len() implies proof_view(
                        proof.nodes@,
                    )[i] == steps(seen.push(here))[i] by {
                        assert(proof_view(had)[i] == steps(seen)[i]);
                    }
                }
                proof {
                    seen = seen.push(here);
                }
                current_node = node;
                slot = side;
                fuel = fuel - 1;
            },
        }
    }
}

/// The slot on a side.
pub open spec fn slot_of(right: bool) -> u8 {
    if right {
        1
    } else {
        0
    }
}

/// The digest that the entries above a node fold to, `rest` being those
/// entries from the parent of the node up. Each parent takes the digest
/// from below in the slot that its entry names and is hashed. The last
/// entry, and no other, is a root.
pub open spec fn ascend(rest: Seq<(bool, NodeView)>, digest: Seq<u8>) -> Result<Seq<u8>, TrieError>
    decreases rest.len(),
{
    if rest.len() == 0 {
        Err(TrieError::InvalidParent)
    } else {
        match rest[0].1 {
            NodeView::Leaf(_) => Err(TrieError::InvalidParent),
            NodeView::Root(_) => if rest.len() > 1 {
                Err(TrieError::InvalidChild)
            } else {
                match reseat(rest[0].1, slot_of(rest[0].0), digest) {
                    Ok(node) => Ok(node.hash().unwrap()),
                    Err(e) => Err(e),
                }
            },
            NodeView::Branch(_) => match reseat(rest[0].1, slot_of(rest[0].0), digest) {
                Ok(node) => ascend(rest.drop_first(), node.hash().unwrap()),
                Err(e) => Err(e),
            },
        }
    }
}

/// The root digest that a proof stands for, the proof taken leaf first: the
/// digest of the leaf, folded through the entries above it.
pub open spec fn fold_proof(proof: Seq<(bool, NodeView)>) -> Result<Seq<u8>, TrieError> {
    if proof.len() == 0 {
        Err(TrieError::InvalidChild)
    } else {
        match proof[0].1 {
            NodeView::Leaf(leaf) => if leaf_encodable(leaf) {
                ascend(proof.drop_first(), leaf_digest(leaf))
            } else {
                Err(TrieError::CodecError)
            },
            _ => Err(TrieError::InvalidChild),
        }
    }
}

/// A proof as it is folded: leaf first. A proof that begins with its root
/// is turned round.
pub open spec fn upward(proof: Seq<(bool, NodeView)>) -> Seq<(bool, NodeView)> {
    if proof.len() > 0 && proof[0].1 is Root {
        proof.reverse()
    } else {
        proof
    }
}

fn turned(proof: Vec<(bool, Node)>) -> (r: Vec<(bool, Node)>)
    ensures
        proof_view(r@) == proof_view(proof@).reverse(),
{
    let ghost goal = proof_view(proof@).reverse();
    let mut rest = proof;
    let mut out: Vec<(bool, Node)> = Vec::new();
    assert(proof_view(out@) + proof_view(rest@).reverse() =~= goal);
    loop
        invariant
            proof_view(out@) + proof_view(rest@).reverse() == goal,
        ensures
            proof_view(out@) == goal,
        decreases rest.len(),
    {
        let ghost before = proof_view(rest@);
        let ghost done = proof_view(out@);
        match rest.pop() {
            Some(entry) => {
                out.push(entry);
                assert(proof_view(out@) + proof_view(rest@).reverse() =~= done
                    + before.reverse()) by {
                    assert(proof_view(rest@) =~= before.drop_last());
                    assert(proof_view(out@) =~= done.push(before.last()));
                }
            },
            None => {
                assert(done + before.reverse() =~= done);
                break ;
            },
        }
    }
    out
}

/// Folds a proof, taken leaf first, to the root digest that it stands for:
/// the hash of the leaf is computed from the leaf's content; each node
/// above takes the digest from below in the slot that its entry names, and
/// is hashed in turn.
pub fn fold_merkle_proof(inner_proof: &Vec<(bool, Node)>) -> (r: Result<RootHash, TrieError>)
    ensures
        match r {
            Ok(digest) => fold_proof(proof_view(inner_proof@)) == Ok::<Seq<u8>, TrieError>(
                digest@,
            ),
            Err(e) => fold_proof(proof_view(inner_proof@)) == Err::<Seq<u8>, TrieError>(e),
        },
{
    let ghost entries = proof_view(inner_proof@);
    if inner_proof.len() == 0 {
        return Err(TrieError::InvalidChild);
    }
    let mut leaf = match inner_proof[0].1.clone().unwrap_as_leaf() {
        Ok(leaf) => leaf,
        Err(e) => {
            return Err(e);
        },
    };
    match leaf.hash() {
        Ok(()) => {},
        Err(e) => {
            return Err(e);
        },
    }
    let mut current_hash: NodeHash = match leaf.hash {
        Some(digest) => digest,
        None => {
            return Err(TrieError::HashMissing);
        },
    };
    let mut idx: usize = 1;
    assert(entries.skip(1) =~= entries.drop_first());
    while idx < inner_proof.len()
        invariant
            1 <= idx <= inner_proof.len(),
            entries == proof_view(inner_proof@),
            fold_proof(entries) == ascend(entries.skip(idx as int), current_hash@),
        decreases inner_proof.len() - idx,
    {
        let ghost rest = entries.skip(idx as int);
        assert(rest[0] == entries[idx as int]);
        assert(rest.drop_first() =~= entries.skip(idx + 1));
        let node = inner_proof[idx].1.clone();
        let is_root = if let Node::Root(_) = node {
            true
        } else {
            false
        };
        if is_root && idx + 1 < inner_proof.len() {
            return Err(TrieError::InvalidChild);
        }
        let slot: u8 = if inner_proof[idx].0 {
            1
        } else {
            0
        };
        let parent = match reseat_node(node, slot, current_hash) {
            Ok(parent) => parent,
            Err(e) => {
                return Err(e);
            },
        };
        current_hash = match parent.carried_hash() {
            Some(digest) => digest,
            None => {
                return Err(TrieError::HashMissing);
            },
        };
        if is_root {
            return Ok(current_hash);
        }
        idx += 1;
    }
    Err(TrieError::InvalidParent)
}

/// Checks a proof against a root digest. The proof is taken as it is
/// collected, root first, or turned round already, leaf first; it is folded
/// from the leaf upward. The proof holds where the digest of the root comes
/// out as `state_root_hash`. No store is needed.
pub fn verify_merkle_proof(inner_proof: Vec<(bool, Node)>, state_root_hash: RootHash) -> (r:
    Result<(), TrieError>)
    ensures
        match r {
            Ok(()) => fold_proof(upward(proof_view(inner_proof@))) == Ok::<Seq<u8>, TrieError>(
                state_root_hash@,
            ),
            Err(e) => match fold_proof(upward(proof_view(inner_proof@))) {
                Ok(digest) => digest != state_root_hash@ && e == TrieError::RootMismatch,
                Err(cause) => e == cause,
            },
        },
{
    let root_first = if inner_proof.len() > 0 {
        if let Node::Root(_) = inner_proof[0].1 {
            true
        } else {
            false
        }
    } else {
        false
    };
    let leaf_first = if root_first {
        turned(inner_proof)
    } else {
        inner_proof
    };
    match fold_merkle_proof(&leaf_first) {
        Ok(digest) => if same_bytes(&digest, &state_root_hash) {
            Ok(())
        } else {
            Err(TrieError::RootMismatch)
        },
        Err(e) => Err(e),
    }
}

/// Whether two byte strings are a collision of the hash function: they are
/// not the same and have one digest.
pub open spec fn collide(x: Seq<u8>, y: Seq<u8>) -> bool {
    x != y && digest_of(x) == digest_of(y)
}

/// The nodes above a node as a fold hashes them: each with the digest from
/// below in the slot that its entry names, and without what is no part of a
/// serialization.
pub open spec fn sealed_above(rest: Seq<(bool, NodeView)>, digest: Seq<u8>) -> Seq<NodeView>
    decreases rest.len(),
{
    if rest.len() == 0 {
        Seq::empty()
    } else {
        match reseat(rest[0].1, slot_of(rest[0].0), digest) {
            Ok(node) => seq![plain(node)] + sealed_above(rest.drop_first(), node.hash().unwrap()),
            Err(_) => Seq::empty(),
        }
    }
}

/// What a proof, taken leaf first, commits to: the nodes as the fold hashes
/// them, the leaf first.
pub open spec fn sealed(proof: Seq<(bool, NodeView)>) -> Seq<NodeView> {
    if proof.len() == 0 {
        Seq::empty()
    } else {
        seq![plain(proof[0].1)] + sealed_above(proof.drop_first(), node_digest(proof[0].1))
    }
}

proof fn lemma_reseat(parent: NodeView, slot: u8, digest: Seq<u8>)
    ensures
        reseat(parent, slot, digest) matches Ok(node) ==> {
            &&& node_error(node) is None
            &&& node.hash() == Some(node_digest(node))
            &&& node is Root <==> parent is Root
            &&& node is Branch <==> parent is Branch
            &&& match node {
                NodeView::Root(root) => (if slot == 0 {
                    root.left
                } else {
                    root.right
                }) == Some(digest),
                NodeView::Branch(branch) => (if slot == 0 {
                    branch.left
                } else {
                    branch.right
                }) == Some(digest),
                NodeView::Leaf(_) => false,
            }
        },
{
}

proof fn lemma_ascend_none(rest: Seq<(bool, NodeView)>, digest: Seq<u8>)
    ensures
        rest.len() == 0 ==> ascend(rest, digest) is Err,
{
}

proof fn lemma_binding_above(
    a: Seq<(bool, NodeView)>,
    b: Seq<(bool, NodeView)>,
    below_a: Seq<u8>,
    below_b: Seq<u8>,
)
    requires
        a.len() == b.len(),
        forall|i: int| 0 <= i < a.len() ==> a[i].0 == b[i].0,
        ascend(a, below_a) is Ok,
        ascend(a, below_a) == ascend(b, below_b),
    ensures
        (exists|x: Seq<u8>, y: Seq<u8>| collide(x, y)) || (below_a == below_b && sealed_above(
            a,
            below_a,
        ) == sealed_above(b, below_b)),
    decreases a.len(),
{
    let slot = slot_of(a[0].0);
    assert(a[0].0 == b[0].0);
    let node_a = reseat(a[0].1, slot, below_a)->Ok_0;
    let node_b = reseat(b[0].1, slot, below_b)->Ok_0;
    lemma_reseat(a[0].1, slot, below_a);
    lemma_reseat(b[0].1, slot, below_b);
    assert(reseat(a[0].1, slot, below_a) is Ok);
    assert(reseat(b[0].1, slot, below_b) is Ok);
    if a[0].1 is Branch {
        lemma_ascend_none(a.drop_first(), node_a.hash().unwrap());
        assert(b[0].1 is Branch);
        assert forall|i: int| 0 <= i < a.drop_first().len() implies a.drop_first()[i].0
            == b.drop_first()[i].0 by {
            assert(a[i + 1].0 == b[i + 1].0);
        }
        lemma_binding_above(
            a.drop_first(),
            b.drop_first(),
            node_a.hash().unwrap(),
            node_b.hash().unwrap(),
        );
    } else {
        assert(a[0].1 is Root);
        assert(a.len() == 1);
        lemma_ascend_none(b.drop_first(), node_b.hash().unwrap());
        assert(b[0].1 is Root);
    }
    if !(exists|x: Seq<u8>, y: Seq<u8>| collide(x, y)) {
        assert(node_digest(node_a) == node_digest(node_b));
        assert(!collide(node_preimage(node_a), node_preimage(node_b)));
        law_canonical(node_a, node_b);
        assert(below_a == below_b) by {
            match (node_a, node_b) {
                (NodeView::Root(x), NodeView::Root(y)) => {
                    assert(plain(node_a)->Root_0.left == x.left);
                    assert(plain(node_b)->Root_0.left == y.left);
                    assert(plain(node_a)->Root_0.right == x.right);
                    assert(plain(node_b)->Root_0.right == y.right);
                },
                (NodeView::Branch(x), NodeView::Branch(y)) => {
                    assert(plain(node_a)->Branch_0.left == x.left);
                    assert(plain(node_b)->Branch_0.left == y.left);
                    assert(plain(node_a)->Branch_0.right == x.right);
                    assert(plain(node_b)->Branch_0.right == y.right);
                },
                _ => {},
            }
        }
        assert(sealed_above(a.drop_first(), node_a.hash().unwrap()) == sealed_above(
            b.drop_first(),
            node_b.hash().unwrap(),
        ));
    }
}

/// Tamper resistance: two proofs of one length that take the same sides and
/// fold to one digest commit to the same nodes, unless they hold a
/// collision of the hash function. So whoever changes, in a proof that
/// holds, the key or the payload of the leaf, the split position of a
/// branch or the digest of a sibling, makes a proof that does not hold.
pub proof fn law_tamper_resistance(a: Seq<(bool, NodeView)>, b: Seq<(bool, NodeView)>)
    requires
        a.len() == b.len(),
        forall|i: int| 0 <= i < a.len() ==> a[i].0 == b[i].0,
        fold_proof(a) is Ok,
        fold_proof(a) == fold_proof(b),
    ensures
        (exists|x: Seq<u8>, y: Seq<u8>| collide(x, y)) || sealed(a) == sealed(b),
{
    assert forall|i: int| 0 <= i < a.drop_first().len() implies a.drop_first()[i].0
        == b.drop_first()[i].0 by {
        assert(a[i + 1].0 == b[i + 1].0);
    }
    let leaf_a = a[0].1;
    let leaf_b = b[0].1;
    lemma_binding_above(a.drop_first(), b.drop_first(), node_digest(leaf_a), node_digest(leaf_b));
    if !(exists|x: Seq<u8>, y: Seq<u8>| collide(x, y)) {
        assert(!collide(node_preimage(leaf_a), node_preimage(leaf_b)));
        law_canonical(leaf_a, leaf_b);
    }
}

} // verus!
