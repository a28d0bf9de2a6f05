use crate::{climb, insertion, lift, member, put_all, sown, trail};
use crate::codec::{law_canonical, leaf_digest, leaf_encodable, node_digest, node_error};
use crate::codec::{node_preimage, plain};
use crate::merkle::collide;
use crate::model::growth::{placed, settled};
use crate::store::types::{LeafView, NodeView};
use vstd::prelude::*;

verus! {

/// Whether a node is one that may stand in a store: it has a serialization,
/// and its hash is the digest of that.
pub open spec fn proper(node: NodeView) -> bool {
    node_error(node) is None && node.hash() == Some(node_digest(node))
}

/// Whether every node of a store is kept under the digest of its content.
pub open spec fn addressed(store: Map<Seq<u8>, NodeView>) -> bool {
    forall|d: Seq<u8>| #[trigger] store.contains_key(d) ==> proper(store[d]) && store[d].hash()
        == Some(d)
}

proof fn lemma_climb_proper(above: Seq<(u8, NodeView)>, child: (u8, NodeView))
    ensures
        climb(above, child) matches Ok(nodes) ==> forall|i: int|
            0 <= i < nodes.len() ==> proper(#[trigger] nodes[i]),
    decreases above.len(),
{
    if above.len() > 0 {
        if let Ok(parent) = lift(child, above.last().1) {
            lemma_climb_proper(above.drop_last(), (above.last().0, parent));
        }
    }
}

proof fn lemma_put_all_addressed(store: Map<Seq<u8>, NodeView>, nodes: Seq<NodeView>)
    requires
        addressed(store),
        forall|i: int| 0 <= i < nodes.len() ==> proper(#[trigger] nodes[i]),
    ensures
        addressed(put_all(store, nodes)),
    decreases nodes.len(),
{
    if nodes.len() > 0 {
        let next = store.insert(nodes[0].hash().unwrap(), nodes[0]);
        assert(proper(nodes[0]));
        assert forall|i: int| 0 <= i < nodes.drop_first().len() implies proper(
            #[trigger] nodes.drop_first()[i],
        ) by {
            assert(nodes.drop_first()[i] == nodes[i + 1]);
        }
        lemma_put_all_addressed(next, nodes.drop_first());
    }
}

/// Content addressing: an insertion of a leaf that carries the hash of its
/// content writes each node under the digest of the node's serialization,
/// whatever the store holds and whether it succeeds or not. A store in
/// which every node is kept so stays such a store.
pub proof fn law_content_addressing(
    store: Map<Seq<u8>, NodeView>,
    leaf: LeafView,
    root_node: NodeView,
)
    requires
        leaf_encodable(leaf),
        leaf.hash is Some ==> leaf.hash == Some(leaf_digest(leaf)),
    ensures
        forall|i: int|
            0 <= i < insertion(store, leaf, root_node).writes.len() ==> proper(
                #[trigger] insertion(store, leaf, root_node).writes[i],
            ),
        addressed(store) ==> addressed(put_all(store, insertion(store, leaf, root_node).writes)),
{
    let ins = insertion(store, leaf, root_node);
    if !member(store, leaf, root_node) {
        if let Ok(path) = trail(store, leaf, root_node) {
            let below = sown(leaf, path.last().1);
            assert forall|i: int| 0 <= i < below.len() implies proper(#[trigger] below[i]) by {}
            if let NodeView::Root(old_root) = root_node {
                lemma_climb_proper(
                    seq![(0u8, NodeView::Root(old_root))] + path.drop_last(),
                    path.last(),
                );
            }
        }
    }
    if addressed(store) {
        lemma_put_all_addressed(store, ins.writes);
    }
}

/// Whether two of the nodes written, or one of them and a node that the
/// store holds, have one address and are not the same node.
pub open spec fn clash(store: Map<Seq<u8>, NodeView>, written: Seq<NodeView>) -> bool {
    ||| exists|i: int, j: int|
        0 <= i < j < written.len() && (#[trigger] written[i]).hash() == (
        #[trigger] written[j]).hash() && written[i] != written[j]
    ||| exists|i: int|
        0 <= i < written.len() && store.contains_key((#[trigger] written[i]).hash().unwrap())
            && store[written[i].hash().unwrap()] != written[i]
}

/// Writing displaces nothing unless nodes clash.
pub proof fn law_settled(store: Map<Seq<u8>, NodeView>, written: Seq<NodeView>)
    requires
        forall|i: int| 0 <= i < written.len() ==> (#[trigger] written[i]).hash() is Some,
    ensures
        settled(store, written, put_all(store, written)) || clash(store, written),
    decreases written.len(),
{
    if written.len() > 0 {
        let first = written[0];
        let address = first.hash().unwrap();
        let next = store.insert(address, first);
        let rest = written.drop_first();
        let after = put_all(store, written);
        assert forall|i: int| 0 <= i < rest.len() implies (#[trigger] rest[i]).hash() is Some by {
            assert(rest[i] == written[i + 1]);
        }
        law_settled(next, rest);
        if clash(next, rest) {
            if exists|i: int, j: int|
                0 <= i < j < rest.len() && (#[trigger] rest[i]).hash() == (
                #[trigger] rest[j]).hash() && rest[i] != rest[j] {
                let (i, j) = choose|i: int, j: int|
                    0 <= i < j < rest.len() && (#[trigger] rest[i]).hash() == (
                    #[trigger] rest[j]).hash() && rest[i] != rest[j];
                assert(written[i + 1] == rest[i]);
                assert(written[j + 1] == rest[j]);
            } else {
                let i = choose|i: int|
                    0 <= i < rest.len() && next.contains_key(
                        (#[trigger] rest[i]).hash().unwrap(),
                    ) && next[rest[i].hash().unwrap()] != rest[i];
                assert(written[i + 1] == rest[i]);
                if rest[i].hash().unwrap() == address {
                    assert(written[0].hash() == written[i + 1].hash());
                }
            }
            assert(clash(store, written));
        } else if store.contains_key(address) && store[address] != first {
            assert(clash(store, written));
        } else {
            assert(next.contains_key(address));
            assert forall|i: int| 0 <= i < written.len() implies placed(
                after,
                #[trigger] written[i],
            ) by {
                if i > 0 {
                    assert(written[i] == rest[i - 1]);
                    assert(placed(after, rest[i - 1]));
                }
            }
            assert forall|d: Seq<u8>| #[trigger] store.contains_key(d) implies after.contains_key(
                d,
            ) && after[d] == store[d] by {
                assert(next.contains_key(d));
            }
        }
    }
}

/// Whether two nodes have one address and one content, and are not the
/// same: they are leaves without payload, of which one has no data and the
/// other has empty data.
pub open spec fn twins(a: NodeView, b: NodeView) -> bool {
    a != b && a.hash() == b.hash() && plain(a) == plain(b)
}

proof fn lemma_same_address(a: NodeView, b: NodeView)
    requires
        proper(a),
        proper(b),
        a != b,
        a.hash() == b.hash(),
    ensures
        twins(a, b) || collide(node_preimage(a), node_preimage(b)),
{
    if node_preimage(a) == node_preimage(b) {
        law_canonical(a, b);
    }
}

/// Nodes clash only by a collision of the hash function, or as twins:
/// where every node of the store and every node written stands under the
/// digest of its content, two that clash have serializations that collide,
/// or are twins.
pub proof fn law_clash(store: Map<Seq<u8>, NodeView>, written: Seq<NodeView>)
    requires
        addressed(store),
        forall|i: int| 0 <= i < written.len() ==> proper(#[trigger] written[i]),
        clash(store, written),
    ensures
        exists|a: NodeView, b: NodeView|
            proper(a) && proper(b) && (twins(a, b) || collide(node_preimage(a), node_preimage(b))),
{
    if exists|i: int, j: int|
        0 <= i < j < written.len() && (#[trigger] written[i]).hash() == (
        #[trigger] written[j]).hash() && written[i] != written[j] {
        let (i, j) = choose|i: int, j: int|
            0 <= i < j < written.len() && (#[trigger] written[i]).hash() == (
            #[trigger] written[j]).hash() && written[i] != written[j];
        lemma_same_address(written[i], written[j]);
    } else {
        let i = choose|i: int|
            0 <= i < written.len() && store.contains_key(
                (#[trigger] written[i]).hash().unwrap(),
            ) && store[written[i].hash().unwrap()] != written[i];
        let address = written[i].hash().unwrap();
        assert(store.contains_key(address));
        lemma_same_address(store[address], written[i]);
    }
}

} // verus!
