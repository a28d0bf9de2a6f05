use crate::codec::{be32, be32_value, decode_node_at, encode_node, lemma_be32, lemma_window};
use crate::codec::{law_encoded_parses, law_parsed_encodes, node_error, node_preimage};
use crate::codec::{parse_node, plain, push_be32, read_be32};
use crate::error::TrieError;
use crate::merkle::{proof_view, slot_of};
use crate::store::types::{Node, NodeView};
use vstd::prelude::*;

verus! {

/// One entry of a proof as it goes over the wire: a byte that names the
/// side, 0 or 1, and the serialization of the node.
pub open spec fn entry_image(entry: (bool, NodeView)) -> Seq<u8> {
    seq![slot_of(entry.0)] + node_preimage(entry.1)
}

/// The entries of a proof as they go over the wire, one after the other.
pub open spec fn entries_image(entries: Seq<(bool, NodeView)>) -> Seq<u8>
    decreases entries.len(),
{
    if entries.len() == 0 {
        Seq::empty()
    } else {
        entry_image(entries[0]) + entries_image(entries.drop_first())
    }
}

/// A proof as it goes over the wire: the number of its entries in four
/// bytes, most significant first, and the entries. The entries stand leaf
/// first, as a proof is checked.
pub open spec fn proof_image(entries: Seq<(bool, NodeView)>) -> Seq<u8> {
    be32(entries.len()) + entries_image(entries)
}

/// Why a proof cannot go over the wire, if it cannot: it has more entries
/// than the count can hold, or the first of its nodes that has no
/// serialization has none for this reason.
pub open spec fn proof_error(entries: Seq<(bool, NodeView)>) -> Option<TrieError>
    decreases entries.len(),
{
    if entries.len() > u32::MAX {
        Some(TrieError::CodecError)
    } else if entries.len() == 0 {
        None
    } else {
        match proof_error(entries.drop_last()) {
            Some(e) => Some(e),
            None => node_error(entries.last().1),
        }
    }
}

/// The entries as they come back from the wire.
pub open spec fn plain_entries(entries: Seq<(bool, NodeView)>) -> Seq<(bool, NodeView)> {
    Seq::new(entries.len(), |i: int| (entries[i].0, plain(entries[i].1)))
}

/// The entries that are written from a position on, `count` of them, and
/// the position behind them.
pub open spec fn parse_entries(bytes: Seq<u8>, at: int, count: nat) -> Option<
    (Seq<(bool, NodeView)>, int),
>
    decreases count,
{
    if count == 0 {
        Some((Seq::empty(), at))
    } else if at < 0 || at >= bytes.len() || bytes[at] > 1 {
        None
    } else {
        match parse_node(bytes, at + 1) {
            None => None,
            Some((node, next)) => match parse_entries(bytes, next, (count - 1) as nat) {
                None => None,
                Some((rest, end)) => Some((seq![(bytes[at] == 1, node)] + rest, end)),
            },
        }
    }
}

/// The proof that bytes from the wire hold, if they hold one and no more.
pub open spec fn parse_proof(bytes: Seq<u8>) -> Option<Seq<(bool, NodeView)>> {
    if bytes.len() < 4 {
        None
    } else {
        match parse_entries(bytes, 4, be32_value(bytes.subrange(0, 4))) {
            Some((entries, end)) => if end == bytes.len() {
                Some(entries)
            } else {
                None
            },
            None => None,
        }
    }
}

proof fn lemma_entries_image_push(entries: Seq<(bool, NodeView)>, entry: (bool, NodeView))
    ensures
        entries_image(entries.push(entry)) == entries_image(entries) + entry_image(entry),
    decreases entries.len(),
{
    if entries.len() == 0 {
        assert(entries.push(entry).drop_first() =~= Seq::<(bool, NodeView)>::empty());
        reveal_with_fuel(entries_image, 2);
        assert(entries_image(entries.push(entry)) =~= entries_image(entries) + entry_image(
            entry,
        ));
    } else {
        assert(entries.push(entry).drop_first() =~= entries.drop_first().push(entry));
        lemma_entries_image_push(entries.drop_first(), entry);
        assert(entries_image(entries.push(entry)) =~= entries_image(entries) + entry_image(
            entry,
        ));
    }
}

proof fn lemma_proof_error_none(entries: Seq<(bool, NodeView)>)
    requires
        proof_error(entries) is None,
    ensures
        entries.len() <= u32::MAX,
        forall|i: int| 0 <= i < entries.len() ==> node_error(#[trigger] entries[i].1) is None,
    decreases entries.len(),
{
    if entries.len() > 0 {
        lemma_proof_error_none(entries.drop_last());
        assert forall|i: int| 0 <= i < entries.len() implies node_error(
            #[trigger] entries[i].1,
        ) is None by {
            if i < entries.len() - 1 {
                assert(entries.drop_last()[i] == entries[i]);
            }
        }
    }
}

proof fn lemma_entries_parse(entries: Seq<(bool, NodeView)>, bytes: Seq<u8>, at: int)
    requires
        forall|i: int| 0 <= i < entries.len() ==> node_error(#[trigger] entries[i].1) is None,
        0 <= at,
        at + entries_image(entries).len() <= bytes.len(),
        bytes.subrange(at, at + entries_image(entries).len()) == entries_image(entries),
    ensures
        parse_entries(bytes, at, entries.len()) == Some(
            (plain_entries(entries), at + entries_image(entries).len()),
        ),
    decreases entries.len(),
{
    if entries.len() == 0 {
        assert(plain_entries(entries) =~= Seq::<(bool, NodeView)>::empty());
    } else {
        let image = entries_image(entries);
        let first = node_preimage(entries[0].1);
        let rest = entries.drop_first();
        let next = 1 + first.len() as int;
        lemma_window(bytes, at, image, 0, 1);
        lemma_window(bytes, at, image, 1, next);
        lemma_window(bytes, at, image, next, image.len() as int);
        assert(image.subrange(0, 1)[0] == slot_of(entries[0].0));
        assert(image.subrange(1, next) =~= first);
        assert(image.subrange(next, image.len() as int) =~= entries_image(rest));
        law_encoded_parses(entries[0].1, bytes, at + 1);
        assert forall|i: int| 0 <= i < rest.len() implies node_error(
            #[trigger] rest[i].1,
        ) is None by {
            assert(rest[i] == entries[i + 1]);
        }
        lemma_entries_parse(rest, bytes, at + next);
        assert(seq![(bytes[at] == 1, plain(entries[0].1))] + plain_entries(rest)
            =~= plain_entries(entries));
    }
}

/// A proof that has gone over the wire comes back as it was, but for what
/// is no part of a serialization.
pub proof fn law_wire_round_trip(entries: Seq<(bool, NodeView)>)
    requires
        proof_error(entries) is None,
    ensures
        parse_proof(proof_image(entries)) == Some(plain_entries(entries)),
{
    let bytes = proof_image(entries);
    lemma_proof_error_none(entries);
    lemma_be32(entries.len(), Seq::empty());
    assert(bytes.subrange(0, 4) =~= be32(entries.len()));
    assert(bytes.subrange(4, 4 + entries_image(entries).len() as int) =~= entries_image(entries));
    lemma_entries_parse(entries, bytes, 4);
}

proof fn lemma_parsed_entries(bytes: Seq<u8>, at: int, count: nat)
    requires
        0 <= at <= bytes.len(),
    ensures
        parse_entries(bytes, at, count) matches Some((entries, end)) ==> {
            &&& entries.len() == count
            &&& at <= end <= bytes.len()
            &&& forall|i: int| 0 <= i < entries.len() ==> node_error(#[trigger] entries[i].1) is None
            &&& entries_image(entries) == bytes.subrange(at, end)
            &&& plain_entries(entries) == entries
        },
    decreases count,
{
    if let Some((entries, end)) = parse_entries(bytes, at, count) {
        if count == 0 {
            assert(entries_image(entries) =~= bytes.subrange(at, end));
            assert(plain_entries(entries) =~= entries);
        } else {
            let (node, next) = parse_node(bytes, at + 1)->Some_0;
            let (rest, _) = parse_entries(bytes, next, (count - 1) as nat)->Some_0;
            law_parsed_encodes(bytes, at + 1);
            lemma_parsed_entries(bytes, next, (count - 1) as nat);
            assert(entries.drop_first() =~= rest);
            assert(entries_image(entries) =~= bytes.subrange(at, end)) by {
                assert(bytes.subrange(at, end) =~= seq![bytes[at]] + bytes.subrange(at + 1, next)
                    + bytes.subrange(next, end));
            }
            assert(plain_entries(entries) =~= entries) by {
                assert forall|i: int| 0 <= i < entries.len() implies plain_entries(entries)[i]
                    == entries[i] by {
                    if i > 0 {
                        assert(entries[i] == rest[i - 1]);
                        assert(plain_entries(rest)[i - 1] == rest[i - 1]);
                    }
                }
            }
            assert forall|i: int| 0 <= i < entries.len() implies node_error(
                #[trigger] entries[i].1,
            ) is None by {
                if i > 0 {
                    assert(entries[i] == rest[i - 1]);
                }
            }
        }
    }
}

/// Bytes that hold a proof are what that proof goes over the wire as.
pub proof fn law_wire_parsed(bytes: Seq<u8>)
    ensures
        parse_proof(bytes) matches Some(entries) ==> proof_image(entries) == bytes && plain_entries(
            entries,
        ) == entries,
{
    if let Some(entries) = parse_proof(bytes) {
        let count = be32_value(bytes.subrange(0, 4));
        lemma_parsed_entries(bytes, 4, count);
        lemma_be32(0, bytes.subrange(0, 4));
        assert(proof_image(entries) =~= bytes) by {
            assert(bytes =~= bytes.subrange(0, 4) + bytes.subrange(4, bytes.len() as int));
        }
    }
}

/// Writes a proof for the wire. `inner_proof` holds the entries leaf first,
/// as a proof is checked. Fails where there are more entries than the count
/// can hold, or a node has no serialization.
pub fn encode_proof(inner_proof: &Vec<(bool, Node)>) -> (r: Result<Vec<u8>, TrieError>)
    ensures
        match r {
            Ok(bytes) => proof_error(proof_view(inner_proof@)) is None && bytes@ == proof_image(
                proof_view(inner_proof@),
            ),
            Err(e) => proof_error(proof_view(inner_proof@)) == Some(e),
        },
{
    let ghost entries = proof_view(inner_proof@);
    if inner_proof.len() > u32::MAX as usize {
        return Err(TrieError::CodecError);
    }
    let mut out: Vec<u8> = Vec::new();
    push_be32(&mut out, inner_proof.len() as u32);
    let mut i: usize = 0;
    assert(entries.take(0) =~= Seq::<(bool, NodeView)>::empty());
    assert(out@ =~= be32(entries.len()) + entries_image(entries.take(0)));
    while i < inner_proof.len()
        invariant
            i <= inner_proof.len() <= u32::MAX,
            entries == proof_view(inner_proof@),
            proof_error(entries.take(i as int)) is None,
            out@ == be32(entries.len()) + entries_image(entries.take(i as int)),
        decreases inner_proof.len() - i,
    {
        let ghost done = entries.take(i as int);
        let ghost more = entries.take(i + 1);
        assert(more.drop_last() =~= done);
        assert(more.last() == entries[i as int]);
        let slot: u8 = if inner_proof[i].0 {
            1
        } else {
            0
        };
        match encode_node(&inner_proof[i].1) {
            Ok(bytes) => {
                out.push(slot);
                out.extend_from_slice(bytes.as_slice());
                proof {
                    assert(more =~= done.push(entries[i as int]));
                    lemma_entries_image_push(done, entries[i as int]);
                    assert(out@ =~= be32(entries.len()) + entries_image(more));
                }
            },
            Err(e) => {
                proof {
                    lemma_proof_error_from(entries, i + 1);
                }
                return Err(e);
            },
        }
        i += 1;
    }
    assert(entries.take(i as int) =~= entries);
    Ok(out)
}

/// A proof of which a part cannot go over the wire cannot either, and for
/// the same reason.
proof fn lemma_proof_error_from(entries: Seq<(bool, NodeView)>, upto: int)
    requires
        0 <= upto <= entries.len() <= u32::MAX,
        proof_error(entries.take(upto)) is Some,
    ensures
        proof_error(entries) == proof_error(entries.take(upto)),
    decreases entries.len() - upto,
{
    if upto < entries.len() {
        let more = entries.take(upto + 1);
        assert(more.drop_last() =~= entries.take(upto));
        lemma_proof_error_from(entries, upto + 1);
    } else {
        assert(entries.take(upto) =~= entries);
    }
}

/// Reads a proof from the wire: the entries leaf first, as a proof is
/// checked. Fails with `CodecError` where the bytes hold no proof, or hold
/// more than one.
pub fn decode_proof(bytes: &[u8]) -> (r: Result<Vec<(bool, Node)>, TrieError>)
    ensures
        match r {
            Ok(inner_proof) => parse_proof(bytes@) == Some(proof_view(inner_proof@)),
            Err(e) => parse_proof(bytes@) is None && e == TrieError::CodecError,
        },
{
    let count = match read_be32(bytes, 0) {
        Some(count) => count,
        None => {
            return Err(TrieError::CodecError);
        },
    };
    let mut inner_proof: Vec<(bool, Node)> = Vec::new();
    let mut at: usize = 4;
    let mut left: usize = count;
    let ghost goal = parse_entries(bytes@, 4, count as nat);
    assert(proof_view(inner_proof@) =~= Seq::<(bool, NodeView)>::empty());
    assert forall|rest: Seq<(bool, NodeView)>| proof_view(inner_proof@) + rest =~= rest by {}
    while left > 0
        invariant
            4 <= bytes@.len(),
            goal == parse_entries(bytes@, 4, be32_value(bytes@.subrange(0, 4))),
            goal == (match parse_entries(bytes@, at as int, left as nat) {
                Some((rest, end)) => Some((proof_view(inner_proof@) + rest, end)),
                None => None,
            }),
        decreases left,
    {
        if at >= bytes.len() || bytes[at] > 1 {
            return Err(TrieError::CodecError);
        }
        let right = bytes[at] == 1;
        let (node, next) = match decode_node_at(bytes, at + 1) {
            Ok(found) => found,
            Err(e) => {
                return Err(e);
            },
        };
        proof {
            let had = proof_view(inner_proof@);
            if let Some((rest, end)) = parse_entries(bytes@, next as int, (left - 1) as nat) {
                assert(had + (seq![(right, node@)] + rest) =~= had.push((right, node@)) + rest);
            }
            assert(proof_view(inner_proof@.push((right, node))) =~= had.push((right, node@)));
        }
        inner_proof.push((right, node));
        at = next;
        left = left - 1;
    }
    assert(proof_view(inner_proof@) + Seq::<(bool, NodeView)>::empty() =~= proof_view(
        inner_proof@,
    ));
    if at == bytes.len() {
        Ok(inner_proof)
    } else {
        Err(TrieError::CodecError)
    }
}

} // verus!
