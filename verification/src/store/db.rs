use crate::store::types::{Node, NodeView};
use std::collections::HashMap;
use vstd::prelude::*;

verus! {

broadcast use vstd::std_specs::hash::group_hash_axioms;

/// What a store holds, as a mathematical value: the node kept under each
/// digest.
pub type Contents = Map<Seq<u8>, NodeView>;

/// A keyed store of nodes: each node is kept under a digest.
///
/// The contracts of `insert` and `get` are what the walks through a tree
/// rely on. For a store that is written elsewhere they are taken on trust;
/// `contents` is then never run, and any body will do for it.
pub trait Database {
    /// What the store holds.
    spec fn contents(&self) -> Contents;

    /// Keeps `node` under `key`, in place of what was kept there.
    fn insert(&mut self, key: &[u8], node: Node)
        ensures
            final(self).contents() == old(self).contents().insert(key@, node@),
    ;

    /// A copy of the node kept under `key`, if there is one. The store
    /// stays as it is.
    fn get(&mut self, key: &[u8]) -> (found: Option<Node>)
        ensures
            final(self).contents() == old(self).contents(),
            match found {
                Some(node) => old(self).contents().contains_key(key@) && node@ == old(
                    self,
                ).contents()[key@],
                None => !old(self).contents().contains_key(key@),
            },
    ;
}

/// The number under which a key is filed: its first bytes, up to eight, read
/// as one number.
pub open spec fn shelf_of(key: Seq<u8>) -> u64
    decreases key.len(),
{
    if key.len() == 0 {
        0
    } else if key.len() > 8 {
        shelf_of(key.take(8))
    } else {
        ((shelf_of(key.drop_last()) % 0x0100_0000_0000_0000) * 256 + key.last()) as u64
    }
}

/// The position of the first entry of a shelf that is kept under `key`.
pub open spec fn position(entries: Seq<(Vec<u8>, Node)>, key: Seq<u8>) -> Option<int>
    decreases entries.len(),
{
    if entries.len() == 0 {
        None
    } else if entries[0].0@ == key {
        Some(0)
    } else {
        match position(entries.drop_first(), key) {
            Some(i) => Some(i + 1),
            None => None,
        }
    }
}

/// What `position` finds, seen from the entries: the first entry under the
/// key, and none before it.
pub proof fn lemma_position(entries: Seq<(Vec<u8>, Node)>, key: Seq<u8>)
    ensures
        match position(entries, key) {
            Some(i) => 0 <= i < entries.len() && entries[i].0@ == key && forall|j: int|
                0 <= j < i ==> entries[j].0@ != key,
            None => forall|j: int| 0 <= j < entries.len() ==> entries[j].0@ != key,
        },
    decreases entries.len(),
{
    if entries.len() > 0 && entries[0].0@ != key {
        let rest = entries.drop_first();
        lemma_position(rest, key);
        match position(rest, key) {
            Some(i) => {
                assert forall|j: int| 0 <= j < i + 1 implies entries[j].0@ != key by {
                    if j > 0 {
                        assert(entries[j] == rest[j - 1]);
                    }
                }
            },
            None => {
                assert forall|j: int| 0 <= j < entries.len() implies entries[j].0@ != key by {
                    if j > 0 {
                        assert(entries[j] == rest[j - 1]);
                    }
                }
            },
        }
    }
}

/// An entry that is the first under its key, with none before it, is what
/// `position` finds.
pub proof fn lemma_position_is(entries: Seq<(Vec<u8>, Node)>, key: Seq<u8>, i: int)
    requires
        0 <= i < entries.len(),
        entries[i].0@ == key,
        forall|j: int| 0 <= j < i ==> entries[j].0@ != key,
    ensures
        position(entries, key) == Some(i),
{
    lemma_position(entries, key);
}

/// The node store in memory. The nodes are filed by the first bytes of
/// their digests; a shelf holds each digest once at most, as far as lookups
/// can tell, because the first entry under a digest is the one that counts.
#[derive(Debug)]
pub struct TrieDB {
    pub nodes: HashMap<u64, Vec<(Vec<u8>, Node)>>,
}

impl TrieDB {
    /// The node that the store holds under `key`, if any.
    pub open spec fn lookup(&self, key: Seq<u8>) -> Option<NodeView> {
        if self.nodes@.contains_key(shelf_of(key)) {
            let entries = self.nodes@[shelf_of(key)]@;
            match position(entries, key) {
                Some(i) => Some(entries[i].1@),
                None => None,
            }
        } else {
            None
        }
    }
}

fn shelf(key: &[u8]) -> (s: u64)
    ensures
        s == shelf_of(key@),
{
    let n: usize = if key.len() > 8 {
        8
    } else {
        key.len()
    };
    let mut s: u64 = 0;
    let mut i: usize = 0;
    while i < n
        invariant
            i <= n <= key@.len(),
            n <= 8,
            s == shelf_of(key@.take(i as int)),
        decreases n - i,
    {
        assert(key@.take(i + 1).drop_last() =~= key@.take(i as int));
        s = (s % 0x0100_0000_0000_0000) * 256 + key[i] as u64;
        i += 1;
    }
    proof {
        if key@.len() <= 8 {
            assert(key@.take(n as int) =~= key@);
        }
    }
    s
}

fn find(entries: &Vec<(Vec<u8>, Node)>, key: &[u8]) -> (at: Option<usize>)
    ensures
        match at {
            Some(i) => i < entries@.len() && position(entries@, key@) == Some(i as int),
            None => position(entries@, key@) is None,
        },
{
    let mut i: usize = 0;
    while i < entries.len()
        invariant
            i <= entries.len(),
            forall|j: int| 0 <= j < i ==> entries@[j].0@ != key@,
        decreases entries.len() - i,
    {
        if same_slice(entries[i].0.as_slice(), key) {
            proof {
                lemma_position_is(entries@, key@, i as int);
            }
            return Some(i);
        }
        i += 1;
    }
    proof {
        lemma_position(entries@, key@);
    }
    None
}

fn same_slice(a: &[u8], b: &[u8]) -> (same: bool)
    ensures
        same == (a@ == b@),
{
    if a.len() != b.len() {
        return false;
    }
    let mut i: usize = 0;
    while i < a.len()
        invariant
            a.len() == b.len(),
            i <= a.len(),
            forall|j: int| 0 <= j < i ==> a@[j] == b@[j],
        decreases a.len() - i,
    {
        if a[i] != b[i] {
            return false;
        }
        i += 1;
    }
    assert(a@ =~= b@);
    true
}

fn copy_slice(a: &[u8]) -> (v: Vec<u8>)
    ensures
        v@ == a@,
{
    let mut v: Vec<u8> = Vec::new();
    v.extend_from_slice(a);
    assert(v@ =~= a@);
    v
}

impl Database for TrieDB {
    open spec fn contents(&self) -> Contents {
        Map::new(|key: Seq<u8>| self.lookup(key) is Some, |key: Seq<u8>| self.lookup(key).unwrap())
    }

    fn insert(&mut self, key: &[u8], node: Node) {
        let s = shelf(key);
        let ghost before = self.nodes@;
        let mut entries: Vec<(Vec<u8>, Node)> = match self.nodes.remove(&s) {
            Some(entries) => entries,
            None => Vec::new(),
        };
        let ghost had = entries@;
        match find(&entries, key) {
            Some(i) => {
                entries[i] = (copy_slice(key), node);
            },
            None => {
                entries.push((copy_slice(key), node));
            },
        }
        let ghost filed = entries@;
        self.nodes.insert(s, entries);
        proof {
            lemma_position(had, key@);
            assert forall|k: Seq<u8>| self.lookup(k) == (if k == key@ {
                Some(node@)
            } else {
                old(self).lookup(k)
            }) by {
                if shelf_of(k) == s {
                    lemma_position(had, k);
                    lemma_position(filed, k);
                    if k == key@ {
                        match position(had, key@) {
                            Some(i) => {
                                lemma_position_is(filed, k, i);
                            },
                            None => {
                                lemma_position_is(filed, k, had.len() as int);
                            },
                        }
                    } else {
                        match position(had, k) {
                            Some(i) => {
                                lemma_position_is(filed, k, i);
                            },
                            None => {},
                        }
                    }
                }
            }
            assert(self.contents() =~= old(self).contents().insert(key@, node@));
        }
    }

    fn get(&mut self, key: &[u8]) -> (found: Option<Node>) {
        let s = shelf(key);
        match self.nodes.get(&s) {
            Some(entries) => {
                match find(entries, key) {
                    Some(i) => Some(entries[i].1.clone()),
                    None => None,
                }
            },
            None => None,
        }
    }
}

} // verus!
