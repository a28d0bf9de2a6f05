use crate::codec::{branch_digest, branch_encodable, branch_error, leaf_digest, leaf_encodable};
use crate::codec::{encode_branch, encode_leaf, encode_root, root_digest, root_encodable};
use crate::error::TrieError;
use crate::store::db::Database;
use sha2::Digest;
use sha2::Sha256;
use vstd::prelude::*;

verus! {

/// The digest of a root: the handle of one version of the tree.
pub type RootHash = Vec<u8>;

/// The digest of a node, under which the node is stored.
pub type NodeHash = Vec<u8>;

/// A key: one byte per bit, 0 or 1.
pub type Key = Vec<u8>;

/// The payload of a leaf.
pub type Data = Vec<u8>;

/// The SHA-256 hash of a byte string.
pub uninterp spec fn sha256(data: Seq<u8>) -> Seq<u8>;

/// Runs `sha2::Sha256` over `data` (`new`, `update`, `finalize`): the result
/// is the SHA-256 hash of these bytes, which is 32 bytes long.
#[verifier::external_body]
fn sha256_bytes(data: &[u8]) -> (hash: Vec<u8>)
    ensures
        hash@ == sha256(data@),
        hash@.len() == 32,
{
    let mut hasher = Sha256::new();
    hasher.update(data);
    hasher.finalize().to_vec()
}

/// The digest of a byte string: its SHA-256 hash. A digest has 32 bytes,
/// and the definition says so of every byte string, also of one that
/// nothing has hashed yet.
pub open spec fn digest_of(data: Seq<u8>) -> Seq<u8> {
    if sha256(data).len() == 32 {
        sha256(data)
    } else {
        Seq::new(32, |i: int| 0u8)
    }
}

/// The digest under which content is addressed: SHA-256, 32 bytes.
pub fn default_hash(data: &[u8]) -> (digest: NodeHash)
    ensures
        digest@ == digest_of(data@),
        digest@.len() == 32,
{
    sha256_bytes(data)
}

/// An optional byte string as a mathematical value.
pub open spec fn opt_seq(o: Option<Vec<u8>>) -> Option<Seq<u8>> {
    match o {
        Some(v) => Some(v@),
        None => None,
    }
}

/// A copy of a byte string.
pub fn clone_bytes(v: &Vec<u8>) -> (r: Vec<u8>)
    ensures
        r@ == v@,
{
    let r = v.clone();
    assert(r@ =~= v@);
    r
}

/// A copy of an optional byte string.
pub fn clone_opt_bytes(o: &Option<Vec<u8>>) -> (r: Option<Vec<u8>>)
    ensures
        opt_seq(r) == opt_seq(*o),
{
    match o {
        Some(v) => Some(clone_bytes(v)),
        None => None,
    }
}

/// The top of one version of the tree, as a mathematical value.
pub struct RootView {
    pub hash: Option<Seq<u8>>,
    pub left: Option<Seq<u8>>,
    pub right: Option<Seq<u8>>,
}

/// An inner node, as a mathematical value.
pub struct BranchView {
    pub key: Seq<u8>,
    pub hash: Option<Seq<u8>>,
    pub left: Option<Seq<u8>>,
    pub right: Option<Seq<u8>>,
}

/// A terminal node, as a mathematical value.
pub struct LeafView {
    pub key: Seq<u8>,
    pub hash: Option<Seq<u8>>,
    pub data: Option<Seq<u8>>,
}

/// A node of any of the three variants, as a mathematical value.
pub enum NodeView {
    Root(RootView),
    Branch(BranchView),
    Leaf(LeafView),
}

impl NodeView {
    /// The digest that the node carries, if it has been computed.
    pub open spec fn hash(self) -> Option<Seq<u8>> {
        match self {
            NodeView::Root(r) => r.hash,
            NodeView::Branch(b) => b.hash,
            NodeView::Leaf(l) => l.hash,
        }
    }

    /// The node with another hash in place of the one that it carries.
    pub open spec fn with_hash(self, hash: Option<Seq<u8>>) -> NodeView {
        match self {
            NodeView::Root(r) => NodeView::Root(RootView { hash, ..r }),
            NodeView::Branch(b) => NodeView::Branch(BranchView { hash, ..b }),
            NodeView::Leaf(l) => NodeView::Leaf(LeafView { hash, ..l }),
        }
    }
}

/// The top of one version of the tree. `left` addresses the subtree of the
/// keys whose first bit is 0, `right` that of the others.
#[derive(Debug)]
pub struct Root {
    pub hash: Option<RootHash>,
    pub left: Option<NodeHash>,
    pub right: Option<NodeHash>,
}

/// An inner node. The first byte of `key` is the split position: the index
/// of the key bit that decides between `left` (0) and `right`.
#[derive(Debug)]
pub struct Branch {
    pub key: Key,
    pub hash: Option<NodeHash>,
    pub left: Option<NodeHash>,
    pub right: Option<NodeHash>,
}

/// A terminal node: a key, one byte per bit, bound to a payload.
#[derive(Debug, PartialEq)]
pub struct Leaf {
    pub key: Key,
    pub hash: Option<NodeHash>,
    pub data: Option<Data>,
}

/// A node of any of the three variants.
#[derive(Debug)]
pub enum Node {
    Root(Root),
    Branch(Branch),
    Leaf(Leaf),
}

impl View for Root {
    type V = RootView;

    open spec fn view(&self) -> RootView {
        RootView { hash: opt_seq(self.hash), left: opt_seq(self.left), right: opt_seq(self.right) }
    }
}

impl View for Branch {
    type V = BranchView;

    open spec fn view(&self) -> BranchView {
        BranchView {
            key: self.key@,
            hash: opt_seq(self.hash),
            left: opt_seq(self.left),
            right: opt_seq(self.right),
        }
    }
}

impl View for Leaf {
    type V = LeafView;

    open spec fn view(&self) -> LeafView {
        LeafView { key: self.key@, hash: opt_seq(self.hash), data: opt_seq(self.data) }
    }
}

impl View for Node {
    type V = NodeView;

    open spec fn view(&self) -> NodeView {
        match self {
            Node::Root(r) => NodeView::Root(r@),
            Node::Branch(b) => NodeView::Branch(b@),
            Node::Leaf(l) => NodeView::Leaf(l@),
        }
    }
}

impl Clone for Root {
    fn clone(&self) -> (r: Self)
        ensures
            r@ == self@,
    {
        Root {
            hash: clone_opt_bytes(&self.hash),
            left: clone_opt_bytes(&self.left),
            right: clone_opt_bytes(&self.right),
        }
    }
}

impl Clone for Branch {
    fn clone(&self) -> (r: Self)
        ensures
            r@ == self@,
    {
        Branch {
            key: clone_bytes(&self.key),
            hash: clone_opt_bytes(&self.hash),
            left: clone_opt_bytes(&self.left),
            right: clone_opt_bytes(&self.right),
        }
    }
}

impl Clone for Leaf {
    fn clone(&self) -> (r: Self)
        ensures
            r@ == self@,
    {
        Leaf {
            key: clone_bytes(&self.key),
            hash: clone_opt_bytes(&self.hash),
            data: clone_opt_bytes(&self.data),
        }
    }
}

impl Clone for Node {
    fn clone(&self) -> (r: Self)
        ensures
            r@ == self@,
    {
        match self {
            Node::Root(r) => Node::Root(r.clone()),
            Node::Branch(b) => Node::Branch(b.clone()),
            Node::Leaf(l) => Node::Leaf(l.clone()),
        }
    }
}

impl Node {
    /// A copy of the hash that the node carries, if it carries one.
    pub fn carried_hash(&self) -> (hash: Option<NodeHash>)
        ensures
            opt_seq(hash) == self@.hash(),
    {
        match self {
            Node::Root(root) => clone_opt_bytes(&root.hash),
            Node::Branch(branch) => clone_opt_bytes(&branch.hash),
            Node::Leaf(leaf) => clone_opt_bytes(&leaf.hash),
        }
    }

    /// Puts `hash` in place of the hash that the node carries. Nothing is
    /// computed: the hash is taken as it is given.
    pub fn set_hash(&mut self, hash: Option<NodeHash>)
        ensures
            final(self)@ == old(self)@.with_hash(opt_seq(hash)),
    {
        match self {
            Node::Root(root) => {
                root.hash = hash;
            },
            Node::Branch(branch) => {
                branch.hash = hash;
            },
            Node::Leaf(leaf) => {
                leaf.hash = hash;
            },
        }
    }

    /// The root that the node is. Fails with `InvalidParent` where it is
    /// none.
    pub fn unwrap_as_root(self) -> (r: Result<Root, TrieError>)
        ensures
            match r {
                Ok(root) => self@ == NodeView::Root(root@),
                Err(e) => !(self is Root) && e == TrieError::InvalidParent,
            },
    {
        match self {
            Node::Root(root) => Ok(root),
            _ => Err(TrieError::InvalidParent),
        }
    }

    /// The branch that the node is. Fails with `InvalidBranch` where it is
    /// none.
    pub fn unwrap_as_branch(self) -> (r: Result<Branch, TrieError>)
        ensures
            match r {
                Ok(branch) => self@ == NodeView::Branch(branch@),
                Err(e) => !(self is Branch) && e == TrieError::InvalidBranch,
            },
    {
        match self {
            Node::Branch(branch) => Ok(branch),
            _ => Err(TrieError::InvalidBranch),
        }
    }

    /// The leaf that the node is. Fails with `InvalidChild` where it is
    /// none.
    pub fn unwrap_as_leaf(self) -> (r: Result<Leaf, TrieError>)
        ensures
            match r {
                Ok(leaf) => self@ == NodeView::Leaf(leaf@),
                Err(e) => !(self is Leaf) && e == TrieError::InvalidChild,
            },
    {
        match self {
            Node::Leaf(leaf) => Ok(leaf),
            _ => Err(TrieError::InvalidChild),
        }
    }
}

/// A node that can compute the digest of its own content.
pub trait Hashable {
    /// Clears the `hash` field, then sets it to the digest of the node's
    /// serialization, if the node has one.
    fn hash(&mut self) -> Result<(), TrieError>;
}

impl Hashable for Root {
    fn hash(&mut self) -> (r: Result<(), TrieError>)
        ensures
            match r {
                Ok(()) => root_encodable(old(self)@) && final(self)@ == (RootView {
                    hash: Some(root_digest(old(self)@)),
                    ..old(self)@
                }),
                Err(e) => !root_encodable(old(self)@) && e == TrieError::CodecError && final(self)@
                    == (RootView { hash: None, ..old(self)@ }),
            },
    {
        self.hash = None;
        match encode_root(self) {
            Ok(bytes) => {
                self.hash = Some(default_hash(bytes.as_slice()));
                Ok(())
            },
            Err(e) => Err(e),
        }
    }
}

impl Hashable for Branch {
    fn hash(&mut self) -> (r: Result<(), TrieError>)
        ensures
            match r {
                Ok(()) => branch_encodable(old(self)@) && final(self)@ == (BranchView {
                    hash: Some(branch_digest(old(self)@)),
                    ..old(self)@
                }),
                Err(e) => branch_error(old(self)@) == Some(e) && final(self)@ == (BranchView {
                    hash: None,
                    ..old(self)@
                }),
            },
    {
        self.hash = None;
        match encode_branch(self) {
            Ok(bytes) => {
                self.hash = Some(default_hash(bytes.as_slice()));
                Ok(())
            },
            Err(e) => Err(e),
        }
    }
}

impl Hashable for Leaf {
    fn hash(&mut self) -> (r: Result<(), TrieError>)
        ensures
            match r {
                Ok(()) => leaf_encodable(old(self)@) && final(self)@ == (LeafView {
                    hash: Some(leaf_digest(old(self)@)),
                    ..old(self)@
                }),
                Err(e) => !leaf_encodable(old(self)@) && e == TrieError::CodecError && final(self)@
                    == (LeafView { hash: None, ..old(self)@ }),
            },
    {
        self.hash = None;
        match encode_leaf(self) {
            Ok(bytes) => {
                self.hash = Some(default_hash(bytes.as_slice()));
                Ok(())
            },
            Err(e) => Err(e),
        }
    }
}

impl Root {
    /// A root without children: the empty tree.
    pub fn empty() -> (r: Self)
        ensures
            r@ == (RootView { hash: None, left: None, right: None }),
    {
        Self { hash: None, left: None, right: None }
    }

    /// Keeps the root in the store under its `hash`. Fails with
    /// `HashMissing`, and leaves the store as it is, where the root has none.
    pub fn store<D: Database + ?Sized>(&self, db: &mut D) -> (r: Result<(), TrieError>)
        ensures
            match r {
                Ok(()) => self@.hash is Some && final(db).contents() == old(db).contents().insert(
                    self@.hash.unwrap(),
                    NodeView::Root(self@),
                ),
                Err(e) => self@.hash is None && e == TrieError::HashMissing && final(db).contents()
                    == old(db).contents(),
            },
    {
        match &self.hash {
            Some(hash) => {
                db.insert(hash.as_slice(), Node::Root(self.clone()));
                Ok(())
            },
            None => Err(TrieError::HashMissing),
        }
    }

    /// Computes the root's digest and keeps the root under it. Where the
    /// root has no serialization the store stays as it is.
    pub fn hash_and_store<D: Database + ?Sized>(&mut self, db: &mut D) -> (r: Result<(), TrieError>)
        ensures
            match r {
                Ok(()) => root_encodable(old(self)@) && final(self)@ == (RootView {
                    hash: Some(root_digest(old(self)@)),
                    ..old(self)@
                }) && final(db).contents() == old(db).contents().insert(
                    root_digest(old(self)@),
                    NodeView::Root(final(self)@),
                ),
                Err(e) => !root_encodable(old(self)@) && e == TrieError::CodecError && final(self)@
                    == (RootView { hash: None, ..old(self)@ }) && final(db).contents() == old(
                    db,
                ).contents(),
            },
    {
        match self.hash() {
            Ok(()) => self.store(db),
            Err(e) => Err(e),
        }
    }
}

impl Branch {
    /// A branch at split position `key` that has no children yet.
    pub fn empty(key: Key) -> (r: Self)
        ensures
            r@ == (BranchView { key: key@, hash: None, left: None, right: None }),
    {
        Self { key, hash: None, left: None, right: None }
    }

    /// A branch at split position `key` over the given children, not hashed
    /// yet.
    pub fn new(key: Key, left: Option<NodeHash>, right: Option<NodeHash>) -> (r: Self)
        ensures
            r@ == (BranchView { key: key@, hash: None, left: opt_seq(left), right: opt_seq(right) }),
    {
        Self { key, hash: None, left, right }
    }

    /// Keeps the branch in the store under its `hash`. Fails with
    /// `HashMissing`, and leaves the store as it is, where the branch has
    /// none.
    pub fn store<D: Database + ?Sized>(&self, db: &mut D) -> (r: Result<(), TrieError>)
        ensures
            match r {
                Ok(()) => self@.hash is Some && final(db).contents() == old(db).contents().insert(
                    self@.hash.unwrap(),
                    NodeView::Branch(self@),
                ),
                Err(e) => self@.hash is None && e == TrieError::HashMissing && final(db).contents()
                    == old(db).contents(),
            },
    {
        match &self.hash {
            Some(hash) => {
                db.insert(hash.as_slice(), Node::Branch(self.clone()));
                Ok(())
            },
            None => Err(TrieError::HashMissing),
        }
    }

    /// Computes the branch's digest and keeps the branch under it. Where the
    /// branch has no serialization the store stays as it is.
    pub fn hash_and_store<D: Database + ?Sized>(&mut self, db: &mut D) -> (r: Result<(), TrieError>)
        ensures
            match r {
                Ok(()) => branch_encodable(old(self)@) && final(self)@ == (BranchView {
                    hash: Some(branch_digest(old(self)@)),
                    ..old(self)@
                }) && final(db).contents() == old(db).contents().insert(
                    branch_digest(old(self)@),
                    NodeView::Branch(final(self)@),
                ),
                Err(e) => branch_error(old(self)@) == Some(e) && final(self)@ == (BranchView {
                    hash: None,
                    ..old(self)@
                }) && final(db).contents() == old(db).contents(),
            },
    {
        match self.hash() {
            Ok(()) => self.store(db),
            Err(e) => Err(e),
        }
    }

    /// Replaces both children. The `hash` field is left as it was, and is
    /// stale until the branch is hashed again.
    pub fn update(&mut self, left: Option<NodeHash>, right: Option<NodeHash>)
        ensures
            final(self)@ == (BranchView {
                left: opt_seq(left),
                right: opt_seq(right),
                ..old(self)@
            }),
    {
        self.left = left;
        self.right = right;
    }
}

impl Leaf {
    /// A leaf at `key` with no payload.
    pub fn empty(key: Key) -> (r: Self)
        ensures
            r@ == (LeafView { key: key@, hash: None, data: None }),
    {
        Self { key, hash: None, data: None }
    }

    /// A leaf that binds `key` to `data`, not hashed yet.
    pub fn new(key: Key, data: Option<Data>) -> (r: Self)
        ensures
            r@ == (LeafView { key: key@, hash: None, data: opt_seq(data) }),
    {
        Self { key, hash: None, data }
    }

    /// Computes the leaf's digest and keeps the leaf under it. Where the
    /// leaf has no serialization the store stays as it is.
    pub fn hash_and_store<D: Database + ?Sized>(&mut self, db: &mut D) -> (r: Result<(), TrieError>)
        ensures
            match r {
                Ok(()) => leaf_encodable(old(self)@) && final(self)@ == (LeafView {
                    hash: Some(leaf_digest(old(self)@)),
                    ..old(self)@
                }) && final(db).contents() == old(db).contents().insert(
                    leaf_digest(old(self)@),
                    NodeView::Leaf(final(self)@),
                ),
                Err(e) => !leaf_encodable(old(self)@) && e == TrieError::CodecError && final(self)@
                    == (LeafView { hash: None, ..old(self)@ }) && final(db).contents() == old(
                    db,
                ).contents(),
            },
    {
        match self.hash() {
            Ok(()) => self.store(db),
            Err(e) => Err(e),
        }
    }

    /// Keeps the leaf in the store under its `hash`. Fails with
    /// `HashMissing`, and leaves the store as it is, where the leaf has none.
    pub fn store<D: Database + ?Sized>(&self, db: &mut D) -> (r: Result<(), TrieError>)
        ensures
            match r {
                Ok(()) => self@.hash is Some && final(db).contents() == old(db).contents().insert(
                    self@.hash.unwrap(),
                    NodeView::Leaf(self@),
                ),
                Err(e) => self@.hash is None && e == TrieError::HashMissing && final(db).contents()
                    == old(db).contents(),
            },
    {
        match &self.hash {
            Some(hash) => {
                db.insert(hash.as_slice(), Node::Leaf(self.clone()));
                Ok(())
            },
            None => Err(TrieError::HashMissing),
        }
    }
}

} // verus!
