use crate::error::TrieError;
use crate::store::types::{digest_of, opt_seq};
use crate::store::types::{Branch, BranchView, Leaf, LeafView, Node, NodeView, Root, RootView};
use vstd::prelude::*;
use vstd::slice::{slice_subrange, slice_to_vec};

verus! {

/// The length of a digest in bytes.
pub const DIGEST_LEN: usize = 32;

/// The tag that opens the serialization of a root.
pub const TAG_ROOT: u8 = 0;

/// The tag that opens the serialization of a branch.
pub const TAG_BRANCH: u8 = 1;

/// The tag that opens the serialization of a leaf.
pub const TAG_LEAF: u8 = 2;

/// A length in four bytes, most significant first.
pub open spec fn be32(n: nat) -> Seq<u8> {
    seq![
        (n / 16777216 % 256) as u8,
        (n / 65536 % 256) as u8,
        (n / 256 % 256) as u8,
        (n % 256) as u8,
    ]
}

/// The payload of a leaf: its data, and nothing where it has none.
pub open spec fn payload(leaf: LeafView) -> Seq<u8> {
    match leaf.data {
        Some(data) => data,
        None => Seq::empty(),
    }
}

/// A child slot of a root can be written when it is empty or holds a digest
/// of the right length.
pub open spec fn slot_encodable(slot: Option<Seq<u8>>) -> bool {
    slot is Some ==> slot.unwrap().len() == 32
}

/// A child slot of a root: one byte that says whether a digest follows, then
/// the digest.
pub open spec fn slot_image(slot: Option<Seq<u8>>) -> Seq<u8> {
    match slot {
        Some(digest) => seq![1u8] + digest,
        None => seq![0u8],
    }
}

/// A root has a serialization when both its child slots can be written.
pub open spec fn root_encodable(root: RootView) -> bool {
    slot_encodable(root.left) && slot_encodable(root.right)
}

/// The canonical serialization of a root: the tag, then the two child slots.
/// The `hash` field is no part of it.
pub open spec fn root_preimage(root: RootView) -> Seq<u8> {
    seq![0u8] + slot_image(root.left) + slot_image(root.right)
}

/// Why a branch has no serialization, if it has none: a child is missing,
/// or a length is not what the format can hold.
pub open spec fn branch_error(branch: BranchView) -> Option<TrieError> {
    if branch.left is None || branch.right is None {
        Some(TrieError::InvalidBranch)
    } else if branch.key.len() > u32::MAX || branch.left.unwrap().len() != 32
        || branch.right.unwrap().len() != 32 {
        Some(TrieError::CodecError)
    } else {
        None
    }
}

/// A branch has a serialization when it has both children, each a digest,
/// and a split position that its length field can hold.
pub open spec fn branch_encodable(branch: BranchView) -> bool {
    branch_error(branch) is None
}

/// The canonical serialization of a branch: the tag, the split position with
/// its length before it, and the two child digests.
pub open spec fn branch_preimage(branch: BranchView) -> Seq<u8> {
    seq![1u8] + be32(branch.key.len()) + branch.key + branch.left.unwrap() + branch.right.unwrap()
}

/// A leaf has a serialization when the length fields can hold the lengths
/// of its key and of its payload.
pub open spec fn leaf_encodable(leaf: LeafView) -> bool {
    leaf.key.len() <= u32::MAX && payload(leaf).len() <= u32::MAX
}

/// The canonical serialization of a leaf: the tag, the key and the payload,
/// each with its length before it.
pub open spec fn leaf_preimage(leaf: LeafView) -> Seq<u8> {
    seq![2u8] + be32(leaf.key.len()) + leaf.key + be32(payload(leaf).len()) + payload(leaf)
}

/// The digest of a root: the hash of its serialization.
pub open spec fn root_digest(root: RootView) -> Seq<u8> {
    digest_of(root_preimage(root))
}

/// The digest of a branch: the hash of its serialization.
pub open spec fn branch_digest(branch: BranchView) -> Seq<u8> {
    digest_of(branch_preimage(branch))
}

/// The digest of a leaf: the hash of its serialization.
pub open spec fn leaf_digest(leaf: LeafView) -> Seq<u8> {
    digest_of(leaf_preimage(leaf))
}

/// Why a node has no serialization, if it has none.
pub open spec fn node_error(node: NodeView) -> Option<TrieError> {
    match node {
        NodeView::Root(root) => if root_encodable(root) {
            None
        } else {
            Some(TrieError::CodecError)
        },
        NodeView::Branch(branch) => branch_error(branch),
        NodeView::Leaf(leaf) => if leaf_encodable(leaf) {
            None
        } else {
            Some(TrieError::CodecError)
        },
    }
}

/// The canonical serialization of a node.
pub open spec fn node_preimage(node: NodeView) -> Seq<u8> {
    match node {
        NodeView::Root(root) => root_preimage(root),
        NodeView::Branch(branch) => branch_preimage(branch),
        NodeView::Leaf(leaf) => leaf_preimage(leaf),
    }
}

/// The digest of a node: the hash of its serialization.
pub open spec fn node_digest(node: NodeView) -> Seq<u8> {
    digest_of(node_preimage(node))
}

pub(crate) fn push_be32(out: &mut Vec<u8>, n: u32)
    ensures
        final(out)@ == old(out)@ + be32(n as nat),
{
    out.push((n / 16777216) as u8);
    out.push((n / 65536 % 256) as u8);
    out.push((n / 256 % 256) as u8);
    out.push((n % 256) as u8);
    assert(out@ =~= old(out)@ + be32(n as nat));
}

fn push_slot(out: &mut Vec<u8>, slot: &Option<Vec<u8>>) -> (ok: bool)
    ensures
        ok == slot_encodable(opt_seq(*slot)),
        ok ==> final(out)@ == old(out)@ + slot_image(opt_seq(*slot)),
        !ok ==> final(out)@ == old(out)@,
{
    match slot {
        Some(digest) => {
            if digest.len() != DIGEST_LEN {
                return false;
            }
            out.push(1u8);
            out.extend_from_slice(digest.as_slice());
            assert(out@ =~= old(out)@ + slot_image(opt_seq(*slot)));
            true
        },
        None => {
            out.push(0u8);
            assert(out@ =~= old(out)@ + slot_image(opt_seq(*slot)));
            true
        },
    }
}

/// Serializes a root. Fails with `CodecError` where a child digest has not
/// the length of a digest.
pub fn encode_root(root: &Root) -> (r: Result<Vec<u8>, TrieError>)
    ensures
        match r {
            Ok(bytes) => root_encodable(root@) && bytes@ == root_preimage(root@),
            Err(e) => !root_encodable(root@) && e == TrieError::CodecError,
        },
{
    let mut out: Vec<u8> = Vec::new();
    out.push(TAG_ROOT);
    if !push_slot(&mut out, &root.left) {
        return Err(TrieError::CodecError);
    }
    if !push_slot(&mut out, &root.right) {
        return Err(TrieError::CodecError);
    }
    assert(out@ =~= root_preimage(root@));
    Ok(out)
}

/// Serializes a branch. Fails with `InvalidBranch` where a child is missing,
/// and with `CodecError` where a child digest has not the length of a digest
/// or the split position is too long for its length field.
pub fn encode_branch(branch: &Branch) -> (r: Result<Vec<u8>, TrieError>)
    ensures
        match r {
            Ok(bytes) => branch_encodable(branch@) && bytes@ == branch_preimage(branch@),
            Err(e) => branch_error(branch@) == Some(e),
        },
{
    match (&branch.left, &branch.right) {
        (Some(left), Some(right)) => {
            if branch.key.len() > u32::MAX as usize || left.len() != DIGEST_LEN || right.len()
                != DIGEST_LEN {
                return Err(TrieError::CodecError);
            }
            let mut out: Vec<u8> = Vec::new();
            out.push(TAG_BRANCH);
            push_be32(&mut out, branch.key.len() as u32);
            out.extend_from_slice(branch.key.as_slice());
            out.extend_from_slice(left.as_slice());
            out.extend_from_slice(right.as_slice());
            assert(out@ =~= branch_preimage(branch@));
            Ok(out)
        },
        _ => Err(TrieError::InvalidBranch),
    }
}

/// Serializes a leaf. Fails with `CodecError` where the key or the payload
/// is too long for its length field.
pub fn encode_leaf(leaf: &Leaf) -> (r: Result<Vec<u8>, TrieError>)
    ensures
        match r {
            Ok(bytes) => leaf_encodable(leaf@) && bytes@ == leaf_preimage(leaf@),
            Err(e) => !leaf_encodable(leaf@) && e == TrieError::CodecError,
        },
{
    if leaf.key.len() > u32::MAX as usize {
        return Err(TrieError::CodecError);
    }
    let mut out: Vec<u8> = Vec::new();
    out.push(TAG_LEAF);
    push_be32(&mut out, leaf.key.len() as u32);
    out.extend_from_slice(leaf.key.as_slice());
    match &leaf.data {
        Some(data) => {
            if data.len() > u32::MAX as usize {
                return Err(TrieError::CodecError);
            }
            push_be32(&mut out, data.len() as u32);
            out.extend_from_slice(data.as_slice());
        },
        None => {
            push_be32(&mut out, 0u32);
        },
    }
    assert(out@ =~= leaf_preimage(leaf@));
    Ok(out)
}

/// Serializes a node of any variant.
pub fn encode_node(node: &Node) -> (r: Result<Vec<u8>, TrieError>)
    ensures
        match r {
            Ok(bytes) => node_error(node@) is None && bytes@ == node_preimage(node@),
            Err(e) => node_error(node@) == Some(e),
        },
{
    match node {
        Node::Root(root) => encode_root(root),
        Node::Branch(branch) => encode_branch(branch),
        Node::Leaf(leaf) => encode_leaf(leaf),
    }
}

/// The number that four bytes hold, most significant first.
pub open spec fn be32_value(bytes: Seq<u8>) -> nat {
    (bytes[0] as nat) * 16777216 + (bytes[1] as nat) * 65536 + (bytes[2] as nat) * 256 + (
    bytes[3] as nat)
}

/// A length that fits its field is read back as it was written, and four
/// bytes are written back as they were read.
pub proof fn lemma_be32(n: nat, bytes: Seq<u8>)
    ensures
        be32(n).len() == 4,
        n <= u32::MAX ==> be32_value(be32(n)) == n,
        bytes.len() == 4 ==> be32_value(bytes) <= u32::MAX && be32(be32_value(bytes)) == bytes,
{
    if n <= u32::MAX {
        let m = n as u32;
        assert((m / 16777216 % 256) * 16777216 + (m / 65536 % 256) * 65536 + (m / 256 % 256)
            * 256 + m % 256 == m) by (bit_vector);
    }
    if bytes.len() == 4 {
        let a = bytes[0];
        let b = bytes[1];
        let c = bytes[2];
        let d = bytes[3];
        let v = (a as u32) * 16777216 + (b as u32) * 65536 + (c as u32) * 256 + (d as u32);
        assert({
            let v = (a as u32) * 16777216 + (b as u32) * 65536 + (c as u32) * 256 + (d as u32);
            &&& v <= 0xffff_ffff
            &&& v / 16777216 % 256 == a
            &&& v / 65536 % 256 == b
            &&& v / 256 % 256 == c
            &&& v % 256 == d
        }) by (bit_vector);
        assert(be32_value(bytes) == v);
        assert(be32(be32_value(bytes)) =~= bytes);
    }
}

/// A node as it comes out of its serialization: without hash, and a leaf
/// without payload has no data.
pub open spec fn plain(node: NodeView) -> NodeView {
    match node {
        NodeView::Root(root) => NodeView::Root(RootView { hash: None, ..root }),
        NodeView::Branch(branch) => NodeView::Branch(BranchView { hash: None, ..branch }),
        NodeView::Leaf(leaf) => NodeView::Leaf(
            LeafView {
                key: leaf.key,
                hash: None,
                data: if payload(leaf).len() == 0 {
                    None
                } else {
                    Some(payload(leaf))
                },
            },
        ),
    }
}

/// The child slot of a root that is written at a position, and the position
/// behind it.
pub open spec fn parse_slot(bytes: Seq<u8>, at: int) -> Option<(Option<Seq<u8>>, int)> {
    if at < 0 || at >= bytes.len() {
        None
    } else if bytes[at] == 0 {
        Some((None, at + 1))
    } else if bytes[at] == 1 && at + 33 <= bytes.len() {
        Some((Some(bytes.subrange(at + 1, at + 33)), at + 33))
    } else {
        None
    }
}

/// The node that is written at a position, and the position behind it.
/// There is none where the bytes from that position on do not begin with
/// the serialization of a node.
#[verifier::opaque]
pub open spec fn parse_node(bytes: Seq<u8>, at: int) -> Option<(NodeView, int)> {
    if at < 0 || at >= bytes.len() {
        None
    } else if bytes[at] == 0 {
        match parse_slot(bytes, at + 1) {
            Some((left, mid)) => match parse_slot(bytes, mid) {
                Some((right, end)) => Some(
                    (NodeView::Root(RootView { hash: None, left, right }), end),
                ),
                None => None,
            },
            None => None,
        }
    } else if bytes[at] == 1 {
        if at + 5 <= bytes.len() {
            let n = be32_value(bytes.subrange(at + 1, at + 5));
            if at + 5 + n + 64 <= bytes.len() {
                Some(
                    (
                        NodeView::Branch(
                            BranchView {
                                key: bytes.subrange(at + 5, at + 5 + n),
                                hash: None,
                                left: Some(bytes.subrange(at + 5 + n, at + 5 + n + 32)),
                                right: Some(bytes.subrange(at + 5 + n + 32, at + 5 + n + 64)),
                            },
                        ),
                        at + 5 + n + 64,
                    ),
                )
            } else {
                None
            }
        } else {
            None
        }
    } else if bytes[at] == 2 {
        if at + 5 <= bytes.len() {
            let n = be32_value(bytes.subrange(at + 1, at + 5));
            if at + 5 + n + 4 <= bytes.len() {
                let m = be32_value(bytes.subrange(at + 5 + n, at + 9 + n));
                if at + 9 + n + m <= bytes.len() {
                    Some(
                        (
                            NodeView::Leaf(
                                LeafView {
                                    key: bytes.subrange(at + 5, at + 5 + n),
                                    hash: None,
                                    data: if m == 0 {
                                        None
                                    } else {
                                        Some(bytes.subrange(at + 9 + n, at + 9 + n + m))
                                    },
                                },
                            ),
                            at + 9 + n + m,
                        ),
                    )
                } else {
                    None
                }
            } else {
                None
            }
        } else {
            None
        }
    } else {
        None
    }
}

/// The node that bytes are the serialization of, if they are one.
pub open spec fn parse(bytes: Seq<u8>) -> Option<NodeView> {
    match parse_node(bytes, 0) {
        Some((node, end)) => if end == bytes.len() {
            Some(node)
        } else {
            None
        },
        None => None,
    }
}

/// What is parsed serializes to the bytes that it was parsed from.
pub proof fn law_parsed_encodes(bytes: Seq<u8>, at: int)
    ensures
        parse_node(bytes, at) matches Some((node, end)) ==> {
            &&& 0 <= at < end <= bytes.len()
            &&& node_error(node) is None
            &&& node_preimage(node) == bytes.subrange(at, end)
            &&& plain(node) == node
        },
{
    reveal(parse_node);
    if let Some((node, end)) = parse_node(bytes, at) {
        lemma_be32(0, bytes.subrange(at + 1, at + 5));
        match node {
            NodeView::Root(root) => {
                assert(node_preimage(node) =~= bytes.subrange(at, end));
            },
            NodeView::Branch(branch) => {
                let n = be32_value(bytes.subrange(at + 1, at + 5));
                assert(branch.key.len() == n);
                assert(node_preimage(node) =~= bytes.subrange(at, end));
            },
            NodeView::Leaf(leaf) => {
                let n = be32_value(bytes.subrange(at + 1, at + 5));
                lemma_be32(0, bytes.subrange(at + 5 + n, at + 9 + n));
                let m = be32_value(bytes.subrange(at + 5 + n, at + 9 + n));
                assert(leaf.key.len() == n);
                assert(payload(leaf).len() == m);
                assert(node_preimage(node) =~= bytes.subrange(at, end));
            },
        }
    }
}

/// The serialization of a node is parsed as that node, wherever it stands
/// and whatever follows it.
pub proof fn law_encoded_parses(node: NodeView, bytes: Seq<u8>, at: int)
    requires
        node_error(node) is None,
        0 <= at,
        at + node_preimage(node).len() <= bytes.len(),
        bytes.subrange(at, at + node_preimage(node).len()) == node_preimage(node),
    ensures
        parse_node(bytes, at) == Some((plain(node), at + node_preimage(node).len())),
{
    reveal(parse_node);
    let image = node_preimage(node);
    match node {
        NodeView::Root(root) => {
            let left = slot_image(root.left);
            let right = slot_image(root.right);
            let mid: int = 1 + left.len() as int;
            lemma_window(bytes, at, image, 0, 1);
            lemma_window(bytes, at, image, 1, 2);
            lemma_window(bytes, at, image, mid, mid + 1);
            assert(image.subrange(1, 2)[0] == left[0]);
            assert(image.subrange(mid, mid + 1)[0] == right[0]);
            if root.left is Some {
                lemma_window(bytes, at, image, 2, 34);
                assert(image.subrange(2, 34) =~= root.left.unwrap());
            }
            if root.right is Some {
                lemma_window(bytes, at, image, mid + 1, mid + 33);
                assert(image.subrange(mid + 1, mid + 33) =~= root.right.unwrap());
            }
        },
        NodeView::Branch(branch) => {
            let n = branch.key.len() as int;
            lemma_be32(n as nat, Seq::empty());
            lemma_window(bytes, at, image, 0, 1);
            lemma_window(bytes, at, image, 1, 5);
            lemma_window(bytes, at, image, 5, 5 + n);
            lemma_window(bytes, at, image, 5 + n, 5 + n + 32);
            lemma_window(bytes, at, image, 5 + n + 32, 5 + n + 64);
            assert(image.subrange(1, 5) =~= be32(n as nat));
            assert(image.subrange(5, 5 + n) =~= branch.key);
            assert(image.subrange(5 + n, 5 + n + 32) =~= branch.left.unwrap());
            assert(image.subrange(5 + n + 32, 5 + n + 64) =~= branch.right.unwrap());
        },
        NodeView::Leaf(leaf) => {
            let n = leaf.key.len() as int;
            let m = payload(leaf).len() as int;
            lemma_be32(n as nat, Seq::empty());
            lemma_be32(m as nat, Seq::empty());
            lemma_window(bytes, at, image, 0, 1);
            lemma_window(bytes, at, image, 1, 5);
            lemma_window(bytes, at, image, 5, 5 + n);
            lemma_window(bytes, at, image, 5 + n, 9 + n);
            lemma_window(bytes, at, image, 9 + n, 9 + n + m);
            assert(image.subrange(1, 5) =~= be32(n as nat));
            assert(image.subrange(5, 5 + n) =~= leaf.key);
            assert(image.subrange(5 + n, 9 + n) =~= be32(m as nat));
            assert(image.subrange(9 + n, 9 + n + m) =~= payload(leaf));
        },
    }
}

/// A part of bytes that stand within other bytes.
pub proof fn lemma_window(bytes: Seq<u8>, at: int, image: Seq<u8>, from: int, to: int)
    requires
        0 <= at,
        at + image.len() <= bytes.len(),
        bytes.subrange(at, at + image.len()) == image,
        0 <= from <= to <= image.len(),
    ensures
        bytes.subrange(at + from, at + to) == image.subrange(from, to),
        from < to ==> bytes[at + from] == image.subrange(from, to)[0],
{
    let whole = bytes.subrange(at, at + image.len());
    assert forall|i: int| 0 <= i < to - from implies bytes.subrange(at + from, at + to)[i]
        == image.subrange(from, to)[i] by {
        assert(whole[from + i] == bytes[at + from + i]);
    }
    assert(bytes.subrange(at + from, at + to) =~= image.subrange(from, to));
    if from < to {
        assert(bytes.subrange(at + from, at + to)[0] == bytes[at + from]);
    }
}

/// The codec is canonical: nodes that have one serialization have one
/// content. They are of one variant, and have the same children, the same
/// key and the same payload; only the hash, which is no part of the
/// serialization, may differ.
pub proof fn law_canonical(a: NodeView, b: NodeView)
    requires
        node_error(a) is None,
        node_error(b) is None,
        node_preimage(a) == node_preimage(b),
    ensures
        plain(a) == plain(b),
{
    let bytes = node_preimage(a);
    assert(bytes.subrange(0, bytes.len() as int) =~= bytes);
    law_encoded_parses(a, bytes, 0);
    law_encoded_parses(b, bytes, 0);
}

pub(crate) fn read_be32(bytes: &[u8], at: usize) -> (r: Option<usize>)
    ensures
        match r {
            Some(n) => at + 4 <= bytes@.len() && n == be32_value(
                bytes@.subrange(at as int, at + 4),
            ),
            None => at + 4 > bytes@.len(),
        },
{
    if bytes.len() < 4 || at > bytes.len() - 4 {
        return None;
    }
    let n: u32 = (bytes[at] as u32) * 16777216 + (bytes[at + 1] as u32) * 65536 + (bytes[at
        + 2] as u32) * 256 + (bytes[at + 3] as u32);
    Some(n as usize)
}

pub(crate) fn take(bytes: &[u8], from: usize, to: usize) -> (v: Vec<u8>)
    requires
        from <= to <= bytes@.len(),
    ensures
        v@ == bytes@.subrange(from as int, to as int),
{
    slice_to_vec(slice_subrange(bytes, from, to))
}

fn read_slot(bytes: &[u8], at: usize) -> (r: Option<(Option<Vec<u8>>, usize)>)
    ensures
        match r {
            Some((slot, end)) => parse_slot(bytes@, at as int) == Some((opt_seq(slot), end as int)),
            None => parse_slot(bytes@, at as int) is None,
        },
{
    if at >= bytes.len() {
        return None;
    }
    if bytes[at] == 0 {
        Some((None, at + 1))
    } else if bytes[at] == 1 && bytes.len() - at >= DIGEST_LEN + 1 {
        Some((Some(take(bytes, at + 1, at + 1 + DIGEST_LEN)), at + 1 + DIGEST_LEN))
    } else {
        None
    }
}

/// Reads the node that is written at `at`, and says where it ends. Fails
/// with `CodecError` where the bytes from `at` on do not begin with the
/// serialization of a node.
pub fn decode_node_at(bytes: &[u8], at: usize) -> (r: Result<(Node, usize), TrieError>)
    ensures
        match r {
            Ok((node, end)) => parse_node(bytes@, at as int) == Some((node@, end as int)),
            Err(e) => parse_node(bytes@, at as int) is None && e == TrieError::CodecError,
        },
{
    proof {
        reveal(parse_node);
    }
    if at >= bytes.len() {
        return Err(TrieError::CodecError);
    }
    let tag = bytes[at];
    if tag == TAG_ROOT {
        let (left, mid) = match read_slot(bytes, at + 1) {
            Some(found) => found,
            None => {
                return Err(TrieError::CodecError);
            },
        };
        let (right, end) = match read_slot(bytes, mid) {
            Some(found) => found,
            None => {
                return Err(TrieError::CodecError);
            },
        };
        Ok((Node::Root(Root { hash: None, left, right }), end))
    } else if tag == TAG_BRANCH {
        let n = match read_be32(bytes, at + 1) {
            Some(n) => n,
            None => {
                return Err(TrieError::CodecError);
            },
        };
        let from = at + 5;
        if bytes.len() - from < 2 * DIGEST_LEN || n > bytes.len() - from - 2 * DIGEST_LEN {
            return Err(TrieError::CodecError);
        }
        let key = take(bytes, from, from + n);
        let left = take(bytes, from + n, from + n + DIGEST_LEN);
        let right = take(bytes, from + n + DIGEST_LEN, from + n + 2 * DIGEST_LEN);
        Ok(
            (
                Node::Branch(Branch { key, hash: None, left: Some(left), right: Some(right) }),
                from + n + 2 * DIGEST_LEN,
            ),
        )
    } else if tag == TAG_LEAF {
        let n = match read_be32(bytes, at + 1) {
            Some(n) => n,
            None => {
                return Err(TrieError::CodecError);
            },
        };
        let from = at + 5;
        if n > bytes.len() - from {
            return Err(TrieError::CodecError);
        }
        let key = take(bytes, from, from + n);
        let m = match read_be32(bytes, from + n) {
            Some(m) => m,
            None => {
                return Err(TrieError::CodecError);
            },
        };
        let start = from + n + 4;
        if m > bytes.len() - start {
            return Err(TrieError::CodecError);
        }
        let data = if m == 0 {
            None
        } else {
            Some(take(bytes, start, start + m))
        };
        Ok((Node::Leaf(Leaf { key, hash: None, data }), start + m))
    } else {
        Err(TrieError::CodecError)
    }
}

/// Reads a node back from its serialization. Fails with `CodecError` where
/// the bytes are not the serialization of a node. The node has no hash: the
/// hash is no part of the serialization.
pub fn decode_node(bytes: &[u8]) -> (r: Result<Node, TrieError>)
    ensures
        match r {
            Ok(node) => parse(bytes@) == Some(node@),
            Err(e) => parse(bytes@) is None && e == TrieError::CodecError,
        },
{
    match decode_node_at(bytes, 0) {
        Ok((node, end)) => if end == bytes.len() {
            Ok(node)
        } else {
            Err(TrieError::CodecError)
        },
        Err(e) => Err(e),
    }
}

} // verus!
