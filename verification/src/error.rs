use vstd::prelude::*;
use vstd::std_specs::convert::FromSpecImpl;

verus! {

/// The ways in which an operation on the trie can fail.
#[derive(Clone, Copy, Debug, PartialEq, Eq, Structural)]
pub enum TrieError {
    /// The key of the leaf to insert is already bound under the given root.
    DuplicateLeaf,
    /// A walk came to a node that has no child where it needs one, or a
    /// node stands where it cannot be a child.
    InvalidChild,
    /// A leaf, or none, stands where a branch or a root should.
    InvalidParent,
    /// A branch without split position or with fewer than two children, or a
    /// chain of branches longer than a key.
    InvalidBranch,
    /// The store holds no node under a digest that a stored node refers to.
    MissingNode,
    /// A node that has no canonical serialization, or bytes that are none.
    CodecError,
    /// A node without a computed hash was to be stored or referred to.
    HashMissing,
    /// A Merkle proof folds to another digest than the expected one.
    RootMismatch,
}

impl TrieError {
    /// The name of the error kind as text.
    pub open spec fn spec_name(self) -> Seq<char> {
        match self {
            TrieError::DuplicateLeaf => "DuplicateLeaf"@,
            TrieError::InvalidChild => "InvalidChild"@,
            TrieError::InvalidParent => "InvalidParent"@,
            TrieError::InvalidBranch => "InvalidBranch"@,
            TrieError::MissingNode => "MissingNode"@,
            TrieError::CodecError => "CodecError"@,
            TrieError::HashMissing => "HashMissing"@,
            TrieError::RootMismatch => "RootMismatch"@,
        }
    }

    /// The name of the error kind, which is the message of the error.
    pub fn name(&self) -> (text: &'static str)
        ensures
            text@ == self.spec_name(),
    {
        match self {
            TrieError::DuplicateLeaf => "DuplicateLeaf",
            TrieError::InvalidChild => "InvalidChild",
            TrieError::InvalidParent => "InvalidParent",
            TrieError::InvalidBranch => "InvalidBranch",
            TrieError::MissingNode => "MissingNode",
            TrieError::CodecError => "CodecError",
            TrieError::HashMissing => "HashMissing",
            TrieError::RootMismatch => "RootMismatch",
        }
    }
}

/// `std::io::Error`, of which nothing is read here.
#[verifier::external_type_specification]
#[verifier::external_body]
pub struct ExIoError(std::io::Error);

/// Makes an error of std's I/O with `std::io::Error::new`: one of the kind
/// `Other` that carries `message`. Nothing is claimed of it.
#[verifier::external_body]
fn other_io_error(message: &str) -> std::io::Error {
    std::io::Error::new(std::io::ErrorKind::Other, message)
}

impl From<TrieError> for std::io::Error {
    /// An I/O error of the kind `Other` with the name of the error kind as
    /// its message.
    fn from(e: TrieError) -> (r: Self) {
        other_io_error(e.name())
    }
}

/// Contracts cannot read an I/O error, so none says what the conversion
/// gives.
impl FromSpecImpl<TrieError> for std::io::Error {
    open spec fn obeys_from_spec() -> bool {
        false
    }

    open spec fn from_spec(e: TrieError) -> Self {
        arbitrary()
    }
}

} // verus!
