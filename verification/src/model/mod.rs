pub mod addressing;
pub mod canon;
pub mod growth;
pub mod lookup;
pub mod trie;
