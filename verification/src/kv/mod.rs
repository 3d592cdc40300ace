//! The block slab, the token trie that indexes it, and the cache made of both.

pub mod block;
pub mod cache;
pub mod cache_laws;
pub mod ledger;
pub mod tokens;
pub mod trie;
pub mod trie_laws;
pub mod trie_model;

pub use block::{BlockError, BlockSlab};
pub use cache::{CacheError, KvCache};
pub use trie::{DualRadixTrie, LookupResult};
use vstd::prelude::*;

verus! {

/// A token of a model's vocabulary.
pub type TokenId = u32;

/// The number of a block in the slab.
#[derive(Debug, Clone, Copy, PartialEq, Eq, Hash, Structural)]
pub struct BlockId(pub usize);

} // verus!
