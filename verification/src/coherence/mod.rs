//! Artifacts: cached token sequences shared between agents under a MESI protocol.

pub mod engine;
pub mod engine_laws;
pub mod engine_model;
pub mod entry;
pub mod ownership;
pub mod protocol_laws;
pub mod routing;
pub mod sync;

use crate::kv::cache::CacheError;
use crate::kv::tokens;
use crate::kv::BlockId;
use crate::kv::TokenId;
pub use engine::CoherenceEngine;
pub use sync::SyncEngine;
use vstd::prelude::*;

verus! {

/// The number of an agent.
pub type AgentId = usize;

/// The name of an artifact.
#[derive(Debug, Clone, Copy, PartialEq, Eq, Hash, Structural)]
pub struct ArtifactId(pub u64);

impl ArtifactId {
    /// The name of the artifact for `tokens`: their key.
    pub fn from_tokens(tokens: &[TokenId]) -> (id: Self)
        ensures
            id == ArtifactId(tokens::key_of(tokens@)),
    {
        ArtifactId(tokens::hash_tokens(tokens))
    }
}

/// How far an artifact may be used, and by whom.
#[derive(Debug, Clone, Copy, PartialEq, Eq, Structural)]
pub enum MesiState {
    /// Written by its owner and not yet shown to others.
    Modified,
    /// Held by its owner alone.
    Exclusive,
    /// Read by any number of agents.
    Shared,
    /// Without data.
    Invalid,
}

/// Why an operation on an artifact is refused.
#[derive(Debug, Clone, Copy, PartialEq, Eq, Structural)]
pub enum CoherenceError {
    /// No artifact has the name.
    NotFound,
    /// An artifact has the name already.
    AlreadyExists,
    /// The artifact's state does not allow it.
    WrongState,
    /// The agent does not own the artifact.
    NotOwner,
    /// The agent's last read is too many writes ago.
    KBoundExceeded,
    /// The cache refused the data.
    KvError(CacheError),
    /// A counter that the operation would raise is full.
    CounterFull,
}

/// Where a token sequence is served from.
#[derive(Debug)]
pub struct RouteResult {
    pub artifact_id: ArtifactId,
    pub matched_tokens: usize,
    pub blocks: Vec<BlockId>,
}

} // verus!
