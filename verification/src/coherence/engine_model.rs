//! What the coherence engine is, and what each of its operations does to it.

use crate::coherence::entry::EntryView;
use crate::coherence::routing;
use crate::coherence::routing::RouteView;
use crate::coherence::{AgentId, ArtifactId, CoherenceError, MesiState, RouteResult};
use crate::kv::cache::CacheView;
use crate::kv::ledger;
use crate::kv::tokens;
use crate::kv::BlockId;
use crate::kv::TokenId;
use vstd::prelude::*;

verus! {

/// What the engine is: its artifacts by name, the routes to them, and the cache
/// that holds their data.
#[verifier::ext_equal]
pub struct EngineView {
    pub routes: RouteView,
    pub artifacts: Map<u64, EntryView>,
    pub kv: CacheView,
    pub k_bound: u64,
}

impl EntryView {
    /// A valid artifact has one cached block for each of its keys, an invalid one
    /// has neither blocks nor sharers; there is a key for each block of the tokens.
    pub open spec fn wf(self, b: nat) -> bool {
        &&& self.tokens.len() == self.keys.len() * b
        &&& self.blocks.len() == if self.state == MesiState::Invalid {
            0
        } else {
            self.keys.len()
        }
        &&& self.state == MesiState::Invalid ==> self.sharers == Set::<AgentId>::empty()
    }

    /// The tokens of a valid artifact are those of its blocks.
    pub open spec fn sized(self, b: nat) -> bool {
        self.state != MesiState::Invalid ==> self.tokens.len() == self.blocks.len() * b
    }

    /// The artifact is filed under the keys of its tokens.
    pub open spec fn filed(self, b: nat) -> bool {
        self.keys == tokens::keys_of(self.tokens, b)
    }

    /// The route that the artifact is filed at.
    pub open spec fn path(self, b: nat) -> Seq<(u64, Seq<TokenId>)> {
        routing::path_of(self.keys, self.tokens, b)
    }

    /// The artifact can be found at the end of `path`.
    pub open spec fn routed_at(self, b: nat, path: Seq<(u64, Seq<TokenId>)>) -> bool {
        self.is_readable() && 0 < self.keys.len() && self.path(b) == path
    }

    /// The artifact is readable and covers some first blocks of `query`.
    pub open spec fn covers(self, b: nat, query: Seq<(u64, Seq<TokenId>)>) -> bool {
        &&& self.is_readable()
        &&& 0 < self.keys.len() <= query.len()
        &&& query.take(self.keys.len() as int) == self.path(b)
    }

    /// Claimed by `agent`.
    pub open spec fn acquired(self, agent: AgentId) -> EntryView {
        EntryView {
            state: MesiState::Exclusive,
            owner: Some(agent),
            tokens: Seq::empty(),
            keys: Seq::empty(),
            ..self
        }
    }

    /// Without owner, sharers and data. Who has seen what is kept.
    pub open spec fn invalidated(self) -> EntryView {
        EntryView {
            state: MesiState::Invalid,
            owner: None,
            sharers: Set::empty(),
            blocks: Seq::empty(),
            ..self
        }
    }

    /// `agent` has read before, and more than `k` versions ago.
    pub open spec fn too_stale(self, agent: AgentId, k: u64) -> bool {
        self.seen.contains_key(agent) && self.ver - self.seen[agent] > k
    }

    /// Shared with `agent`, who has now seen the current version.
    pub open spec fn read_by(self, agent: AgentId) -> EntryView {
        EntryView {
            state: MesiState::Shared,
            owner: None,
            sharers: self.sharers.insert(agent),
            seen: self.seen.insert(agent, self.ver),
            ..self
        }
    }

    /// Written by `agent`: a new version, which the writer has seen.
    pub open spec fn written(
        self,
        agent: AgentId,
        blocks: Seq<BlockId>,
        tokens: Seq<TokenId>,
        keys: Seq<u64>,
    ) -> EntryView {
        EntryView {
            state: MesiState::Modified,
            ver: (self.ver + 1) as u64,
            seen: self.seen.insert(agent, (self.ver + 1) as u64),
            blocks,
            tokens,
            keys,
            ..self
        }
    }

    /// Shown to others again.
    pub open spec fn written_back(self) -> EntryView {
        EntryView { state: MesiState::Exclusive, ..self }
    }
}

/// An operation of the engine, with what it is given.
pub enum EngineOp {
    Register {
        id: ArtifactId,
        tokens: Seq<TokenId>,
        keys: Seq<u64>,
        data: Seq<Seq<u8>>,
        agent: AgentId,
    },
    Acquire { id: ArtifactId, agent: AgentId },
    Invalidate { id: ArtifactId },
    Read { id: ArtifactId, agent: AgentId },
    Write {
        id: ArtifactId,
        agent: AgentId,
        tokens: Seq<TokenId>,
        keys: Seq<u64>,
        data: Seq<Seq<u8>>,
    },
    Writeback { id: ArtifactId },
    Fork {
        id: ArtifactId,
        tokens: Seq<TokenId>,
        keys: Seq<u64>,
        source: ArtifactId,
        agent: AgentId,
    },
}

impl EngineOp {
    /// The artifact that the operation is about.
    pub open spec fn target(self) -> ArtifactId {
        match self {
            EngineOp::Register { id, .. } => id,
            EngineOp::Acquire { id, .. } => id,
            EngineOp::Invalidate { id } => id,
            EngineOp::Read { id, .. } => id,
            EngineOp::Write { id, .. } => id,
            EngineOp::Writeback { id } => id,
            EngineOp::Fork { id, .. } => id,
        }
    }

    /// The operation is given one key for each block of its tokens.
    pub open spec fn keyed(self, b: nat) -> bool {
        match self {
            EngineOp::Register { tokens, keys, .. } => keys.len() == tokens::block_count(
                tokens,
                b,
            ),
            EngineOp::Write { tokens, keys, .. } => keys.len() == tokens::block_count(tokens, b),
            EngineOp::Fork { tokens, keys, .. } => keys.len() == tokens::block_count(tokens, b),
            _ => true,
        }
    }

    /// The keys that the operation is given are those of its tokens.
    pub open spec fn filed(self, b: nat) -> bool {
        match self {
            EngineOp::Register { tokens, keys, .. } => keys == tokens::keys_of(tokens, b),
            EngineOp::Write { tokens, keys, .. } => keys == tokens::keys_of(tokens, b),
            EngineOp::Fork { tokens, keys, .. } => keys == tokens::keys_of(tokens, b),
            _ => true,
        }
    }
}

impl EngineView {
    /// An engine without artifacts.
    pub open spec fn fresh(b: nat, capacity: usize, stride: usize, k_bound: u64) -> EngineView {
        EngineView {
            routes: RouteView::empty(),
            artifacts: Map::empty(),
            kv: CacheView::fresh(b, capacity, stride),
            k_bound,
        }
    }

    /// Artifact `id` exists.
    pub open spec fn has(self, id: ArtifactId) -> bool {
        self.artifacts.contains_key(id.0)
    }

    /// Artifact `id`.
    pub open spec fn entry(self, id: ArtifactId) -> EntryView {
        self.artifacts[id.0]
    }

    /// The engine with artifact `id` changed.
    pub open spec fn put(self, id: ArtifactId, entry: EntryView) -> EngineView {
        EngineView { artifacts: self.artifacts.insert(id.0, entry), ..self }
    }

    /// Every artifact is well formed and its blocks are blocks of the cache.
    pub open spec fn artifacts_wf(self, b: nat) -> bool {
        forall|x: u64|
            #![trigger self.artifacts[x]]
            self.artifacts.contains_key(x) ==> {
                &&& self.artifacts[x].wf(b)
                &&& forall|j: int|
                    0 <= j < self.artifacts[x].blocks.len() ==> self.kv.slab.has(
                        #[trigger] self.artifacts[x].blocks[j],
                    )
            }
    }

    /// Exactly the readable artifacts with some blocks are filed, each once, at the
    /// end of its route.
    pub open spec fn routes_wf(self, b: nat) -> bool {
        &&& self.routes.wf()
        &&& forall|path: Seq<(u64, Seq<TokenId>)>|
            #![trigger self.routes.at(path)]
            self.routes.at(path).no_duplicates()
        &&& forall|path: Seq<(u64, Seq<TokenId>)>, id: ArtifactId| #[trigger]
            self.routes.at(path).contains(id) <==> self.has(id) && self.entry(id).routed_at(
                b,
                path,
            )
    }

    /// The blocks that each artifact lists.
    pub open spec fn lists(self) -> Map<u64, Seq<BlockId>> {
        self.artifacts.map_values(|entry: EntryView| entry.blocks)
    }

    /// Every block is referenced once for each artifact that lists it, and no block
    /// is referenced otherwise; every block of an artifact can be read.
    pub open spec fn owned(self) -> bool {
        ledger::accounted(self.kv, self.lists(), Seq::empty(), 0)
    }

    /// The engine is well formed.
    pub open spec fn wf(self, b: nat) -> bool {
        &&& 0 < b
        &&& self.kv.wf(b)
        &&& self.artifacts_wf(b)
        &&& self.routes_wf(b)
        &&& self.owned()
    }

    /// Every artifact is coherent: the MESI protocol is kept.
    pub open spec fn coherent(self) -> bool {
        forall|x: u64|
            #![trigger self.artifacts[x]]
            self.artifacts.contains_key(x) ==> self.artifacts[x].coherent(self.k_bound)
    }

    /// Every artifact is filed under the keys of its tokens.
    pub open spec fn filed(self, b: nat) -> bool {
        forall|x: u64|
            #![trigger self.artifacts[x]]
            self.artifacts.contains_key(x) ==> self.artifacts[x].filed(b)
    }

    /// Every artifact is filed under the keys of its tokens, and is coherent.
    pub open spec fn orderly(self, b: nat) -> bool {
        self.filed(b) && self.coherent()
    }

    /// The data for artifact `id` is stored, and the artifact filed at its route. Where
    /// the data cannot be stored, there is no artifact.
    pub open spec fn after_register_keyed(
        self,
        b: nat,
        id: ArtifactId,
        tokens: Seq<TokenId>,
        keys: Seq<u64>,
        data: Seq<Seq<u8>>,
        agent: AgentId,
    ) -> (EngineView, Result<ArtifactId, CoherenceError>) {
        if self.has(id) {
            (self, Err(CoherenceError::AlreadyExists))
        } else {
            match self.kv.after_store(b, tokens, data, keys, Seq::empty()) {
                (kv, Err(e)) => (EngineView { kv, ..self }, Err(CoherenceError::KvError(e))),
                (kv, Ok(blocks)) => (
                    EngineView {
                        routes: self.routes.with(routing::path_of(keys, tokens, b), id),
                        artifacts: self.artifacts.insert(
                            id.0,
                            EntryView::exclusive(agent, blocks, tokens, keys),
                        ),
                        kv,
                        ..self
                    },
                    Ok(id),
                ),
            }
        }
    }

    /// No counter stands in the way of a registration of `id`.
    pub open spec fn register_counts(
        self,
        b: nat,
        id: ArtifactId,
        tokens: Seq<TokenId>,
        keys: Seq<u64>,
    ) -> bool {
        self.has(id) || self.kv.can_share(b, tokens, keys)
    }

    /// The same, with the name and the keys that `tokens` have. Where a block to be
    /// shared is referenced as often as can be counted, nothing changes.
    pub open spec fn after_register(
        self,
        b: nat,
        tokens: Seq<TokenId>,
        data: Seq<Seq<u8>>,
        agent: AgentId,
    ) -> (EngineView, Result<ArtifactId, CoherenceError>) {
        let id = ArtifactId(tokens::key_of(tokens));
        let keys = tokens::keys_of(tokens, b);
        if self.register_counts(b, id, tokens, keys) {
            self.after_register_keyed(b, id, tokens, keys, data, agent)
        } else {
            (self, Err(CoherenceError::CounterFull))
        }
    }

    /// An invalid artifact is claimed by `agent`.
    pub open spec fn after_acquire(self, id: ArtifactId, agent: AgentId) -> (
        EngineView,
        Result<(), CoherenceError>,
    ) {
        if !self.has(id) {
            (self, Err(CoherenceError::NotFound))
        } else if self.entry(id).state != MesiState::Invalid {
            (self, Err(CoherenceError::WrongState))
        } else {
            (self.put(id, self.entry(id).acquired(agent)), Ok(()))
        }
    }

    /// A readable artifact gives up its data and its place on its route.
    pub open spec fn after_invalidate(self, b: nat, id: ArtifactId) -> (
        EngineView,
        Result<(), CoherenceError>,
    ) {
        if !self.has(id) {
            (self, Err(CoherenceError::NotFound))
        } else if !self.entry(id).is_readable() {
            (self, Err(CoherenceError::WrongState))
        } else {
            (
                EngineView {
                    routes: self.routes.without(self.entry(id).path(b), id),
                    artifacts: self.artifacts.insert(id.0, self.entry(id).invalidated()),
                    kv: self.kv.after_release(self.entry(id).blocks),
                    ..self
                },
                Ok(()),
            )
        }
    }

    /// A readable artifact is shared with `agent`, who gets its blocks.
    pub open spec fn after_read(self, id: ArtifactId, agent: AgentId) -> (
        EngineView,
        Result<Seq<BlockId>, CoherenceError>,
    ) {
        if !self.has(id) {
            (self, Err(CoherenceError::NotFound))
        } else if !self.entry(id).is_readable() {
            (self, Err(CoherenceError::WrongState))
        } else if self.entry(id).too_stale(agent, self.k_bound) {
            (self, Err(CoherenceError::KBoundExceeded))
        } else {
            (self.put(id, self.entry(id).read_by(agent)), Ok(self.entry(id).blocks))
        }
    }

    /// Why `agent` may not write to `id`, if it may not.
    pub open spec fn write_refusal(self, id: ArtifactId, agent: AgentId) -> Option<
        CoherenceError,
    > {
        if !self.has(id) {
            Some(CoherenceError::NotFound)
        } else if self.entry(id).state != MesiState::Exclusive {
            Some(CoherenceError::WrongState)
        } else if self.entry(id).owner != Some(agent) {
            Some(CoherenceError::NotOwner)
        } else {
            None
        }
    }

    /// The owner stores new data in place of that of an exclusive artifact, which is
    /// not filed from then on. Where the data cannot be stored, the artifact keeps
    /// what it has, and stays filed.
    pub open spec fn after_write_keyed(
        self,
        b: nat,
        id: ArtifactId,
        agent: AgentId,
        tokens: Seq<TokenId>,
        keys: Seq<u64>,
        data: Seq<Seq<u8>>,
    ) -> (EngineView, Result<(), CoherenceError>) {
        match self.write_refusal(id, agent) {
            Some(e) => (self, Err(e)),
            None => match self.kv.after_store(b, tokens, data, keys, self.entry(id).blocks) {
                (kv, Err(e)) => (EngineView { kv, ..self }, Err(CoherenceError::KvError(e))),
                (kv, Ok(blocks)) => (
                    EngineView {
                        routes: self.routes.without(self.entry(id).path(b), id),
                        artifacts: self.artifacts.insert(
                            id.0,
                            self.entry(id).written(agent, blocks, tokens, keys),
                        ),
                        kv,
                        ..self
                    },
                    Ok(()),
                ),
            },
        }
    }

    /// No counter stands in the way of a write: neither that of the versions nor that
    /// of a block to be shared.
    pub open spec fn write_counts(
        self,
        b: nat,
        id: ArtifactId,
        agent: AgentId,
        tokens: Seq<TokenId>,
        keys: Seq<u64>,
    ) -> bool {
        self.write_refusal(id, agent) is None ==> self.entry(id).ver < u64::MAX
            && self.kv.can_share(b, tokens, keys)
    }

    /// The same, with the keys that `tokens` have. Where a counter is full, nothing
    /// changes.
    pub open spec fn after_write(
        self,
        b: nat,
        id: ArtifactId,
        agent: AgentId,
        tokens: Seq<TokenId>,
        data: Seq<Seq<u8>>,
    ) -> (EngineView, Result<(), CoherenceError>) {
        let keys = tokens::keys_of(tokens, b);
        if self.write_counts(b, id, agent, tokens, keys) {
            self.after_write_keyed(b, id, agent, tokens, keys, data)
        } else {
            (self, Err(CoherenceError::CounterFull))
        }
    }

    /// A written artifact is filed again.
    pub open spec fn after_writeback(self, b: nat, id: ArtifactId) -> (
        EngineView,
        Result<(), CoherenceError>,
    ) {
        if !self.has(id) {
            (self, Err(CoherenceError::NotFound))
        } else if self.entry(id).state != MesiState::Modified {
            (self, Err(CoherenceError::WrongState))
        } else {
            let entry = self.entry(id);
            (
                EngineView {
                    routes: self.routes.with(entry.path(b), id),
                    artifacts: self.artifacts.insert(id.0, entry.written_back()),
                    ..self
                },
                Ok(()),
            )
        }
    }

    /// Why a fork from `source` to `id` is refused, if it is.
    pub open spec fn fork_refusal(self, id: ArtifactId, source: ArtifactId) -> Option<
        CoherenceError,
    > {
        if !self.has(source) {
            Some(CoherenceError::NotFound)
        } else if !self.entry(source).is_readable() {
            Some(CoherenceError::WrongState)
        } else if self.has(id) {
            Some(CoherenceError::AlreadyExists)
        } else {
            None
        }
    }

    /// An artifact is made of the cached prefix of `tokens`, whose blocks it
    /// shares. Where no block is cached, it has none, and is not filed.
    pub open spec fn after_fork_keyed(
        self,
        b: nat,
        id: ArtifactId,
        tokens: Seq<TokenId>,
        keys: Seq<u64>,
        source: ArtifactId,
        agent: AgentId,
    ) -> (EngineView, Result<ArtifactId, CoherenceError>) {
        match self.fork_refusal(id, source) {
            Some(e) => (self, Err(e)),
            None => {
                let blocks = self.kv.found(b, tokens, keys);
                let n = blocks.len() as int;
                let prefix = tokens.take(n * b);
                (
                    EngineView {
                        routes: self.routes.with(
                            routing::path_of(keys.take(n), prefix, b),
                            id,
                        ),
                        artifacts: self.artifacts.insert(
                            id.0,
                            EntryView::exclusive(agent, blocks, prefix, keys.take(n)),
                        ),
                        kv: self.kv.after_fork(b, tokens, keys),
                        ..self
                    },
                    Ok(id),
                )
            },
        }
    }

    /// No counter stands in the way of a fork.
    pub open spec fn fork_counts(
        self,
        b: nat,
        id: ArtifactId,
        tokens: Seq<TokenId>,
        keys: Seq<u64>,
        source: ArtifactId,
    ) -> bool {
        self.fork_refusal(id, source) is None ==> self.kv.can_share(b, tokens, keys)
    }

    /// The same, with the name and the keys that `tokens` have. Where a block to be
    /// shared is referenced as often as can be counted, nothing changes.
    pub open spec fn after_register_fork(
        self,
        b: nat,
        tokens: Seq<TokenId>,
        source: ArtifactId,
        agent: AgentId,
    ) -> (EngineView, Result<ArtifactId, CoherenceError>) {
        let id = ArtifactId(tokens::key_of(tokens));
        let keys = tokens::keys_of(tokens, b);
        if self.fork_counts(b, id, tokens, keys, source) {
            self.after_fork_keyed(b, id, tokens, keys, source, agent)
        } else {
            (self, Err(CoherenceError::CounterFull))
        }
    }

    /// `route` is where `tokens` are served from: the readable artifact that covers
    /// most of them, the one filed last if there are several, with its blocks; none
    /// if no readable artifact covers any.
    pub open spec fn serves(
        self,
        b: nat,
        tokens: Seq<TokenId>,
        keys: Seq<u64>,
        route: Option<(ArtifactId, Seq<BlockId>)>,
    ) -> bool {
        let query = routing::path_of(keys, tokens, b);
        match route {
            Some((id, blocks)) => {
                &&& self.has(id)
                &&& self.entry(id).covers(b, query)
                &&& blocks == self.entry(id).blocks
                &&& forall|other: ArtifactId| #[trigger]
                    self.has(other) && self.entry(other).covers(b, query) ==> self.entry(
                        other,
                    ).keys.len() <= self.entry(id).keys.len()
                &&& self.routes.at(self.entry(id).path(b)).last() == id
            },
            None => forall|other: ArtifactId| #[trigger]
                self.has(other) ==> !self.entry(other).covers(b, query),
        }
    }

    /// `route` says where `tokens` are served from, and how many of them are.
    pub open spec fn answers(
        self,
        b: nat,
        tokens: Seq<TokenId>,
        keys: Seq<u64>,
        route: Option<RouteResult>,
    ) -> bool {
        match route {
            Some(r) => {
                &&& self.serves(b, tokens, keys, Some((r.artifact_id, r.blocks@)))
                &&& r.matched_tokens == r.blocks@.len() * b
                &&& r.matched_tokens <= tokens.len()
            },
            None => self.serves(b, tokens, keys, None),
        }
    }

    /// No counter that the operation raises is full.
    pub open spec fn counts(self, b: nat, op: EngineOp) -> bool {
        match op {
            EngineOp::Register { id, tokens, keys, .. } => self.register_counts(
                b,
                id,
                tokens,
                keys,
            ),
            EngineOp::Write { id, agent, tokens, keys, .. } => self.write_counts(
                b,
                id,
                agent,
                tokens,
                keys,
            ),
            EngineOp::Fork { id, tokens, keys, source, .. } => self.fork_counts(
                b,
                id,
                tokens,
                keys,
                source,
            ),
            _ => true,
        }
    }

    /// The engine after an operation.
    pub open spec fn after(self, b: nat, op: EngineOp) -> EngineView {
        match op {
            EngineOp::Register { id, tokens, keys, data, agent } => self.after_register_keyed(
                b,
                id,
                tokens,
                keys,
                data,
                agent,
            ).0,
            EngineOp::Acquire { id, agent } => self.after_acquire(id, agent).0,
            EngineOp::Invalidate { id } => self.after_invalidate(b, id).0,
            EngineOp::Read { id, agent } => self.after_read(id, agent).0,
            EngineOp::Write { id, agent, tokens, keys, data } => self.after_write_keyed(
                b,
                id,
                agent,
                tokens,
                keys,
                data,
            ).0,
            EngineOp::Writeback { id } => self.after_writeback(b, id).0,
            EngineOp::Fork { id, tokens, keys, source, agent } => self.after_fork_keyed(
                b,
                id,
                tokens,
                keys,
                source,
                agent,
            ).0,
        }
    }
}

} // verus!
