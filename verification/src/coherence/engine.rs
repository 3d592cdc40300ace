//! The coherence engine: artifacts, their routes, and the cache they live in.

use crate::coherence::engine_laws;
use crate::coherence::engine_model::{EngineOp, EngineView};
use crate::coherence::entry::ArtifactEntry;
use crate::coherence::ownership;
use crate::coherence::routing;
use crate::coherence::routing::RoutingIndex;
use crate::coherence::{AgentId, ArtifactId, CoherenceError, MesiState, RouteResult};
use crate::kv::block::SlabView;
use crate::kv::cache;
use crate::kv::cache::KvCache;
use crate::kv::ledger;
use crate::kv::tokens;
use crate::kv::BlockId;
use crate::kv::TokenId;
use std::collections::HashMap;
use vstd::prelude::*;

verus! {

broadcast use vstd::std_specs::hash::group_hash_axioms;

/// The engine for blocks of `B` tokens. Artifacts are kept by the number of their
/// name.
pub struct CoherenceEngine<const B: usize> {
    pub routing: RoutingIndex<B>,
    pub artifacts: HashMap<u64, ArtifactEntry>,
    pub kv: KvCache<B>,
    pub k_bound: u64,
}

impl<const B: usize> View for CoherenceEngine<B> {
    type V = EngineView;

    open spec fn view(&self) -> EngineView {
        EngineView {
            routes: self.routing@,
            artifacts: self.artifacts@.map_values(|e: ArtifactEntry| e@),
            kv: self.kv@,
            k_bound: self.k_bound,
        }
    }
}

impl<const B: usize> CoherenceEngine<B> {
    /// The engine is well formed.
    pub open spec fn wf(&self) -> bool {
        self@.wf(B as nat) && self.kv.data_wf()
    }

    /// An engine with a cache of `capacity` blocks on the heap, in which no reader
    /// may be more than `k_bound` versions behind.
    pub fn new_heap(capacity: usize, element_stride: usize, k_bound: u64) -> (engine: Self)
        requires
            0 < B,
            SlabView::fits_memory(B as nat, capacity, element_stride),
        ensures
            engine.wf(),
            engine@ == EngineView::fresh(B as nat, capacity, element_stride, k_bound),
    {
        let engine = CoherenceEngine {
            routing: RoutingIndex::new(),
            artifacts: HashMap::new(),
            kv: KvCache::new_heap(capacity, element_stride),
            k_bound,
        };
        proof {
            assert(engine@ =~= EngineView::fresh(B as nat, capacity, element_stride, k_bound));
            ownership::law_fresh_wf(B as nat, capacity, element_stride, k_bound);
        }
        engine
    }

    /// Registers artifact `id` for `tokens`, whose blocks have the keys `keys`: the
    /// data is cached, and `agent` holds the artifact alone.
    pub fn register_keyed(
        &mut self,
        id: ArtifactId,
        tokens: &[TokenId],
        keys: &[u64],
        kv_data: &[&[u8]],
        agent: AgentId,
    ) -> (result: Result<ArtifactId, CoherenceError>)
        requires
            old(self).wf(),
            keys@.len() == tokens::block_count(tokens@, B as nat),
            old(self)@.register_counts(B as nat, id, tokens@, keys@),
        ensures
            final(self).wf(),
            (final(self)@, result) == old(self)@.after_register_keyed(
                B as nat,
                id,
                tokens@,
                keys@,
                cache::byte_views(kv_data@),
                agent,
            ),
            final(self)@.kv.slab.capacity == old(self)@.kv.slab.capacity,
            final(self)@.kv.slab.stride == old(self)@.kv.slab.stride,
    {
        let ghost b = B as nat;
        let ghost data = cache::byte_views(kv_data@);
        let ghost start = self@;
        if self.artifacts.contains_key(&id.0) {
            return Err(CoherenceError::AlreadyExists);
        }
        let ghost op = EngineOp::Register { id, tokens: tokens@, keys: keys@, data, agent };
        let none: Vec<BlockId> = Vec::new();
        let stored = self.kv.store_keyed(tokens, kv_data, keys, none.as_slice());
        assert(none@ =~= Seq::empty());
        proof {
            ownership::law_wf_kept(start, b, op);
        }
        match stored {
            Ok(blocks) => {
                proof {
                    tokens::lemma_whole(tokens@.len(), b);
                }
                let mut entry = ArtifactEntry::new_exclusive(agent, blocks);
                entry.tokens = vstd::slice::slice_to_vec(tokens);
                entry.keys = vstd::slice::slice_to_vec(keys);
                self.routing.insert_keyed(tokens, keys, id);
                self.artifacts.insert(id.0, entry);
                proof {
                    assert(self@.artifacts =~= start.after(b, op).artifacts);
                    assert(self@ =~= start.after(b, op));
                }
            },
            Err(e) => {
                assert(self@ =~= start.after(b, op));
                return Err(CoherenceError::KvError(e));
            },
        }
        Ok(id)
    }

    /// Registers the artifact for `tokens`: the data is cached, and `agent` holds
    /// the artifact alone. Blocks that are cached already are shared.
    pub fn register(&mut self, tokens: &[TokenId], kv_data: &[&[u8]], agent: AgentId) -> (result:
        Result<ArtifactId, CoherenceError>)
        requires
            old(self).wf(),
        ensures
            final(self).wf(),
            (final(self)@, result) == old(self)@.after_register(
                B as nat,
                tokens@,
                cache::byte_views(kv_data@),
                agent,
            ),
            final(self)@.kv.slab.capacity == old(self)@.kv.slab.capacity,
            final(self)@.kv.slab.stride == old(self)@.kv.slab.stride,
    {
        let id = ArtifactId::from_tokens(tokens);
        if !self.artifacts.contains_key(&id.0) && !self.kv.can_share(tokens) {
            return Err(CoherenceError::CounterFull);
        }
        let keys = tokens::block_keys::<B>(tokens);
        self.register_keyed(id, tokens, keys.as_slice(), kv_data, agent)
    }

    /// Claims an invalid artifact for `agent`, without data.
    pub fn acquire(&mut self, id: ArtifactId, agent: AgentId) -> (result: Result<
        (),
        CoherenceError,
    >)
        requires
            old(self).wf(),
        ensures
            final(self).wf(),
            (final(self)@, result) == old(self)@.after_acquire(id, agent),
    {
        let ghost b = B as nat;
        let ghost start = self@;
        match self.artifacts.get(&id.0) {
            Some(entry) => {
                assert(start.entry(id) == entry@);
                if entry.state != MesiState::Invalid {
                    return Err(CoherenceError::WrongState);
                }
            },
            None => {
                return Err(CoherenceError::NotFound);
            },
        }
        match self.artifacts.remove(&id.0) {
            Some(entry) => {
                let mut entry = entry;
                assert(start.entry(id) == entry@);
                entry.state = MesiState::Exclusive;
                entry.owner = Some(agent);
                entry.tokens.clear();
                entry.keys.clear();
                let ghost changed = entry@;
                self.artifacts.insert(id.0, entry);
                proof {
                    assert(changed =~= start.entry(id).acquired(agent));
                    assert(self@.artifacts =~= start.after_acquire(id, agent).0.artifacts);
                    assert(self@ =~= start.after_acquire(id, agent).0);
                    ownership::law_wf_kept(start, b, EngineOp::Acquire { id, agent });
                }
            },
            None => {},
        }
        Ok(())
    }

    /// Invalidates a readable artifact: its blocks are released and its route is
    /// taken away. Who has seen which version is kept.
    pub fn invalidate(&mut self, id: ArtifactId) -> (result: Result<(), CoherenceError>)
        requires
            old(self).wf(),
        ensures
            final(self).wf(),
            (final(self)@, result) == old(self)@.after_invalidate(B as nat, id),
            final(self)@.kv.slab.capacity == old(self)@.kv.slab.capacity,
            final(self)@.kv.slab.stride == old(self)@.kv.slab.stride,
    {
        let ghost b = B as nat;
        let ghost start = self@;
        match self.artifacts.get(&id.0) {
            Some(entry) => {
                assert(start.entry(id) == entry@);
                if entry.state == MesiState::Modified || entry.state == MesiState::Invalid {
                    return Err(CoherenceError::WrongState);
                }
            },
            None => {
                return Err(CoherenceError::NotFound);
            },
        }
        match self.artifacts.remove(&id.0) {
            Some(entry) => {
                let mut entry = entry;
                assert(start.entry(id) == entry@);
                let mut blocks: Vec<BlockId> = Vec::new();
                std::mem::swap(&mut blocks, &mut entry.blocks);
                entry.state = MesiState::Invalid;
                entry.owner = None;
                entry.sharers.clear();
                assert(start.artifacts[id.0].wf(b));
                self.kv.release(blocks.as_slice());
                proof {
                    tokens::lemma_multiple(entry.keys@.len(), b);
                }
                self.routing.withdraw_keyed(entry.tokens.as_slice(), entry.keys.as_slice(), id);
                let ghost changed = entry@;
                self.artifacts.insert(id.0, entry);
                proof {
                    assert(changed =~= start.entry(id).invalidated());
                    assert(self@.artifacts =~= start.after_invalidate(b, id).0.artifacts);
                    assert(self@ =~= start.after_invalidate(b, id).0);
                    ownership::law_wf_kept(start, b, EngineOp::Invalidate { id });
                }
            },
            None => {},
        }
        Ok(())
    }

    /// Shares a readable artifact with `agent` and returns its blocks. An agent
    /// that has read before must not be more than the bound behind.
    pub fn read(&mut self, id: ArtifactId, agent: AgentId) -> (result: Result<
        Vec<BlockId>,
        CoherenceError,
    >)
        requires
            old(self).wf(),
        ensures
            final(self).wf(),
            final(self)@ == old(self)@.after_read(id, agent).0,
            match result {
                Ok(blocks) => old(self)@.after_read(id, agent).1 == Ok::<
                    Seq<BlockId>,
                    CoherenceError,
                >(blocks@),
                Err(e) => old(self)@.after_read(id, agent).1 == Err::<
                    Seq<BlockId>,
                    CoherenceError,
                >(e),
            },
    {
        let ghost b = B as nat;
        let ghost start = self@;
        match self.artifacts.get(&id.0) {
            Some(entry) => {
                assert(start.entry(id) == entry@);
                if entry.state == MesiState::Modified || entry.state == MesiState::Invalid {
                    return Err(CoherenceError::WrongState);
                }
                match entry.seen.get(&agent) {
                    Some(seen) => {
                        if entry.ver.saturating_sub(*seen) > self.k_bound {
                            return Err(CoherenceError::KBoundExceeded);
                        }
                    },
                    None => {},
                }
            },
            None => {
                return Err(CoherenceError::NotFound);
            },
        }
        match self.artifacts.remove(&id.0) {
            Some(entry) => {
                let mut entry = entry;
                assert(start.entry(id) == entry@);
                let ver: u64 = entry.ver;
                entry.state = MesiState::Shared;
                entry.owner = None;
                entry.sharers.insert(agent);
                entry.seen.insert(agent, ver);
                let blocks = vstd::slice::slice_to_vec(entry.blocks.as_slice());
                let ghost changed = entry@;
                self.artifacts.insert(id.0, entry);
                proof {
                    assert(changed =~= start.entry(id).read_by(agent));
                    assert(self@.artifacts =~= start.after_read(id, agent).0.artifacts);
                    assert(self@ =~= start.after_read(id, agent).0);
                    ownership::law_wf_kept(start, b, EngineOp::Read { id, agent });
                }
                Ok(blocks)
            },
            None => Err(CoherenceError::NotFound),
        }
    }

    /// Why `agent` may not write to `id`, if it may not.
    fn write_refusal(&self, id: ArtifactId, agent: AgentId) -> (refusal: Option<CoherenceError>)
        ensures
            refusal == self@.write_refusal(id, agent),
    {
        match self.artifacts.get(&id.0) {
            Some(entry) => {
                assert(self@.entry(id) == entry@);
                if entry.state != MesiState::Exclusive {
                    return Some(CoherenceError::WrongState);
                }
                let is_owner = match entry.owner {
                    Some(owner) => owner == agent,
                    None => false,
                };
                if is_owner {
                    None
                } else {
                    Some(CoherenceError::NotOwner)
                }
            },
            None => Some(CoherenceError::NotFound),
        }
    }

    /// Replaces the data of an exclusive artifact by that for `tokens`, whose
    /// blocks have the keys `keys`. Only the owner may.
    pub fn write_keyed(
        &mut self,
        id: ArtifactId,
        agent: AgentId,
        tokens: &[TokenId],
        keys: &[u64],
        kv_data: &[&[u8]],
    ) -> (result: Result<(), CoherenceError>)
        requires
            old(self).wf(),
            keys@.len() == tokens::block_count(tokens@, B as nat),
            old(self)@.write_counts(B as nat, id, agent, tokens@, keys@),
        ensures
            final(self).wf(),
            (final(self)@, result) == old(self)@.after_write_keyed(
                B as nat,
                id,
                agent,
                tokens@,
                keys@,
                cache::byte_views(kv_data@),
            ),
            final(self)@.kv.slab.capacity == old(self)@.kv.slab.capacity,
            final(self)@.kv.slab.stride == old(self)@.kv.slab.stride,
    {
        let ghost b = B as nat;
        let ghost data = cache::byte_views(kv_data@);
        let ghost start = self@;
        match self.write_refusal(id, agent) {
            Some(e) => {
                return Err(e);
            },
            None => {},
        }
        let ghost op = EngineOp::Write { id, agent, tokens: tokens@, keys: keys@, data };
        proof {
            ownership::lemma_blocks_has(start, b);
            assert(start.artifacts[id.0].wf(b));
        }
        match self.artifacts.remove(&id.0) {
            Some(entry) => {
                let mut entry = entry;
                assert(start.entry(id) == entry@);
                assert forall|j: int| 0 <= j < entry.blocks@.len() implies start.kv.slab.has(
                    #[trigger] entry.blocks@[j],
                ) && start.kv.slab.rc[entry.blocks@[j].0 as int] > 0 by {
                    assert(start.artifacts[id.0].blocks[j] == entry.blocks@[j]);
                }
                let stored = self.kv.store_keyed(tokens, kv_data, keys, entry.blocks.as_slice());
                proof {
                    ownership::law_wf_kept(start, b, op);
                }
                match stored {
                    Ok(blocks) => {
                        proof {
                            tokens::lemma_multiple(entry.keys@.len(), b);
                        }
                        self.routing.withdraw_keyed(
                            entry.tokens.as_slice(),
                            entry.keys.as_slice(),
                            id,
                        );
                        let ver: u64 = entry.ver + 1;
                        entry.state = MesiState::Modified;
                        entry.ver = ver;
                        entry.seen.insert(agent, ver);
                        entry.blocks = blocks;
                        entry.tokens = vstd::slice::slice_to_vec(tokens);
                        entry.keys = vstd::slice::slice_to_vec(keys);
                        let ghost changed = entry@;
                        self.artifacts.insert(id.0, entry);
                        proof {
                            assert(changed =~= start.entry(id).written(
                                agent,
                                blocks@,
                                tokens@,
                                keys@,
                            ));
                            assert(self@.artifacts =~= start.after(b, op).artifacts);
                            assert(self@ =~= start.after(b, op));
                        }
                        Ok(())
                    },
                    Err(e) => {
                        self.artifacts.insert(id.0, entry);
                        proof {
                            assert(self@.artifacts =~= start.artifacts);
                            assert(self@ =~= start.after(b, op));
                        }
                        Err(CoherenceError::KvError(e))
                    },
                }
            },
            None => Err(CoherenceError::NotFound),
        }
    }

    /// Whether the version of artifact `id` can be raised.
    fn has_next_version(&self, id: ArtifactId) -> (has: bool)
        requires
            self@.has(id),
        ensures
            has == (self@.entry(id).ver < u64::MAX),
    {
        match self.artifacts.get(&id.0) {
            Some(entry) => {
                assert(self@.entry(id) == entry@);
                entry.ver < u64::MAX
            },
            None => false,
        }
    }

    /// Replaces the data of an exclusive artifact by that for `tokens`. Only the
    /// owner may. Where the data cannot be stored, the artifact stays as it is.
    pub fn write(
        &mut self,
        id: ArtifactId,
        agent: AgentId,
        tokens: &[TokenId],
        kv_data: &[&[u8]],
    ) -> (result: Result<(), CoherenceError>)
        requires
            old(self).wf(),
        ensures
            final(self).wf(),
            (final(self)@, result) == old(self)@.after_write(
                B as nat,
                id,
                agent,
                tokens@,
                cache::byte_views(kv_data@),
            ),
            final(self)@.kv.slab.capacity == old(self)@.kv.slab.capacity,
            final(self)@.kv.slab.stride == old(self)@.kv.slab.stride,
    {
        match self.write_refusal(id, agent) {
            Some(_) => {},
            None => {
                if !self.has_next_version(id) || !self.kv.can_share(tokens) {
                    return Err(CoherenceError::CounterFull);
                }
            },
        }
        let keys = tokens::block_keys::<B>(tokens);
        self.write_keyed(id, agent, tokens, keys.as_slice(), kv_data)
    }

    /// Shows a written artifact to others again: its owner keeps it, and it is filed
    /// at its route.
    pub fn writeback(&mut self, id: ArtifactId) -> (result: Result<(), CoherenceError>)
        requires
            old(self).wf(),
        ensures
            final(self).wf(),
            (final(self)@, result) == old(self)@.after_writeback(B as nat, id),
    {
        let ghost b = B as nat;
        let ghost start = self@;
        match self.artifacts.get(&id.0) {
            Some(entry) => {
                assert(start.entry(id) == entry@);
                if entry.state != MesiState::Modified {
                    return Err(CoherenceError::WrongState);
                }
            },
            None => {
                return Err(CoherenceError::NotFound);
            },
        }
        match self.artifacts.remove(&id.0) {
            Some(entry) => {
                let mut entry = entry;
                assert(start.entry(id) == entry@);
                proof {
                    assert(start.artifacts[id.0].wf(b));
                    tokens::lemma_multiple(entry.keys@.len(), b);
                }
                entry.state = MesiState::Exclusive;
                self.routing.insert_keyed(entry.tokens.as_slice(), entry.keys.as_slice(), id);
                let ghost changed = entry@;
                self.artifacts.insert(id.0, entry);
                proof {
                    assert(changed =~= start.entry(id).written_back());
                    assert(self@.artifacts =~= start.after_writeback(b, id).0.artifacts);
                    assert(self@ =~= start.after_writeback(b, id).0);
                    ownership::law_wf_kept(start, b, EngineOp::Writeback { id });
                }
            },
            None => {},
        }
        Ok(())
    }

    /// Why a fork from `source` to `id` is refused, if it is.
    fn fork_refusal(&self, id: ArtifactId, source: ArtifactId) -> (refusal: Option<CoherenceError>)
        ensures
            refusal == self@.fork_refusal(id, source),
    {
        match self.artifacts.get(&source.0) {
            Some(entry) => {
                assert(self@.entry(source) == entry@);
                if entry.state == MesiState::Modified || entry.state == MesiState::Invalid {
                    return Some(CoherenceError::WrongState);
                }
            },
            None => {
                return Some(CoherenceError::NotFound);
            },
        }
        if self.artifacts.contains_key(&id.0) {
            Some(CoherenceError::AlreadyExists)
        } else {
            None
        }
    }

    /// Makes artifact `id` of the cached prefix of `tokens`, whose blocks have the
    /// keys `keys`. Its blocks are shared, not copied; `source` must be readable.
    pub fn register_fork_keyed(
        &mut self,
        id: ArtifactId,
        tokens: &[TokenId],
        keys: &[u64],
        source: ArtifactId,
        agent: AgentId,
    ) -> (result: Result<ArtifactId, CoherenceError>)
        requires
            old(self).wf(),
            keys@.len() == tokens::block_count(tokens@, B as nat),
            old(self)@.fork_counts(B as nat, id, tokens@, keys@, source),
        ensures
            final(self).wf(),
            (final(self)@, result) == old(self)@.after_fork_keyed(
                B as nat,
                id,
                tokens@,
                keys@,
                source,
                agent,
            ),
            final(self)@.kv.slab.capacity == old(self)@.kv.slab.capacity,
            final(self)@.kv.slab.stride == old(self)@.kv.slab.stride,
    {
        let ghost b = B as nat;
        let ghost start = self@;
        match self.fork_refusal(id, source) {
            Some(e) => {
                return Err(e);
            },
            None => {},
        }
        proof {
            start.kv.lemma_found_has(b, tokens@, keys@);
            ledger::lemma_can_fork(start.kv, b, tokens@, keys@);
        }
        let blocks = self.kv.fork_keyed(tokens, keys);
        let n: usize = blocks.len();
        let len: usize = tokens.len();
        proof {
            tokens::lemma_part(n as nat, len as nat, b);
        }
        let prefix = vstd::slice::slice_subrange(tokens, 0, n * B);
        let prefix_keys = vstd::slice::slice_subrange(keys, 0, n);
        assert(prefix@ =~= tokens@.take(n * b));
        assert(prefix_keys@ =~= keys@.take(n as int));
        let mut entry = ArtifactEntry::new_exclusive(agent, blocks);
        entry.tokens = vstd::slice::slice_to_vec(prefix);
        entry.keys = vstd::slice::slice_to_vec(prefix_keys);
        self.routing.insert_keyed(prefix, prefix_keys, id);
        self.artifacts.insert(id.0, entry);
        proof {
            let op = EngineOp::Fork { id, tokens: tokens@, keys: keys@, source, agent };
            assert(self@.artifacts =~= start.after(b, op).artifacts);
            assert(self@ =~= start.after(b, op));
            ownership::law_wf_kept(start, b, op);
        }
        Ok(id)
    }

    /// Makes the artifact for `tokens` of their cached prefix. Its blocks are
    /// shared, not copied; `source` must be readable. Where nothing is cached, the
    /// artifact has no blocks.
    pub fn register_fork(&mut self, tokens: &[TokenId], source: ArtifactId, agent: AgentId) -> (result:
        Result<ArtifactId, CoherenceError>)
        requires
            old(self).wf(),
        ensures
            final(self).wf(),
            (final(self)@, result) == old(self)@.after_register_fork(
                B as nat,
                tokens@,
                source,
                agent,
            ),
            final(self)@.kv.slab.capacity == old(self)@.kv.slab.capacity,
            final(self)@.kv.slab.stride == old(self)@.kv.slab.stride,
    {
        let id = ArtifactId::from_tokens(tokens);
        match self.fork_refusal(id, source) {
            Some(_) => {},
            None => {
                if !self.kv.can_share(tokens) {
                    return Err(CoherenceError::CounterFull);
                }
            },
        }
        let keys = tokens::block_keys::<B>(tokens);
        self.register_fork_keyed(id, tokens, keys.as_slice(), source, agent)
    }

    /// Where `tokens`, whose blocks have the keys `keys`, are served from: the
    /// readable artifact that covers the longest prefix of them.
    pub fn lookup_keyed(&self, tokens: &[TokenId], keys: &[u64]) -> (route: Option<RouteResult>)
        requires
            self.wf(),
            keys@.len() == tokens::block_count(tokens@, B as nat),
        ensures
            self@.answers(B as nat, tokens@, keys@, route),
    {
        let ghost b = B as nat;
        let ghost query = routing::path_of(keys@, tokens@, b);
        match self.routing.longest_prefix_keyed(tokens, keys) {
            Some((id, depth)) => {
                let len: usize = tokens.len();
                let ghost path = query.take(depth as int);
                proof {
                    assert(self@.routes.routed(query, depth as int));
                    assert(self@.routes.at(path).last() == id);
                    assert(self@.routes.at(path).contains(id));
                    tokens::lemma_part(depth as nat, len as nat, b);
                    assert(self@.artifacts[id.0].wf(b));
                    tokens::lemma_multiple(self@.entry(id).keys.len(), b);
                    assert(self@.entry(id).routed_at(b, path));
                    assert(self@.entry(id).path(b).len() == self@.entry(id).keys.len());
                    assert(path.len() == depth);
                }
                match self.artifacts.get(&id.0) {
                    Some(entry) => {
                        assert(self@.entry(id) == entry@);
                        let blocks = vstd::slice::slice_to_vec(entry.blocks.as_slice());
                        proof {
                            assert forall|other: ArtifactId| #[trigger]
                                self@.has(other) && self@.entry(other).covers(
                                    b,
                                    query,
                                ) implies self@.entry(other).keys.len() <= depth by {
                                self.lemma_covering_routed(query, other);
                            }
                        }
                        Some(
                            RouteResult {
                                artifact_id: id,
                                matched_tokens: depth * B,
                                blocks,
                            },
                        )
                    },
                    None => None,
                }
            },
            None => {
                proof {
                    assert forall|other: ArtifactId| #[trigger]
                        self@.has(other) implies !self@.entry(other).covers(b, query) by {
                        if self@.entry(other).covers(b, query) {
                            self.lemma_covering_routed(query, other);
                        }
                    }
                }
                None
            },
        }
    }

    /// An artifact that covers some blocks is filed on the way along them.
    proof fn lemma_covering_routed(self, query: Seq<(u64, Seq<TokenId>)>, other: ArtifactId)
        requires
            self@.wf(B as nat),
            self@.has(other),
            self@.entry(other).covers(B as nat, query),
        ensures
            self@.routes.routed(query, self@.entry(other).keys.len() as int),
    {
        let path = self@.entry(other).path(B as nat);
        assert(self@.entry(other).routed_at(B as nat, path));
        assert(self@.routes.at(path).contains(other));
    }

    /// Where `tokens` are served from: the readable artifact that covers the
    /// longest prefix of them.
    #[must_use]
    pub fn lookup(&self, tokens: &[TokenId]) -> (route: Option<RouteResult>)
        requires
            self.wf(),
        ensures
            self@.answers(B as nat, tokens@, tokens::keys_of(tokens@, B as nat), route),
    {
        let keys = tokens::block_keys::<B>(tokens);
        self.lookup_keyed(tokens, keys.as_slice())
    }

    /// The number of blocks in use and the number of blocks.
    pub fn stats(&self) -> (counts: (usize, usize))
        requires
            self.wf(),
        ensures
            counts.1 == self@.kv.slab.capacity,
            counts.0 == counts.1 - self@.kv.slab.free.len(),
    {
        let total: usize = self.kv.capacity();
        let free: usize = self.kv.free_count();
        proof {
            engine_laws::law_stats(self@.kv.slab, B as nat);
        }
        (total - free, total)
    }

    /// The number of bytes per token.
    pub fn element_stride(&self) -> (stride: usize)
        ensures
            stride == self@.kv.slab.stride,
    {
        self.kv.element_stride()
    }

    /// Checks every artifact: that it is coherent, and that the tokens of a valid
    /// one are those of its blocks. Names one that fails, if any does.
    pub fn check_invariants(&self) -> (result: Result<(), ArtifactId>)
        requires
            0 < B,
        ensures
            match result {
                Ok(_) => forall|x: u64|
                    #![trigger self@.artifacts[x]]
                    self@.artifacts.contains_key(x) ==> self@.artifacts[x].coherent(self@.k_bound)
                        && self@.artifacts[x].sized(B as nat),
                Err(id) => self@.has(id) && !(self@.entry(id).coherent(self@.k_bound)
                    && self@.entry(id).sized(B as nat)),
            },
    {
        let ghost b = B as nat;
        let ghost all = vstd::std_specs::iter::IteratorSpec::remaining(&self.artifacts.iter());
        for (name, entry) in it: self.artifacts.iter()
            invariant
                0 < B,
                b == B,
                it.seq() == all,
                all == vstd::std_specs::iter::IteratorSpec::remaining(&self.artifacts.iter()),
                forall|j: int|
                    0 <= j < it.index() ==> (#[trigger] all[j]).1@.coherent(self.k_bound)
                        && all[j].1@.sized(b),
        {
            let tokens: usize = entry.tokens.len();
            let sized = entry.state == MesiState::Invalid || (tokens % B == 0 && tokens / B
                == entry.blocks.len());
            proof {
                let m = entry.blocks@.len();
                if tokens % B == 0 {
                    tokens::lemma_whole(tokens as nat, b);
                }
                tokens::lemma_multiple(m, b);
                assert(sized == entry@.sized(b));
                assert(all[it.index() as int] == (name, entry));
                assert(self.artifacts@.contains_key(*all[it.index() as int].0));
            }
            if !entry.invariants_hold(self.k_bound) || !sized {
                assert(self@.entry(ArtifactId(*name)) == entry@);
                return Err(ArtifactId(*name));
            }
        }
        assert forall|x: u64| self@.artifacts.contains_key(x) implies (
        #[trigger] self@.artifacts[x]).coherent(self@.k_bound) && self@.artifacts[x].sized(b) by {
            assert(self.artifacts@.contains_key(x));
            assert(all.contains((&x, &self.artifacts@[x])));
        }
        Ok(())
    }
}

} // verus!
