//! The engine behind a lock, to be shared between agents.
//!
//! Each operation takes the engine as it finds it and leaves it as
//! [`CoherenceEngine`] does. What it finds depends on what other holders of the
//! engine did before, so the contracts say what the result is of the engine that
//! was found.

use crate::coherence::engine::CoherenceEngine;
use crate::coherence::engine_laws;
use crate::coherence::engine_model::{EngineOp, EngineView};
use crate::coherence::{AgentId, ArtifactId, CoherenceError, RouteResult};
use crate::kv::block::SlabView;
use crate::kv::cache;
use crate::kv::tokens;
use crate::kv::BlockId;
use crate::kv::TokenId;
use std::sync::Arc;
use vstd::prelude::*;
use vstd::rwlock::{RwLock, RwLockPredicate, WriteHandle};

verus! {

/// What stays the same of a shared engine: its measures.
pub struct EngineInv<const B: usize> {
    pub capacity: usize,
    pub stride: usize,
    pub k_bound: u64,
}

impl<const B: usize> EngineInv<B> {
    /// The engine is well formed, has these measures, has every artifact filed under
    /// the keys of its tokens, and keeps every artifact coherent. A write that would
    /// raise a full version counter is refused, so no version starts over.
    pub open spec fn holds(self, e: EngineView) -> bool {
        &&& e.wf(B as nat)
        &&& e.orderly(B as nat)
        &&& e.kv.slab.capacity == self.capacity
        &&& e.kv.slab.stride == self.stride
        &&& e.k_bound == self.k_bound
    }
}

impl<const B: usize> RwLockPredicate<CoherenceEngine<B>> for EngineInv<B> {
    open spec fn inv(self, v: CoherenceEngine<B>) -> bool {
        v.wf() && self.holds(v@)
    }
}

/// A coherence engine that can be shared. A clone shares the same engine.
pub struct SyncEngine<const B: usize> {
    lock: Arc<RwLock<CoherenceEngine<B>, EngineInv<B>>>,
}

impl<const B: usize> SyncEngine<B> {
    /// The measures of the shared engine.
    pub closed spec fn measures(&self) -> EngineInv<B> {
        self.lock.pred()
    }

    /// `e` is an engine that may be found behind the lock.
    pub open spec fn holds(&self, e: EngineView) -> bool {
        self.measures().holds(e)
    }

    /// A shared engine with a cache of `capacity` blocks on the heap, in which no
    /// reader may be more than `k_bound` versions behind.
    pub fn new_heap(capacity: usize, element_stride: usize, k_bound: u64) -> (engine: Self)
        requires
            0 < B,
            SlabView::fits_memory(B as nat, capacity, element_stride),
        ensures
            engine.measures() == (EngineInv::<B> { capacity, stride: element_stride, k_bound }),
            engine.holds(EngineView::fresh(B as nat, capacity, element_stride, k_bound)),
    {
        let engine = CoherenceEngine::<B>::new_heap(capacity, element_stride, k_bound);
        let ghost pred = EngineInv::<B> { capacity, stride: element_stride, k_bound };
        SyncEngine { lock: Arc::new(RwLock::new(engine, Ghost(pred))) }
    }

    /// Takes the engine, to be put back by the handle that comes with it. Until then
    /// everybody else waits.
    pub(crate) fn take(&self) -> (out: (
        CoherenceEngine<B>,
        WriteHandle<'_, CoherenceEngine<B>, EngineInv<B>>,
    ))
        ensures
            out.0.wf(),
            self.holds(out.0@),
            out.1.rwlock().pred() == self.measures(),
    {
        self.lock.acquire_write()
    }

    /// Where `tokens` are served from: the readable artifact that covers the
    /// longest prefix of them.
    #[must_use]
    pub fn lookup(&self, tokens: &[TokenId]) -> (route: Option<RouteResult>)
        ensures
            exists|e: EngineView| #[trigger]
                self.holds(e) && e.answers(
                    B as nat,
                    tokens@,
                    tokens::keys_of(tokens@, B as nat),
                    route,
                ),
    {
        let handle = self.lock.acquire_read();
        let route = handle.borrow().lookup(tokens);
        assert(self.holds(handle@@));
        handle.release_read();
        route
    }

    /// Registers the artifact for `tokens`: the data is cached, and `agent` holds
    /// the artifact alone.
    pub fn register(&self, tokens: &[TokenId], kv_data: &[&[u8]], agent: AgentId) -> (result:
        Result<ArtifactId, CoherenceError>)
        ensures
            exists|e: EngineView, next: EngineView| #[trigger]
                self.holds(e) && #[trigger] self.holds(next) && (next, result)
                    == e.after_register(
                    B as nat,
                    tokens@,
                    cache::byte_views(kv_data@),
                    agent,
                ),
    {
        let (mut engine, handle) = self.lock.acquire_write();
        let ghost e = engine@;
        let result = engine.register(tokens, kv_data, agent);
        proof {
            engine_laws::law_orderly_kept(
                e,
                B as nat,
                EngineOp::Register {
                    id: ArtifactId(tokens::key_of(tokens@)),
                    tokens: tokens@,
                    keys: tokens::keys_of(tokens@, B as nat),
                    data: cache::byte_views(kv_data@),
                    agent,
                },
            );
            assert(self.holds(e) && self.holds(engine@));
        }
        handle.release_write(engine);
        result
    }

    /// Claims an invalid artifact for `agent`, without data.
    pub fn acquire(&self, id: ArtifactId, agent: AgentId) -> (result: Result<(), CoherenceError>)
        ensures
            exists|e: EngineView, next: EngineView| #[trigger]
                self.holds(e) && #[trigger] self.holds(next) && (next, result) == e.after_acquire(
                    id,
                    agent,
                ),
    {
        let (mut engine, handle) = self.lock.acquire_write();
        let ghost e = engine@;
        let result = engine.acquire(id, agent);
        proof {
            engine_laws::law_orderly_kept(e, B as nat, EngineOp::Acquire { id, agent });
            assert(self.holds(e) && self.holds(engine@));
        }
        handle.release_write(engine);
        result
    }

    /// Invalidates a readable artifact: its blocks are released and its route is
    /// taken away.
    pub fn invalidate(&self, id: ArtifactId) -> (result: Result<(), CoherenceError>)
        ensures
            exists|e: EngineView, next: EngineView| #[trigger]
                self.holds(e) && #[trigger] self.holds(next) && (next, result)
                    == e.after_invalidate(B as nat, id),
    {
        let (mut engine, handle) = self.lock.acquire_write();
        let ghost e = engine@;
        let result = engine.invalidate(id);
        proof {
            engine_laws::law_orderly_kept(e, B as nat, EngineOp::Invalidate { id });
            assert(self.holds(e) && self.holds(engine@));
        }
        handle.release_write(engine);
        result
    }

    /// Shares a readable artifact with `agent` and returns its blocks.
    pub fn read(&self, id: ArtifactId, agent: AgentId) -> (result: Result<
        Vec<BlockId>,
        CoherenceError,
    >)
        ensures
            exists|e: EngineView, next: EngineView| #[trigger]
                self.holds(e) && #[trigger] self.holds(next) && next == e.after_read(id, agent).0
                    && match result {
                    Ok(blocks) => e.after_read(id, agent).1 == Ok::<Seq<BlockId>, CoherenceError>(
                        blocks@,
                    ),
                    Err(why) => e.after_read(id, agent).1 == Err::<Seq<BlockId>, CoherenceError>(
                        why,
                    ),
                },
    {
        let (mut engine, handle) = self.lock.acquire_write();
        let ghost e = engine@;
        let result = engine.read(id, agent);
        proof {
            engine_laws::law_orderly_kept(e, B as nat, EngineOp::Read { id, agent });
            assert(self.holds(e) && self.holds(engine@));
        }
        handle.release_write(engine);
        result
    }

    /// Replaces the data of an exclusive artifact by that for `tokens`. Only the
    /// owner may.
    pub fn write(
        &self,
        id: ArtifactId,
        agent: AgentId,
        tokens: &[TokenId],
        kv_data: &[&[u8]],
    ) -> (result: Result<(), CoherenceError>)
        ensures
            exists|e: EngineView, next: EngineView| #[trigger]
                self.holds(e) && #[trigger] self.holds(next) && (next, result) == e.after_write(
                    B as nat,
                    id,
                    agent,
                    tokens@,
                    cache::byte_views(kv_data@),
                ),
    {
        let (mut engine, handle) = self.lock.acquire_write();
        let ghost e = engine@;
        let result = engine.write(id, agent, tokens, kv_data);
        proof {
            engine_laws::law_orderly_kept(
                e,
                B as nat,
                EngineOp::Write {
                    id,
                    agent,
                    tokens: tokens@,
                    keys: tokens::keys_of(tokens@, B as nat),
                    data: cache::byte_views(kv_data@),
                },
            );
            assert(self.holds(e) && self.holds(engine@));
        }
        handle.release_write(engine);
        result
    }

    /// Shows a written artifact to others again: its owner keeps it, and it is filed
    /// at its route.
    pub fn writeback(&self, id: ArtifactId) -> (result: Result<(), CoherenceError>)
        ensures
            exists|e: EngineView, next: EngineView| #[trigger]
                self.holds(e) && #[trigger] self.holds(next) && (next, result)
                    == e.after_writeback(B as nat, id),
    {
        let (mut engine, handle) = self.lock.acquire_write();
        let ghost e = engine@;
        let result = engine.writeback(id);
        proof {
            engine_laws::law_orderly_kept(e, B as nat, EngineOp::Writeback { id });
            assert(self.holds(e) && self.holds(engine@));
        }
        handle.release_write(engine);
        result
    }

    /// Makes the artifact for `tokens` of their cached prefix, shared and not
    /// copied. Where nothing is cached, the artifact has no blocks.
    pub fn register_fork(&self, tokens: &[TokenId], source: ArtifactId, agent: AgentId) -> (result:
        Result<ArtifactId, CoherenceError>)
        ensures
            exists|e: EngineView, next: EngineView| #[trigger]
                self.holds(e) && #[trigger] self.holds(next) && (next, result)
                    == e.after_register_fork(B as nat, tokens@, source, agent),
    {
        let (mut engine, handle) = self.lock.acquire_write();
        let ghost e = engine@;
        let result = engine.register_fork(tokens, source, agent);
        proof {
            engine_laws::law_orderly_kept(
                e,
                B as nat,
                EngineOp::Fork {
                    id: ArtifactId(tokens::key_of(tokens@)),
                    tokens: tokens@,
                    keys: tokens::keys_of(tokens@, B as nat),
                    source,
                    agent,
                },
            );
            assert(self.holds(e) && self.holds(engine@));
        }
        handle.release_write(engine);
        result
    }

    /// Checks every artifact: that it is coherent, and that the tokens of a valid
    /// one are those of its blocks. None fails.
    pub fn check_invariants(&self) -> (result: Result<(), ArtifactId>)
        ensures
            result is Ok,
    {
        let handle = self.lock.acquire_read();
        let result = handle.borrow().check_invariants();
        proof {
            let e = handle@@;
            assert(self.holds(e));
            assert forall|x: u64| e.artifacts.contains_key(x) implies (
            #[trigger] e.artifacts[x]).sized(B as nat) && e.artifacts[x].coherent(e.k_bound) by {
                assert(e.artifacts[x].wf(B as nat));
            }
        }
        handle.release_read();
        result
    }

    /// The number of bytes per token.
    pub fn element_stride(&self) -> (stride: usize)
        ensures
            stride == self.measures().stride,
    {
        let handle = self.lock.acquire_read();
        let stride: usize = handle.borrow().element_stride();
        assert(self.holds(handle@@));
        handle.release_read();
        stride
    }

    /// The number of blocks in use and the number of blocks.
    pub fn stats(&self) -> (counts: (usize, usize))
        ensures
            counts.1 == self.measures().capacity,
            exists|e: EngineView| #[trigger]
                self.holds(e) && counts.0 == counts.1 - e.kv.slab.free.len(),
    {
        let handle = self.lock.acquire_read();
        let counts = handle.borrow().stats();
        assert(self.holds(handle@@));
        handle.release_read();
        counts
    }
}

impl<const B: usize> Clone for SyncEngine<B> {
    fn clone(&self) -> (other: Self)
        ensures
            other == *self,
    {
        SyncEngine { lock: self.lock.clone() }
    }
}

} // verus!
