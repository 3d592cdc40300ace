//! Serves requests from the engine: from an artifact that is there, or from one
//! that is registered for the request.

use crate::coherence::engine::CoherenceEngine;
use crate::coherence::engine_laws;
use crate::coherence::engine_model::{EngineOp, EngineView};
use crate::coherence::ownership;
use crate::coherence::protocol_laws;
use crate::coherence::routing;
use crate::coherence::sync::SyncEngine;
use crate::coherence::{AgentId, ArtifactId, CoherenceError, MesiState};
use crate::kv::cache;
use crate::kv::ledger;
use crate::kv::tokens;
use crate::kv::BlockId;
use crate::kv::TokenId;
use vstd::prelude::*;

verus! {

/// What an agent asks for: the blocks of `tokens`, with the data to cache if they
/// are not cached yet, one run of bytes for each block.
pub struct Request {
    pub tokens: Vec<TokenId>,
    pub kv_data: Vec<Vec<u8>>,
    pub agent: AgentId,
}

/// What it gets: the artifact that serves the request and its blocks, and whether
/// the artifact was there already.
#[derive(Debug)]
pub struct Response {
    pub artifact_id: ArtifactId,
    pub blocks: Vec<BlockId>,
    pub cache_hit: bool,
}

/// Why a request fails.
#[derive(Debug, Clone, Copy, PartialEq, Eq, Structural)]
pub enum SchedulerError {
    /// The engine refused a step.
    Coherence(CoherenceError),
    /// A stale artifact was renewed, and still could not be read.
    RecoveryFailed(CoherenceError),
}

/// The bytes of each item.
pub open spec fn item_bytes(data: Seq<Vec<u8>>) -> Seq<Seq<u8>> {
    Seq::new(data.len(), |i: int| data[i]@)
}

/// A stale artifact is renewed with the data of the request: invalidated, acquired,
/// written, written back, and read.
pub open spec fn after_recover(
    e: EngineView,
    b: nat,
    id: ArtifactId,
    agent: AgentId,
    tokens: Seq<TokenId>,
    data: Seq<Seq<u8>>,
) -> (EngineView, Result<Seq<BlockId>, SchedulerError>) {
    match e.after_invalidate(b, id) {
        (e1, Err(why)) => (e1, Err(SchedulerError::Coherence(why))),
        (e1, Ok(_)) => match e1.after_acquire(id, agent) {
            (e2, Err(why)) => (e2, Err(SchedulerError::Coherence(why))),
            (e2, Ok(_)) => match e2.after_write(b, id, agent, tokens, data) {
                (e3, Err(why)) => (e3, Err(SchedulerError::Coherence(why))),
                (e3, Ok(_)) => match e3.after_writeback(b, id) {
                    (e4, Err(why)) => (e4, Err(SchedulerError::Coherence(why))),
                    (e4, Ok(_)) => match e4.after_read(id, agent) {
                        (e5, Err(why)) => (e5, Err(SchedulerError::RecoveryFailed(why))),
                        (e5, Ok(blocks)) => (e5, Ok(blocks)),
                    },
                },
            },
        },
    }
}

/// An artifact is read, and renewed first if the reader is too far behind.
pub open spec fn after_read_with_recovery(
    e: EngineView,
    b: nat,
    id: ArtifactId,
    agent: AgentId,
    tokens: Seq<TokenId>,
    data: Seq<Seq<u8>>,
) -> (EngineView, Result<Seq<BlockId>, SchedulerError>) {
    match e.after_read(id, agent) {
        (next, Ok(blocks)) => (next, Ok(blocks)),
        (next, Err(CoherenceError::KBoundExceeded)) => after_recover(
            next,
            b,
            id,
            agent,
            tokens,
            data,
        ),
        (next, Err(why)) => (next, Err(SchedulerError::Coherence(why))),
    }
}

/// A request is served from the artifact that `route` names, or else from one that
/// is registered for it.
pub open spec fn after_handle(
    e: EngineView,
    b: nat,
    tokens: Seq<TokenId>,
    data: Seq<Seq<u8>>,
    agent: AgentId,
    route: Option<(ArtifactId, Seq<BlockId>)>,
) -> (EngineView, Result<(ArtifactId, Seq<BlockId>, bool), SchedulerError>) {
    match route {
        Some((id, _)) => match after_read_with_recovery(e, b, id, agent, tokens, data) {
            (next, Ok(blocks)) => (next, Ok((id, blocks, true))),
            (next, Err(why)) => (next, Err(why)),
        },
        None => match e.after_register(b, tokens, data, agent) {
            (next, Err(why)) => (next, Err(SchedulerError::Coherence(why))),
            (next, Ok(id)) => match next.after_read(id, agent) {
                (last, Err(why)) => (last, Err(SchedulerError::Coherence(why))),
                (last, Ok(blocks)) => (last, Ok((id, blocks, false))),
            },
        },
    }
}

/// `result` says what `outcome` says of the blocks that were read.
pub open spec fn reports_blocks(
    result: Result<Vec<BlockId>, SchedulerError>,
    outcome: Result<Seq<BlockId>, SchedulerError>,
) -> bool {
    match result {
        Ok(blocks) => outcome == Ok::<Seq<BlockId>, SchedulerError>(blocks@),
        Err(why) => outcome == Err::<Seq<BlockId>, SchedulerError>(why),
    }
}

/// `result` says what `outcome` says of the request.
pub open spec fn reports(
    result: Result<Response, SchedulerError>,
    outcome: Result<(ArtifactId, Seq<BlockId>, bool), SchedulerError>,
) -> bool {
    match result {
        Ok(r) => outcome == Ok::<(ArtifactId, Seq<BlockId>, bool), SchedulerError>(
            (r.artifact_id, r.blocks@, r.cache_hit),
        ),
        Err(why) => outcome == Err::<(ArtifactId, Seq<BlockId>, bool), SchedulerError>(why),
    }
}

/// The items of a request as slices.
fn as_slices(data: &Vec<Vec<u8>>) -> (slices: Vec<&[u8]>)
    ensures
        cache::byte_views(slices@) == item_bytes(data@),
        slices@.len() == data@.len(),
{
    let mut slices: Vec<&[u8]> = Vec::new();
    let mut i: usize = 0;
    while i < data.len()
        invariant
            i <= data.len(),
            slices@.len() == i,
            forall|j: int| 0 <= j < i ==> (#[trigger] slices@[j])@ == data@[j]@,
        decreases data.len() - i,
    {
        slices.push(data[i].as_slice());
        i = i + 1;
    }
    assert(cache::byte_views(slices@) =~= item_bytes(data@));
    slices
}

/// A scheduler over a shared engine.
pub struct Scheduler<const B: usize> {
    engine: SyncEngine<B>,
}

impl<const B: usize> Scheduler<B> {
    /// The engine that requests are served from.
    pub closed spec fn engine(&self) -> SyncEngine<B> {
        self.engine
    }

    /// A scheduler over `engine`.
    pub fn new(engine: SyncEngine<B>) -> (scheduler: Self)
        ensures
            scheduler.engine() == engine,
    {
        Scheduler { engine }
    }

    /// Renews artifact `id` of `engine` with the data of `req`, and reads it.
    fn recover(engine: &mut CoherenceEngine<B>, id: ArtifactId, req: &Request) -> (result: Result<
        Vec<BlockId>,
        SchedulerError,
    >)
        requires
            old(engine).wf(),
        ensures
            final(engine).wf(),
            final(engine)@ == after_recover(
                old(engine)@,
                B as nat,
                id,
                req.agent,
                req.tokens@,
                item_bytes(req.kv_data@),
            ).0,
            reports_blocks(
                result,
                after_recover(
                    old(engine)@,
                    B as nat,
                    id,
                    req.agent,
                    req.tokens@,
                    item_bytes(req.kv_data@),
                ).1,
            ),
            old(engine)@.orderly(B as nat) ==> final(engine)@.orderly(B as nat),
            final(engine)@.kv.slab.capacity == old(engine)@.kv.slab.capacity,
            final(engine)@.kv.slab.stride == old(engine)@.kv.slab.stride,
            final(engine)@.k_bound == old(engine)@.k_bound,
    {
        let ghost b = B as nat;
        let agent: AgentId = req.agent;
        let slices = as_slices(&req.kv_data);
        let ghost data = item_bytes(req.kv_data@);
        let ghost e0 = engine@;
        proof {
            if e0.orderly(b) {
                engine_laws::law_orderly_kept(e0, b, EngineOp::Invalidate { id });
            }
        }
        match engine.invalidate(id) {
            Ok(_) => {},
            Err(why) => {
                return Err(SchedulerError::Coherence(why));
            },
        }
        let ghost e1 = engine@;
        proof {
            if e1.orderly(b) {
                engine_laws::law_orderly_kept(e1, b, EngineOp::Acquire { id, agent });
            }
        }
        match engine.acquire(id, agent) {
            Ok(_) => {},
            Err(why) => {
                return Err(SchedulerError::Coherence(why));
            },
        }
        let ghost e2 = engine@;
        proof {
            if e2.orderly(b) {
                engine_laws::law_orderly_kept(
                    e2,
                    b,
                    EngineOp::Write {
                        id,
                        agent,
                        tokens: req.tokens@,
                        keys: tokens::keys_of(req.tokens@, b),
                        data,
                    },
                );
            }
        }
        match engine.write(id, agent, req.tokens.as_slice(), slices.as_slice()) {
            Ok(_) => {},
            Err(why) => {
                return Err(SchedulerError::Coherence(why));
            },
        }
        let ghost e3 = engine@;
        proof {
            if e3.orderly(b) {
                engine_laws::law_orderly_kept(e3, b, EngineOp::Writeback { id });
            }
        }
        match engine.writeback(id) {
            Ok(_) => {},
            Err(why) => {
                return Err(SchedulerError::Coherence(why));
            },
        }
        let ghost e4 = engine@;
        proof {
            if e4.orderly(b) {
                engine_laws::law_orderly_kept(e4, b, EngineOp::Read { id, agent });
            }
        }
        match engine.read(id, agent) {
            Ok(blocks) => Ok(blocks),
            Err(why) => Err(SchedulerError::RecoveryFailed(why)),
        }
    }

    /// Reads artifact `id` of `engine`, and renews it first if the reader is too far
    /// behind.
    fn read_with_recovery(engine: &mut CoherenceEngine<B>, id: ArtifactId, req: &Request) -> (result:
        Result<Vec<BlockId>, SchedulerError>)
        requires
            old(engine).wf(),
        ensures
            final(engine).wf(),
            final(engine)@ == after_read_with_recovery(
                old(engine)@,
                B as nat,
                id,
                req.agent,
                req.tokens@,
                item_bytes(req.kv_data@),
            ).0,
            reports_blocks(
                result,
                after_read_with_recovery(
                    old(engine)@,
                    B as nat,
                    id,
                    req.agent,
                    req.tokens@,
                    item_bytes(req.kv_data@),
                ).1,
            ),
            old(engine)@.orderly(B as nat) ==> final(engine)@.orderly(B as nat),
            final(engine)@.kv.slab.capacity == old(engine)@.kv.slab.capacity,
            final(engine)@.kv.slab.stride == old(engine)@.kv.slab.stride,
            final(engine)@.k_bound == old(engine)@.k_bound,
    {
        proof {
            if engine@.orderly(B as nat) {
                engine_laws::law_orderly_kept(
                    engine@,
                    B as nat,
                    EngineOp::Read { id, agent: req.agent },
                );
            }
        }
        match engine.read(id, req.agent) {
            Ok(blocks) => Ok(blocks),
            Err(CoherenceError::KBoundExceeded) => Self::recover(engine, id, req),
            Err(why) => Err(SchedulerError::Coherence(why)),
        }
    }

    /// Serves `req` from an engine that nobody else uses.
    ///
    /// After a miss each block of the response that was not cached before holds its item
    /// of the request's data, and those that were cached hold what they held.
    pub fn handle_with(engine: &mut CoherenceEngine<B>, req: &Request) -> (result: Result<
        Response,
        SchedulerError,
    >)
        requires
            old(engine).wf(),
        ensures
            final(engine).wf(),
            exists|route: Option<(ArtifactId, Seq<BlockId>)>| #[trigger]
                old(engine)@.serves(
                    B as nat,
                    req.tokens@,
                    tokens::keys_of(req.tokens@, B as nat),
                    route,
                ) && final(engine)@ == after_handle(
                    old(engine)@,
                    B as nat,
                    req.tokens@,
                    item_bytes(req.kv_data@),
                    req.agent,
                    route,
                ).0 && reports(
                    result,
                    after_handle(
                        old(engine)@,
                        B as nat,
                        req.tokens@,
                        item_bytes(req.kv_data@),
                        req.agent,
                        route,
                    ).1,
                ),
            old(engine)@.orderly(B as nat) ==> final(engine)@.orderly(B as nat),
            final(engine)@.kv.slab.capacity == old(engine)@.kv.slab.capacity,
            final(engine)@.kv.slab.stride == old(engine)@.kv.slab.stride,
            final(engine)@.k_bound == old(engine)@.k_bound,
            result matches Ok(r) ==> r.cache_hit || {
                let before = old(engine)@.kv;
                let after = final(engine)@.kv.slab;
                let keys = tokens::keys_of(req.tokens@, B as nat);
                let cached = before.found(B as nat, req.tokens@, keys);
                &&& r.blocks@.len() == req.kv_data@.len()
                &&& forall|j: int|
                    #![trigger r.blocks@[j]]
                    0 <= j < r.blocks@.len() ==> {
                        let i = r.blocks@[j].0 as int;
                        &&& after.committed[i]
                        &&& j < cached.len() ==> r.blocks@[j] == cached[j] && after.blocks[i]
                            == before.slab.blocks[i]
                        &&& cached.len() <= j ==> after.blocks[i] == req.kv_data@[j]@
                    }
            },
    {
        let ghost b = B as nat;
        let ghost keys = tokens::keys_of(req.tokens@, b);
        let ghost e0 = engine@;
        match engine.lookup(req.tokens.as_slice()) {
            Some(hit) => {
                assert(e0.serves(b, req.tokens@, keys, Some((hit.artifact_id, hit.blocks@))));
                match Self::read_with_recovery(engine, hit.artifact_id, req) {
                    Ok(blocks) => Ok(
                        Response { artifact_id: hit.artifact_id, blocks, cache_hit: true },
                    ),
                    Err(why) => Err(why),
                }
            },
            None => {
                assert(e0.serves(b, req.tokens@, keys, None));
                proof {
                    law_miss(e0, b, req.tokens@, item_bytes(req.kv_data@), req.agent);
                }
                let slices = as_slices(&req.kv_data);
                proof {
                    if e0.orderly(b) {
                        engine_laws::law_orderly_kept(
                            e0,
                            b,
                            EngineOp::Register {
                                id: ArtifactId(tokens::key_of(req.tokens@)),
                                tokens: req.tokens@,
                                keys,
                                data: item_bytes(req.kv_data@),
                                agent: req.agent,
                            },
                        );
                    }
                }
                match engine.register(req.tokens.as_slice(), slices.as_slice(), req.agent) {
                    Ok(id) => {
                        proof {
                            if engine@.orderly(b) {
                                engine_laws::law_orderly_kept(
                                    engine@,
                                    b,
                                    EngineOp::Read { id, agent: req.agent },
                                );
                            }
                        }
                        match engine.read(id, req.agent) {
                            Ok(blocks) => Ok(
                                Response { artifact_id: id, blocks, cache_hit: false },
                            ),
                            Err(why) => Err(SchedulerError::Coherence(why)),
                        }
                    },
                    Err(why) => Err(SchedulerError::Coherence(why)),
                }
            },
        }
    }

    /// Serves `req`: from the artifact that covers the longest prefix of its
    /// tokens, or from a new one. A reader that is too far behind has the artifact
    /// renewed with the data of the request.
    ///
    /// The engine is taken for the whole request, so that nobody else acts between its
    /// steps.
    pub fn handle(&self, req: &Request) -> (result: Result<Response, SchedulerError>)
        ensures
            exists|
                e: EngineView,
                next: EngineView,
                route: Option<(ArtifactId, Seq<BlockId>)>,
            |
                #![trigger e.serves(
                    B as nat,
                    req.tokens@,
                    tokens::keys_of(req.tokens@, B as nat),
                    route,
                ), self.engine().holds(next)]
                {
                    &&& self.engine().holds(e)
                    &&& self.engine().holds(next)
                    &&& e.serves(
                        B as nat,
                        req.tokens@,
                        tokens::keys_of(req.tokens@, B as nat),
                        route,
                    )
                    &&& next == after_handle(
                        e,
                        B as nat,
                        req.tokens@,
                        item_bytes(req.kv_data@),
                        req.agent,
                        route,
                    ).0
                    &&& reports(
                        result,
                        after_handle(
                            e,
                            B as nat,
                            req.tokens@,
                            item_bytes(req.kv_data@),
                            req.agent,
                            route,
                        ).1,
                    )
                },
    {
        let (mut engine, handle) = self.engine.take();
        let ghost e = engine@;
        let result = Self::handle_with(&mut engine, req);
        proof {
            assert(self.engine().holds(e));
            assert(self.engine().holds(engine@));
        }
        handle.release_write(engine);
        result
    }

    /// Checks every artifact. None fails.
    pub fn check_invariants(&self) -> (result: Result<(), ArtifactId>)
        ensures
            result is Ok,
    {
        self.engine.check_invariants()
    }

    /// The number of bytes per token.
    pub fn element_stride(&self) -> (stride: usize)
        ensures
            stride == self.engine().measures().stride,
    {
        self.engine.element_stride()
    }

    /// The number of blocks in use and the number of blocks.
    pub fn stats(&self) -> (counts: (usize, usize))
        ensures
            counts.1 == self.engine().measures().capacity,
            exists|e: EngineView| #[trigger]
                self.engine().holds(e) && counts.0 == counts.1 - e.kv.slab.free.len(),
    {
        let counts = self.engine.stats();
        proof {
            let e = choose|e: EngineView| #[trigger]
                self.engine.holds(e) && counts.0 == counts.1 - e.kv.slab.free.len();
            assert(self.engine().holds(e));
        }
        counts
    }
}

/// Recovery works whenever the cache takes the data: an artifact that can be
/// invalidated is renewed and read, with one block for each block of the request,
/// exactly if the data can be stored once the old blocks are released and no counter
/// is full. It never ends in an artifact that still cannot be read.
pub proof fn law_recovery(
    e: EngineView,
    b: nat,
    id: ArtifactId,
    agent: AgentId,
    tokens: Seq<TokenId>,
    data: Seq<Seq<u8>>,
)
    requires
        e.wf(b),
        e.has(id),
        e.entry(id).is_readable(),
    ensures
        ({
            let keys = tokens::keys_of(tokens, b);
            let (next, result) = after_recover(e, b, id, agent, tokens, data);
            let released = e.kv.after_release(e.entry(id).blocks);
            let stored = released.after_store(b, tokens, data, keys, Seq::empty()).1;
            if e.entry(id).ver == u64::MAX || !released.can_share(b, tokens, keys) {
                result == Err::<Seq<BlockId>, SchedulerError>(
                    SchedulerError::Coherence(CoherenceError::CounterFull),
                )
            } else {
                match stored {
                    Ok(blocks) => {
                        &&& result == Ok::<Seq<BlockId>, SchedulerError>(blocks)
                        &&& next.entry(id).sharers.contains(agent)
                        &&& next.entry(id).last_seen(agent) == next.entry(id).ver
                    },
                    Err(why) => result == Err::<Seq<BlockId>, SchedulerError>(
                        SchedulerError::Coherence(CoherenceError::KvError(why)),
                    ),
                }
            }
        }),
{
}

/// Handled once, found the next time: a request that was served from a new
/// artifact leaves an engine in which that artifact, with the blocks of the
/// response, serves the same tokens. Whoever asks for them next has a hit, and gets
/// the same blocks.
pub proof fn law_handle_then_hit(
    e: EngineView,
    b: nat,
    tokens: Seq<TokenId>,
    data: Seq<Seq<u8>>,
    agent: AgentId,
    again: Seq<Seq<u8>>,
    reader: AgentId,
    route: Option<(ArtifactId, Seq<BlockId>)>,
)
    requires
        e.wf(b),
        0 < tokens.len(),
        after_handle(e, b, tokens, data, agent, None).1 is Ok,
        after_handle(e, b, tokens, data, agent, None).0.serves(
            b,
            tokens,
            tokens::keys_of(tokens, b),
            route,
        ),
    ensures
        ({
            let (next, result) = after_handle(e, b, tokens, data, agent, None);
            let (id, blocks, hit) = result->Ok_0;
            &&& !hit
            &&& id == ArtifactId(tokens::key_of(tokens))
            &&& blocks.len() == tokens::block_count(tokens, b)
            &&& route == Some((id, blocks))
            &&& after_handle(next, b, tokens, again, reader, route).1 == Ok::<
                (ArtifactId, Seq<BlockId>, bool),
                SchedulerError,
            >((id, blocks, true))
        }),
{
    let keys = tokens::keys_of(tokens, b);
    let id = ArtifactId(tokens::key_of(tokens));
    let (next, result) = after_handle(e, b, tokens, data, agent, None);
    let blocks = result->Ok_0.1;
    engine_laws::law_register_then_lookup(e, b, id, tokens, keys, data, agent);
    engine_laws::law_lookup_unique(next, b, tokens, keys, route, Some((id, blocks)));
}

/// A hit serves the cached blocks and changes nothing but who reads: where a readable
/// artifact covers some first blocks of the request and the reader is not too far
/// behind, the answer names that artifact and its blocks, no block is taken, and every
/// other artifact stays as it is.
pub proof fn law_hit(
    e: EngineView,
    b: nat,
    tokens: Seq<TokenId>,
    data: Seq<Seq<u8>>,
    agent: AgentId,
    id: ArtifactId,
    blocks: Seq<BlockId>,
)
    requires
        e.serves(b, tokens, tokens::keys_of(tokens, b), Some((id, blocks))),
        !e.entry(id).too_stale(agent, e.k_bound),
    ensures
        ({
            let (next, result) = after_handle(e, b, tokens, data, agent, Some((id, blocks)));
            &&& result == Ok::<(ArtifactId, Seq<BlockId>, bool), SchedulerError>(
                (id, blocks, true),
            )
            &&& next == e.put(id, e.entry(id).read_by(agent))
            &&& next.kv == e.kv
        }),
{
}

/// A reader that is too far behind is served all the same: where the cache takes the
/// data of the request once the old blocks are released and no counter is full, the
/// artifact is renewed, and the answer holds one block for each block of the request.
pub proof fn law_stale_reader_served(
    e: EngineView,
    b: nat,
    tokens: Seq<TokenId>,
    data: Seq<Seq<u8>>,
    agent: AgentId,
    id: ArtifactId,
    blocks: Seq<BlockId>,
)
    requires
        e.wf(b),
        e.serves(b, tokens, tokens::keys_of(tokens, b), Some((id, blocks))),
        e.entry(id).too_stale(agent, e.k_bound),
        e.entry(id).ver < u64::MAX,
        ({
            let keys = tokens::keys_of(tokens, b);
            let released = e.kv.after_release(e.entry(id).blocks);
            &&& released.can_share(b, tokens, keys)
            &&& released.takes(b, tokens, data, keys)
        }),
    ensures
        ({
            let (next, result) = after_handle(e, b, tokens, data, agent, Some((id, blocks)));
            let (name, renewed, hit) = result->Ok_0;
            &&& result is Ok
            &&& name == id
            &&& hit
            &&& renewed.len() == tokens::block_count(tokens, b)
            &&& next.entry(id).blocks == renewed
            &&& next.entry(id).last_seen(agent) == next.entry(id).ver
        }),
{
    let keys = tokens::keys_of(tokens, b);
    law_recovery(e, b, id, agent, tokens, data);
    let op = EngineOp::Invalidate { id };
    ownership::law_wf_kept(e, b, op);
    let released = e.after(b, op);
    assert(released.lists()[id.0] =~= Seq::empty());
    engine_laws::lemma_store_succeeds(released.kv, b, tokens, data, keys, Seq::empty());
    ledger::law_store(released.kv, b, tokens, data, keys, released.lists(), id.0);
}

/// The items of a request are handed on as they are, in their order.
pub proof fn law_items(data: Seq<Vec<u8>>)
    ensures
        item_bytes(data).len() == data.len(),
        forall|i: int| 0 <= i < data.len() ==> #[trigger] item_bytes(data)[i] == data[i]@,
{
}

/// A miss: a request that no artifact serves is served from a new artifact, exactly if
/// there is none of its name, there is room for the data, and no counter is full.
/// Otherwise the request fails, and every artifact is as it was. The new artifact has
/// the name of the tokens and stands for all of them; it is shared, at its first
/// version, and the agent that asked is the only one that reads it and has seen it. The
/// answer lists its blocks, one for each block of the tokens: those that were cached
/// are used as they are, and each other holds its item of the request's data.
pub proof fn law_miss(
    e: EngineView,
    b: nat,
    tokens: Seq<TokenId>,
    data: Seq<Seq<u8>>,
    agent: AgentId,
)
    requires
        e.wf(b),
    ensures
        ({
            let (next, result) = after_handle(e, b, tokens, data, agent, None);
            let id = ArtifactId(tokens::xxh3_digest(tokens::token_bytes(tokens)));
            let keys = tokens::keys_of(tokens, b);
            let cached = e.kv.found(b, tokens, keys);
            let is = next.artifacts[id.0];
            if e.artifacts.contains_key(id.0) {
                &&& result == failed(CoherenceError::AlreadyExists)
                &&& next == e
            } else if protocol_laws::counter_full(e, b, tokens, keys) {
                &&& result == failed(CoherenceError::CounterFull)
                &&& next == e
            } else if !protocol_laws::has_room(e, b, tokens, keys, data) {
                &&& result == failed(protocol_laws::refused_with(e, b, tokens, keys, data))
                &&& next.artifacts == e.artifacts
                &&& next.routes == e.routes
                &&& protocol_laws::spares_others(e, next, id)
            } else {
                &&& result == Ok::<(ArtifactId, Seq<BlockId>, bool), SchedulerError>(
                    (id, is.blocks, false),
                )
                &&& next.artifacts.contains_key(id.0)
                &&& is.state == MesiState::Shared
                &&& is.owner is None
                &&& is.ver == 0
                &&& is.sharers == set![agent]
                &&& is.seen == map![agent => 0u64]
                &&& is.tokens == tokens
                &&& is.keys == keys
                &&& is.blocks.len() == tokens.len() / b
                &&& protocol_laws::holds_data(e.kv.slab, next.kv.slab, cached, is.blocks, data)
                &&& protocol_laws::spares_others(e, next, id)
                &&& protocol_laws::filed_last(
                    e,
                    next,
                    id,
                    routing::path_of(keys, tokens, b),
                )
            }
        }),
{
    let id = ArtifactId(tokens::key_of(tokens));
    let keys = tokens::keys_of(tokens, b);
    protocol_laws::law_register_succeeds(e, b, tokens, data, agent);
    let (mid, result) = e.after_register(b, tokens, data, agent);
    if e.artifacts.contains_key(id.0) || !protocol_laws::counter_full(e, b, tokens, keys) {
        protocol_laws::law_register_outcome(e, b, id, tokens, keys, data, agent);
        if result is Err && !e.artifacts.contains_key(id.0) {
            assert(mid.artifacts.remove(id.0) =~= mid.artifacts);
            assert(e.artifacts.remove(id.0) =~= e.artifacts);
        }
    }
    if result is Ok {
        protocol_laws::law_read_outcome(mid, id, agent);
        let next = mid.after_read(id, agent).0;
        let is = next.artifacts[id.0];
        assert(is.sharers =~= set![agent]);
        assert(is.seen =~= map![agent => 0u64]) by {
            assert forall|a: AgentId| a != agent implies !#[trigger] is.seen.contains_key(a) by {
                assert(is.seen.remove(agent).contains_key(a) == is.seen.contains_key(a));
                assert(!mid.artifacts[id.0].seen.remove(agent).contains_key(a));
            }
        }
        assert(next.artifacts.remove(id.0) =~= mid.artifacts.remove(id.0));
    }
}

/// The failure of a request that the engine refuses.
pub open spec fn failed(why: CoherenceError) -> Result<
    (ArtifactId, Seq<BlockId>, bool),
    SchedulerError,
> {
    Err(SchedulerError::Coherence(why))
}

/// A hit: a request that an exclusive or shared artifact serves, and whose agent has not
/// read it yet or is at most the bound behind, is answered with the blocks of that
/// artifact. The artifact is then shared and has no owner, and the agent is among its
/// sharers and has seen its version. Nothing else changes, and no data is stored.
pub proof fn law_hit_outcome(
    e: EngineView,
    b: nat,
    tokens: Seq<TokenId>,
    data: Seq<Seq<u8>>,
    agent: AgentId,
    id: ArtifactId,
    blocks: Seq<BlockId>,
)
    requires
        e.artifacts.contains_key(id.0),
        ({
            let was = e.artifacts[id.0];
            &&& was.state == MesiState::Exclusive || was.state == MesiState::Shared
            &&& was.seen.contains_key(agent) ==> was.ver <= was.seen[agent] + e.k_bound
        }),
    ensures
        ({
            let (next, result) = after_handle(e, b, tokens, data, agent, Some((id, blocks)));
            let was = e.artifacts[id.0];
            let is = next.artifacts[id.0];
            &&& result == Ok::<(ArtifactId, Seq<BlockId>, bool), SchedulerError>(
                (id, was.blocks, true),
            )
            &&& is.state == MesiState::Shared
            &&& is.owner is None
            &&& is.sharers == was.sharers.insert(agent)
            &&& is.seen == was.seen.insert(agent, was.ver)
            &&& is.ver == was.ver
            &&& is.blocks == was.blocks
            &&& is.tokens == was.tokens
            &&& is.keys == was.keys
            &&& next.artifacts == e.artifacts.insert(id.0, is)
            &&& next.routes == e.routes
            &&& next.kv == e.kv
            &&& next.k_bound == e.k_bound
        }),
{
}

/// A request that is sent to an artifact that does not exist, or that is modified or
/// invalid, fails, and nothing changes.
pub proof fn law_dead_end(
    e: EngineView,
    b: nat,
    tokens: Seq<TokenId>,
    data: Seq<Seq<u8>>,
    agent: AgentId,
    id: ArtifactId,
    blocks: Seq<BlockId>,
)
    ensures
        ({
            let outcome = after_handle(e, b, tokens, data, agent, Some((id, blocks)));
            let state = e.artifacts[id.0].state;
            &&& !e.artifacts.contains_key(id.0) ==> outcome == (
                e,
                failed(CoherenceError::NotFound),
            )
            &&& e.artifacts.contains_key(id.0) && (state == MesiState::Modified || state
                == MesiState::Invalid) ==> outcome == (e, failed(CoherenceError::WrongState))
        }),
{
}

/// A renewal: a request whose agent is more than the bound behind the artifact that
/// serves it has the artifact renewed. Its old blocks are given back; it is then
/// written with the tokens and the data of the request, exactly if there is room for
/// them and no counter is full. It is one version further, and shared with that agent
/// alone, who has seen the new version; what others have seen stays. The answer lists
/// its new blocks: those that are cached are used as they are, and each other holds its
/// item of the request's data. It is filed at the route of the new tokens. Where it
/// cannot be written, the agent is left with the artifact, exclusive and without blocks.
/// Every other artifact is as it was, and so is what its blocks hold.
pub proof fn law_renewal(
    e: EngineView,
    b: nat,
    tokens: Seq<TokenId>,
    data: Seq<Seq<u8>>,
    agent: AgentId,
    id: ArtifactId,
    blocks: Seq<BlockId>,
)
    requires
        e.wf(b),
        e.artifacts.contains_key(id.0),
        ({
            let was = e.artifacts[id.0];
            &&& was.state == MesiState::Exclusive || was.state == MesiState::Shared
            &&& was.seen.contains_key(agent) && was.ver > was.seen[agent] + e.k_bound
        }),
    ensures
        ({
            let (next, result) = after_handle(e, b, tokens, data, agent, Some((id, blocks)));
            let keys = tokens::keys_of(tokens, b);
            let released = e.after_invalidate(b, id).0;
            let cached = released.kv.found(b, tokens, keys);
            let path = routing::path_of(keys, tokens, b);
            let was = e.artifacts[id.0];
            let is = next.artifacts[id.0];
            let full = was.ver == u64::MAX || protocol_laws::counter_full(
                released,
                b,
                tokens,
                keys,
            );
            &&& next.artifacts.contains_key(id.0)
            &&& protocol_laws::spares_others(e, next, id)
            &&& next.k_bound == e.k_bound
            &&& if full || !protocol_laws::has_room(released, b, tokens, keys, data) {
                &&& result == failed(
                    if full {
                        CoherenceError::CounterFull
                    } else {
                        protocol_laws::refused_with(released, b, tokens, keys, data)
                    },
                )
                &&& is.state == MesiState::Exclusive
                &&& is.owner == Some(agent)
                &&& is.sharers == Set::<AgentId>::empty()
                &&& is.seen == was.seen
                &&& is.ver == was.ver
                &&& is.blocks.len() == 0
            } else {
                &&& result == Ok::<(ArtifactId, Seq<BlockId>, bool), SchedulerError>(
                    (id, is.blocks, true),
                )
                &&& is.state == MesiState::Shared
                &&& is.owner is None
                &&& is.sharers == set![agent]
                &&& is.ver == was.ver + 1
                &&& is.seen.contains_key(agent) && is.seen[agent] == was.ver + 1
                &&& is.seen.remove(agent) == was.seen.remove(agent)
                &&& is.tokens == tokens
                &&& is.keys == keys
                &&& is.blocks.len() == tokens.len() / b
                &&& protocol_laws::holds_data(
                    released.kv.slab,
                    next.kv.slab,
                    cached,
                    is.blocks,
                    data,
                )
                &&& path.len() > 0 ==> next.routes.lists.contains_key(path)
                    && next.routes.lists[path].last() == id
            }
        }),
{
    let keys = tokens::keys_of(tokens, b);
    let was = e.artifacts[id.0];
    protocol_laws::law_read_outcome(e, id, agent);
    protocol_laws::law_invalidate_outcome(e, b, id);
    protocol_laws::law_invalidate_spares(e, b, id);
    ownership::law_wf_kept(e, b, EngineOp::Invalidate { id });
    let e1 = e.after_invalidate(b, id).0;
    protocol_laws::law_acquire(e1, id, agent);
    ownership::law_wf_kept(e1, b, EngineOp::Acquire { id, agent });
    let e2 = e1.after_acquire(id, agent).0;
    assert(e2.artifacts.remove(id.0) =~= e1.artifacts.remove(id.0));
    protocol_laws::law_write_succeeds(e2, b, id, agent, tokens, data);
    let (e3, written) = e2.after_write(b, id, agent, tokens, data);
    if was.ver < u64::MAX && !protocol_laws::counter_full(e1, b, tokens, keys) {
        protocol_laws::law_write_outcome(e2, b, id, agent, tokens, keys, data);
        ownership::law_wf_kept(
            e2,
            b,
            EngineOp::Write { id, agent, tokens, keys, data },
        );
        lemma_spared(e, e1, e2, id);
        lemma_spared(e, e2, e3, id);
        if written is Ok {
            protocol_laws::law_writeback_outcome(e3, b, id);
            let e4 = e3.after_writeback(b, id).0;
            protocol_laws::law_read_outcome(e4, id, agent);
            let e5 = e4.after_read(id, agent).0;
            assert(e5.artifacts[id.0].sharers =~= set![agent]);
            assert(e5.artifacts.remove(id.0) =~= e3.artifacts.remove(id.0));
            lemma_spared(e, e3, e5, id);
        }
    } else {
        lemma_spared(e, e1, e2, id);
    }
}

/// Steps that each spare the other artifacts spare them together.
proof fn lemma_spared(e: EngineView, mid: EngineView, next: EngineView, id: ArtifactId)
    requires
        protocol_laws::spares_others(e, mid, id),
        protocol_laws::spares_others(mid, next, id),
    ensures
        protocol_laws::spares_others(e, next, id),
{
    assert forall|x: u64, j: int|
        e.artifacts.contains_key(x) && x != id.0 && 0 <= j < e.artifacts[x].blocks.len() implies {
        let i = (#[trigger] e.artifacts[x].blocks[j]).0 as int;
        &&& next.kv.slab.committed[i] == e.kv.slab.committed[i]
        &&& next.kv.slab.committed[i] ==> next.kv.slab.blocks[i] == e.kv.slab.blocks[i]
    } by {
        assert(e.artifacts.remove(id.0).contains_key(x));
        assert(mid.artifacts.remove(id.0)[x] == e.artifacts.remove(id.0)[x]);
        assert(mid.artifacts.contains_key(x));
        assert(mid.artifacts[x].blocks[j] == e.artifacts[x].blocks[j]);
    }
}

/// What is reported is what came out: the artifact, its blocks and whether it was a hit,
/// or the error.
pub proof fn law_reports(
    result: Result<Response, SchedulerError>,
    outcome: Result<(ArtifactId, Seq<BlockId>, bool), SchedulerError>,
)
    requires
        reports(result, outcome),
    ensures
        result is Ok <==> outcome is Ok,
        result matches Ok(r) ==> r.artifact_id == outcome->Ok_0.0 && r.blocks@ == outcome->Ok_0.1
            && r.cache_hit == outcome->Ok_0.2,
        result matches Err(why) ==> why == outcome->Err_0,
{
}

/// An artifact that does not exist, or that is modified or invalid, cannot be renewed:
/// that is reported as the engine's refusal, and nothing changes.
pub proof fn law_renewal_refused(
    e: EngineView,
    b: nat,
    id: ArtifactId,
    agent: AgentId,
    tokens: Seq<TokenId>,
    data: Seq<Seq<u8>>,
)
    ensures
        ({
            let (next, result) = after_recover(e, b, id, agent, tokens, data);
            let state = e.artifacts[id.0].state;
            &&& !e.artifacts.contains_key(id.0) ==> next == e && result == Err::<
                Seq<BlockId>,
                SchedulerError,
            >(SchedulerError::Coherence(CoherenceError::NotFound))
            &&& e.artifacts.contains_key(id.0) && (state == MesiState::Modified || state
                == MesiState::Invalid) ==> next == e && result == Err::<
                Seq<BlockId>,
                SchedulerError,
            >(SchedulerError::Coherence(CoherenceError::WrongState))
        }),
{
}

} // verus!
