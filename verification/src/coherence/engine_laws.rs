//! What holds of the coherence engine across its operations.

use crate::coherence::engine_model::{EngineOp, EngineView};
use crate::coherence::ownership;
use crate::coherence::routing;
use crate::coherence::{AgentId, ArtifactId, CoherenceError, MesiState};
use crate::kv::block::{BlockError, SlabView};
use crate::kv::cache::CacheView;
use crate::kv::cache_laws;
use crate::kv::ledger;
use crate::kv::tokens;
use crate::kv::BlockId;
use crate::kv::TokenId;
use vstd::prelude::*;

verus! {

/// The states that an artifact may go to from `before`.
pub open spec fn may_follow(before: MesiState, after: MesiState) -> bool {
    ||| before == after
    ||| before == MesiState::Invalid && after == MesiState::Exclusive
    ||| before == MesiState::Exclusive && after == MesiState::Modified
    ||| before == MesiState::Modified && after == MesiState::Exclusive
    ||| before == MesiState::Exclusive && after == MesiState::Shared
    ||| before == MesiState::Exclusive && after == MesiState::Invalid
    ||| before == MesiState::Shared && after == MesiState::Invalid
}

/// Every operation keeps every artifact coherent.
pub proof fn law_coherent_kept(e: EngineView, b: nat, op: EngineOp)
    requires
        e.wf(b),
        e.coherent(),
        e.counts(b, op),
    ensures
        e.after(b, op).coherent(),
{
    let next = e.after(b, op);
    let id = op.target();
    if e.has(id) {
        let x = e.artifacts[id.0];
        assert(x.wf(b) && x.coherent(e.k_bound));
    }
    assert forall|x: u64| next.artifacts.contains_key(x) implies (
    #[trigger] next.artifacts[x]).coherent(next.k_bound) by {
        if x != id.0 {
            assert(e.artifacts.contains_key(x));
            assert(next.artifacts[x] == e.artifacts[x]);
        } else if e.artifacts.contains_key(x) {
            let was = e.artifacts[x];
            assert(ArtifactId(id.0) == id);
            assert(was.coherent(e.k_bound));
        }
    }
}

/// Every operation keeps the artifacts it is not about, and takes the one it is
/// about only along the edges of the protocol; versions and what agents have seen
/// never go back. A new artifact is exclusive.
pub proof fn law_transitions(e: EngineView, b: nat, op: EngineOp)
    requires
        e.wf(b),
        e.coherent(),
        e.counts(b, op),
    ensures
        forall|x: u64|
            #![trigger e.artifacts[x]]
            #![trigger e.after(b, op).artifacts[x]]
            e.artifacts.contains_key(x) ==> {
                let was = e.artifacts[x];
                let is = e.after(b, op).artifacts[x];
                &&& e.after(b, op).artifacts.contains_key(x)
                &&& x != op.target().0 ==> is == was
                &&& may_follow(was.state, is.state)
                &&& was.ver <= is.ver
                &&& forall|a: AgentId| #[trigger]
                    was.seen.contains_key(a) ==> is.seen.contains_key(a) && was.seen[a]
                        <= is.seen[a]
            },
        forall|x: u64|
            #![trigger e.after(b, op).artifacts[x]]
            e.after(b, op).artifacts.contains_key(x) && !e.artifacts.contains_key(x) ==> x
                == op.target().0 && e.after(b, op).artifacts[x].state == MesiState::Exclusive,
{
    let next = e.after(b, op);
    let id = op.target();
    assert forall|x: u64| e.artifacts.contains_key(x) implies {
        let was = #[trigger] e.artifacts[x];
        let is = next.artifacts[x];
        &&& next.artifacts.contains_key(x)
        &&& x != id.0 ==> is == was
        &&& may_follow(was.state, is.state)
        &&& was.ver <= is.ver
        &&& forall|a: AgentId| #[trigger]
            was.seen.contains_key(a) ==> is.seen.contains_key(a) && was.seen[a] <= is.seen[a]
    } by {
        let was = e.artifacts[x];
        assert(was.coherent(e.k_bound));
        if x == id.0 {
            assert(ArtifactId(id.0) == id);
        }
    }
}

/// Every operation that is given the keys of its tokens keeps every artifact filed
/// under the keys of its own.
pub proof fn law_filed_kept(e: EngineView, b: nat, op: EngineOp)
    requires
        e.wf(b),
        e.filed(b),
        op.filed(b),
    ensures
        e.after(b, op).filed(b),
{
    let next = e.after(b, op);
    let id = op.target();
    assert forall|x: u64| next.artifacts.contains_key(x) implies (
    #[trigger] next.artifacts[x]).filed(b) by {
        if x != id.0 {
            assert(e.artifacts.contains_key(x));
            assert(next.artifacts[x] == e.artifacts[x]);
        } else {
            assert(ArtifactId(id.0) == id);
            if e.artifacts.contains_key(x) {
                assert(e.artifacts[x].filed(b));
            }
            match op {
                EngineOp::Acquire { .. } => {
                    assert(0nat / b == 0) by (nonlinear_arith)
                        requires
                            0 < b,
                    ;
                    assert(tokens::keys_of(Seq::empty(), b) =~= Seq::empty());
                },
                EngineOp::Fork { tokens, keys, source, agent, .. } => {
                    if !e.artifacts.contains_key(x) {
                        let n = e.kv.found(b, tokens, keys).len();
                        e.kv.lemma_found_has(b, tokens, keys);
                        lemma_prefix_keys(tokens, b, n);
                    }
                },
                _ => {},
            }
        }
    }
}

/// Every operation that is given the keys of its tokens and can be counted keeps
/// every artifact filed under the keys of its own, and coherent.
pub proof fn law_orderly_kept(e: EngineView, b: nat, op: EngineOp)
    requires
        e.wf(b),
        e.orderly(b),
        op.filed(b),
    ensures
        e.counts(b, op) ==> e.after(b, op).orderly(b),
{
    if e.counts(b, op) {
        law_filed_kept(e, b, op);
        law_coherent_kept(e, b, op);
    }
}

/// The keys of the first `n` blocks are the first `n` keys.
proof fn lemma_prefix_keys(tokens: Seq<TokenId>, b: nat, n: nat)
    requires
        0 < b,
        n <= tokens.len() / b,
    ensures
        tokens::keys_of(tokens.take((n * b) as int), b) == tokens::keys_of(tokens, b).take(n as int),
{
    let prefix = tokens.take((n * b) as int);
    assert(n * b <= tokens.len()) by (nonlinear_arith)
        requires
            0 < b,
            n <= tokens.len() / b,
    ;
    vstd::arithmetic::div_mod::lemma_div_by_multiple(n as int, b as int);
    assert(tokens::block_count(prefix, b) == n);
    assert forall|i: int| 0 <= i < n implies tokens::keys_of(prefix, b)[i] == tokens::keys_of(
        tokens,
        b,
    )[i] by {
        tokens::lemma_block_bounds(prefix.len(), b, i);
        tokens::lemma_block_bounds(tokens.len(), b, i);
        assert(tokens::block_at(prefix, b, i) =~= tokens::block_at(tokens, b, i));
    }
    assert(tokens::keys_of(prefix, b) =~= tokens::keys_of(tokens, b).take(n as int));
}

/// Who may read: anyone the first time; after that whoever is not more than the
/// bound behind. A reader that was let in may read again, and gets the same.
pub proof fn law_read(e: EngineView, id: ArtifactId, agent: AgentId)
    requires
        e.has(id),
        e.entry(id).is_readable(),
    ensures
        e.after_read(id, agent).1 is Ok <==> (e.entry(id).seen.contains_key(agent)
            ==> e.entry(id).ver - e.entry(id).seen[agent] <= e.k_bound),
        e.after_read(id, agent).1 is Err ==> e.after_read(id, agent) == (
            e,
            Err::<Seq<BlockId>, CoherenceError>(CoherenceError::KBoundExceeded),
        ),
        e.after_read(id, agent).1 is Ok ==> e.after_read(id, agent).0.after_read(id, agent)
            == e.after_read(id, agent),
{
    if e.after_read(id, agent).1 is Ok {
        let once = e.after_read(id, agent).0;
        let x = e.entry(id).read_by(agent);
        assert(x.read_by(agent) =~= x);
        assert(once.after_read(id, agent).0.artifacts =~= once.artifacts);
        assert(once.after_read(id, agent).0 =~= once);
    }
}

/// What an invalidation keeps and what it ends: versions, tokens and what agents
/// have seen are kept; the artifact is filed nowhere, and it can be neither read,
/// written nor invalidated until it is acquired. Other artifacts stay filed.
pub proof fn law_invalidate(
    e: EngineView,
    b: nat,
    id: ArtifactId,
    agent: AgentId,
    tokens: Seq<TokenId>,
    keys: Seq<u64>,
    data: Seq<Seq<u8>>,
)
    requires
        e.wf(b),
        e.after_invalidate(b, id).1 is Ok,
    ensures
        ({
            let next = e.after_invalidate(b, id).0;
            &&& next.entry(id).seen == e.entry(id).seen
            &&& next.entry(id).ver == e.entry(id).ver
            &&& next.entry(id).tokens == e.entry(id).tokens
            &&& forall|path: Seq<(u64, Seq<TokenId>)>, x: ArtifactId| #[trigger]
                next.routes.at(path).contains(x) <==> e.routes.at(path).contains(x) && x != id
            &&& next.after_read(id, agent) == (
                next,
                Err::<Seq<BlockId>, CoherenceError>(CoherenceError::WrongState),
            )
            &&& next.after_write_keyed(b, id, agent, tokens, keys, data) == (
                next,
                Err::<(), CoherenceError>(CoherenceError::WrongState),
            )
            &&& next.after_invalidate(b, id) == (
                next,
                Err::<(), CoherenceError>(CoherenceError::WrongState),
            )
            &&& next.after_acquire(id, agent).1 is Ok
        }),
{
    let next = e.after_invalidate(b, id).0;
    assert forall|path: Seq<(u64, Seq<TokenId>)>, x: ArtifactId| #[trigger]
        next.routes.at(path).contains(x) <==> e.routes.at(path).contains(x) && x != id by {
        routing::law_withdraw_one(e.routes, e.entry(id).path(b), id, path, x);
        assert(e.routes.at(path).contains(x) <==> e.has(x) && e.entry(x).routed_at(b, path));
    }
}

/// An invalidation gives back the artifact's own blocks and no others: each loses
/// one reference, and those that no other artifact lists are free.
pub proof fn law_invalidate_gives_back(e: EngineView, b: nat, id: ArtifactId)
    requires
        e.wf(b),
        e.after_invalidate(b, id).1 is Ok,
    ensures
        cache_laws::given_back(
            e.kv.slab,
            e.after_invalidate(b, id).0.kv.slab,
            e.entry(id).blocks,
        ),
{
    let blocks = e.artifacts[id.0].blocks;
    ownership::lemma_blocks_has(e, b);
    assert(e.lists()[id.0] == blocks);
    assert(ledger::list_wf(e.kv.trie, e.lists()[id.0], 0));
    cache_laws::law_release(e.kv, b, blocks);
}

/// A fork outlives its source: after the source is invalidated the new artifact
/// has the blocks it was made of, they hold what they held before the fork, and it
/// can be read.
pub proof fn law_fork_outlives_source(
    e: EngineView,
    b: nat,
    id: ArtifactId,
    tokens: Seq<TokenId>,
    keys: Seq<u64>,
    source: ArtifactId,
    agent: AgentId,
    reader: AgentId,
)
    requires
        e.wf(b),
        keys.len() == tokens::block_count(tokens, b),
        e.kv.can_share(b, tokens, keys),
        e.after_fork_keyed(b, id, tokens, keys, source, agent).1 is Ok,
    ensures
        ({
            let forked = e.after_fork_keyed(b, id, tokens, keys, source, agent).0;
            let (next, result) = forked.after_invalidate(b, source);
            let blocks = e.kv.found(b, tokens, keys);
            &&& result is Ok
            &&& next.wf(b)
            &&& next.after_read(id, reader).1 == Ok::<Seq<BlockId>, CoherenceError>(blocks)
            &&& forall|j: int|
                #![trigger blocks[j]]
                0 <= j < blocks.len() ==> next.kv.slab.read(blocks[j]) is Ok
                    && next.kv.slab.read(blocks[j]) == e.kv.slab.read(blocks[j])
        }),
{
    assert(ArtifactId(id.0) == id && ArtifactId(source.0) == source);
    let forked = e.after_fork_keyed(b, id, tokens, keys, source, agent).0;
    let next = forked.after_invalidate(b, source).0;
    let blocks = e.kv.found(b, tokens, keys);
    ownership::law_wf_kept(e, b, EngineOp::Fork { id, tokens, keys, source, agent });
    ownership::law_wf_kept(forked, b, EngineOp::Invalidate { id: source });
    ledger::lemma_fork_accounted(e.kv, b, tokens, keys, e.lists());
    ownership::lemma_blocks_has(next, b);
    assert forall|j: int| 0 <= j < blocks.len() implies next.kv.slab.read(#[trigger] blocks[j]) is Ok
        && next.kv.slab.read(blocks[j]) == e.kv.slab.read(blocks[j]) by {
        assert(forked.artifacts[id.0].blocks.contains(blocks[j]));
        assert(next.artifacts[id.0].blocks[j] == blocks[j]);
        assert(forked.kv.slab.read(blocks[j]) == e.kv.slab.read(blocks[j]));
        ownership::law_in_use(next, b, blocks[j]);
    }
}

/// An extension outlives what it extends: where a sequence is registered whose first
/// blocks are cached for another artifact, the other can be invalidated, and every
/// block of the new artifact still holds its data.
pub proof fn law_shared_prefix_outlives(
    e: EngineView,
    b: nat,
    id: ArtifactId,
    tokens: Seq<TokenId>,
    keys: Seq<u64>,
    data: Seq<Seq<u8>>,
    agent: AgentId,
    other: ArtifactId,
)
    requires
        e.wf(b),
        keys.len() == tokens::block_count(tokens, b),
        e.counts(b, EngineOp::Register { id, tokens, keys, data, agent }),
        e.after_register_keyed(b, id, tokens, keys, data, agent).1 is Ok,
        e.has(other),
        e.entry(other).is_readable(),
    ensures
        ({
            let registered = e.after_register_keyed(b, id, tokens, keys, data, agent).0;
            let (next, result) = registered.after_invalidate(b, other);
            let blocks = registered.entry(id).blocks;
            &&& result is Ok
            &&& next.wf(b)
            &&& next.entry(id).blocks == blocks
            &&& forall|j: int|
                #![trigger blocks[j]]
                0 <= j < blocks.len() ==> next.kv.slab.rc[blocks[j].0 as int] > 0
                    && next.kv.slab.read(blocks[j]) == registered.kv.slab.read(blocks[j])
        }),
{
    assert(ArtifactId(id.0) == id && ArtifactId(other.0) == other);
    let registered = e.after_register_keyed(b, id, tokens, keys, data, agent).0;
    let next = registered.after_invalidate(b, other).0;
    let blocks = registered.entry(id).blocks;
    ownership::law_wf_kept(e, b, EngineOp::Register { id, tokens, keys, data, agent });
    ownership::law_wf_kept(registered, b, EngineOp::Invalidate { id: other });
    ownership::lemma_blocks_has(next, b);
    assert forall|j: int| 0 <= j < blocks.len() implies next.kv.slab.rc[#[trigger] blocks[j].0 as int]
        > 0 && next.kv.slab.read(blocks[j]) == registered.kv.slab.read(blocks[j]) by {
        assert(registered.artifacts[id.0].blocks.contains(blocks[j]));
        assert(next.artifacts[id.0].blocks[j] == blocks[j]);
    }
}

/// A registration or a write that the cache refuses leaves every artifact as it was
/// and filed where it was.
pub proof fn law_failed_store_keeps(
    e: EngineView,
    b: nat,
    id: ArtifactId,
    agent: AgentId,
    tokens: Seq<TokenId>,
    keys: Seq<u64>,
    data: Seq<Seq<u8>>,
)
    ensures
        e.after_register_keyed(b, id, tokens, keys, data, agent).1 is Err ==> {
            let next = e.after_register_keyed(b, id, tokens, keys, data, agent).0;
            next.artifacts == e.artifacts && next.routes == e.routes
        },
        e.after_write_keyed(b, id, agent, tokens, keys, data).1 is Err ==> {
            let next = e.after_write_keyed(b, id, agent, tokens, keys, data).0;
            next.artifacts == e.artifacts && next.routes == e.routes
        },
{
}

/// Who may write, and what a write does. Only an exclusive artifact can be written, and
/// only by its owner; otherwise nothing changes. Where the cache takes the data and no
/// counter is full the write succeeds: the artifact is modified, one version further,
/// its owner has seen that version, it has one block for each block of the tokens, and
/// no lookup returns it until it is written back.
pub proof fn law_write(
    e: EngineView,
    b: nat,
    id: ArtifactId,
    agent: AgentId,
    tokens: Seq<TokenId>,
    data: Seq<Seq<u8>>,
)
    requires
        e.wf(b),
        e.has(id),
        e.kv.takes(b, tokens, data, tokens::keys_of(tokens, b)),
        e.write_counts(b, id, agent, tokens, tokens::keys_of(tokens, b)),
    ensures
        ({
            let was = e.entry(id);
            let (next, result) = e.after_write(b, id, agent, tokens, data);
            let is = next.entry(id);
            if was.state != MesiState::Exclusive {
                result == Err::<(), CoherenceError>(CoherenceError::WrongState) && next == e
            } else if was.owner != Some(agent) {
                result == Err::<(), CoherenceError>(CoherenceError::NotOwner) && next == e
            } else {
                &&& result is Ok
                &&& is.state == MesiState::Modified
                &&& is.owner == Some(agent)
                &&& is.ver == was.ver + 1
                &&& is.seen == was.seen.insert(agent, is.ver)
                &&& is.sharers == was.sharers
                &&& is.tokens == tokens
                &&& is.blocks.len() == tokens.len() / b
                &&& forall|query: Seq<TokenId>, keys: Seq<u64>, blocks: Seq<BlockId>|
                    !#[trigger] next.serves(b, query, keys, Some((id, blocks)))
            }
        }),
{
    let keys = tokens::keys_of(tokens, b);
    if e.write_refusal(id, agent) is None {
        assert(e.lists()[id.0] == e.entry(id).blocks);
        lemma_store_succeeds(e.kv, b, tokens, data, keys, e.entry(id).blocks);
        ledger::law_store(e.kv, b, tokens, data, keys, e.lists(), id.0);
    }
}

/// A registration succeeds exactly if there is no artifact of that name and the cache
/// takes the data. The artifact is then exclusive, at its first version, without sharers
/// and seen by nobody, with one block for each block of the tokens.
pub proof fn law_register(
    e: EngineView,
    b: nat,
    tokens: Seq<TokenId>,
    data: Seq<Seq<u8>>,
    agent: AgentId,
)
    requires
        e.wf(b),
        e.register_counts(
            b,
            ArtifactId(tokens::key_of(tokens)),
            tokens,
            tokens::keys_of(tokens, b),
        ),
    ensures
        ({
            let id = ArtifactId(tokens::key_of(tokens));
            let (next, result) = e.after_register(b, tokens, data, agent);
            let is = next.entry(id);
            &&& e.has(id) ==> result == Err::<ArtifactId, CoherenceError>(
                CoherenceError::AlreadyExists,
            ) && next == e
            &&& result is Ok <==> !e.has(id) && e.kv.takes(
                b,
                tokens,
                data,
                tokens::keys_of(tokens, b),
            )
            &&& result is Ok ==> {
                &&& result == Ok::<ArtifactId, CoherenceError>(id)
                &&& is.state == MesiState::Exclusive
                &&& is.owner == Some(agent)
                &&& is.ver == 0
                &&& is.sharers == Set::<AgentId>::empty()
                &&& is.seen == Map::<AgentId, u64>::empty()
                &&& is.tokens == tokens
                &&& is.blocks.len() == tokens.len() / b
            }
        }),
{
    let id = ArtifactId(tokens::key_of(tokens));
    let keys = tokens::keys_of(tokens, b);
    if !e.has(id) {
        lemma_store_succeeds(e.kv, b, tokens, data, keys, Seq::empty());
        ledger::law_store(e.kv, b, tokens, data, keys, e.lists(), id.0);
    }
}

/// Storing succeeds exactly if the cache takes the data.
pub proof fn lemma_store_succeeds(
    kv: CacheView,
    b: nat,
    tokens: Seq<TokenId>,
    data: Seq<Seq<u8>>,
    keys: Seq<u64>,
    owned: Seq<BlockId>,
)
    requires
        0 < b,
        kv.wf(b),
        kv.tidy(),
        keys.len() == tokens::block_count(tokens, b),
    ensures
        kv.after_store(b, tokens, data, keys, owned).1 is Ok <==> kv.takes(b, tokens, data, keys),
{
    if kv.after_insert(b, tokens, data, keys).1 is Ok {
        ledger::lemma_insert_tidy(kv, b, tokens, data, keys);
    } else {
        cache_laws::lemma_failed_fill_wf(kv, b, tokens, data, keys);
    }
    cache_laws::law_inserted(kv, b, tokens, data, keys);
}

/// A write that the cache refuses leaves the data of every artifact as it was, that of
/// the artifact itself too.
pub proof fn law_failed_write_keeps_data(
    e: EngineView,
    b: nat,
    id: ArtifactId,
    agent: AgentId,
    tokens: Seq<TokenId>,
    keys: Seq<u64>,
    data: Seq<Seq<u8>>,
)
    requires
        e.wf(b),
        e.counts(b, EngineOp::Write { id, agent, tokens, keys, data }),
        e.after_write_keyed(b, id, agent, tokens, keys, data).1 is Err,
    ensures
        ({
            let next = e.after_write_keyed(b, id, agent, tokens, keys, data).0;
            forall|x: u64, block: BlockId|
                #![trigger e.artifacts[x].blocks.contains(block)]
                e.artifacts.contains_key(x) && e.artifacts[x].blocks.contains(block)
                    ==> next.kv.slab.read(block) == e.kv.slab.read(block)
        }),
{
    let next = e.after_write_keyed(b, id, agent, tokens, keys, data).0;
    if e.write_refusal(id, agent) is None {
        assert(e.lists()[id.0] == e.entry(id).blocks);
        ledger::law_store(e.kv, b, tokens, data, keys, e.lists(), id.0);
        assert forall|x: u64, block: BlockId|
            #![trigger e.artifacts[x].blocks.contains(block)]
            e.artifacts.contains_key(x) && e.artifacts[x].blocks.contains(block) implies
            next.kv.slab.read(block) == e.kv.slab.read(block) by {
            assert(e.lists()[x].contains(block));
        }
    }
}

/// A written artifact is out of reach: while it is modified it is filed nowhere, and
/// nobody can read or invalidate it, until it is written back. Other artifacts stay
/// filed.
pub proof fn law_write_hides(
    e: EngineView,
    b: nat,
    id: ArtifactId,
    agent: AgentId,
    tokens: Seq<TokenId>,
    keys: Seq<u64>,
    data: Seq<Seq<u8>>,
    reader: AgentId,
)
    requires
        e.wf(b),
        e.after_write_keyed(b, id, agent, tokens, keys, data).1 is Ok,
    ensures
        ({
            let next = e.after_write_keyed(b, id, agent, tokens, keys, data).0;
            &&& forall|path: Seq<(u64, Seq<TokenId>)>, x: ArtifactId| #[trigger]
                next.routes.at(path).contains(x) <==> e.routes.at(path).contains(x) && x != id
            &&& next.after_read(id, reader).1 == Err::<Seq<BlockId>, CoherenceError>(
                CoherenceError::WrongState,
            )
            &&& next.after_invalidate(b, id).1 == Err::<(), CoherenceError>(
                CoherenceError::WrongState,
            )
            &&& next.after_writeback(b, id).1 is Ok
            &&& next.after_writeback(b, id).0.entry(id).owner == Some(agent)
        }),
{
    let next = e.after_write_keyed(b, id, agent, tokens, keys, data).0;
    assert forall|path: Seq<(u64, Seq<TokenId>)>, x: ArtifactId| #[trigger]
        next.routes.at(path).contains(x) <==> e.routes.at(path).contains(x) && x != id by {
        routing::law_withdraw_one(e.routes, e.entry(id).path(b), id, path, x);
        assert(e.routes.at(path).contains(x) <==> e.has(x) && e.entry(x).routed_at(b, path));
    }
}

/// A lookup has one answer.
pub proof fn law_lookup_unique(
    e: EngineView,
    b: nat,
    tokens: Seq<TokenId>,
    keys: Seq<u64>,
    one: Option<(ArtifactId, Seq<BlockId>)>,
    other: Option<(ArtifactId, Seq<BlockId>)>,
)
    requires
        e.serves(b, tokens, keys, one),
        e.serves(b, tokens, keys, other),
    ensures
        one == other,
{
    match (one, other) {
        (Some((x, _)), Some((y, _))) => {
            assert(e.has(x) && e.has(y));
            assert(e.entry(x).path(b) == e.entry(y).path(b));
        },
        (Some((x, _)), None) => {
            assert(e.has(x));
        },
        (None, Some((y, _))) => {
            assert(e.has(y));
        },
        (None, None) => {},
    }
}

/// What covers what: where artifacts are filed under the keys of their tokens, an
/// artifact covers some first blocks of `query` exactly if it is readable and its
/// tokens are some first tokens of `query`.
pub proof fn law_covers(e: EngineView, b: nat, id: ArtifactId, query: Seq<TokenId>)
    requires
        e.wf(b),
        e.filed(b),
        e.has(id),
    ensures
        e.entry(id).covers(b, routing::path_of(tokens::keys_of(query, b), query, b)) <==> {
            let tokens = e.entry(id).tokens;
            &&& e.entry(id).is_readable()
            &&& 0 < tokens.len() <= query.len()
            &&& query.take(tokens.len() as int) == tokens
        },
{
    let entry = e.artifacts[id.0];
    let tokens = entry.tokens;
    let n = entry.keys.len();
    let keys = tokens::keys_of(query, b);
    let path = routing::path_of(keys, query, b);
    assert(entry.wf(b) && entry.filed(b));
    tokens::lemma_multiple(n, b);
    assert(tokens.len() == n * b);
    if n == 0 {
        assert(n * b == 0) by (nonlinear_arith)
            requires
                n == 0,
        ;
    } else {
        assert(0 < n * b) by (nonlinear_arith)
            requires
                0 < n,
                0 < b,
        ;
    }
    if entry.covers(b, path) {
        tokens::lemma_part(n, query.len(), b);
        assert forall|k: int| 0 <= k < tokens.len() implies query[k] == tokens[k] by {
            let i = k / b as int;
            lemma_in_block(k, n, b);
            tokens::lemma_block_bounds(query.len(), b, i);
            tokens::lemma_block_bounds(tokens.len(), b, i);
            assert(path.take(n as int)[i] == entry.path(b)[i]);
            let theirs = tokens::block_at(query, b, i);
            let ours = tokens::block_at(tokens, b, i);
            assert(theirs == ours);
            assert(theirs[k - i * b] == query[k]);
            assert(ours[k - i * b] == tokens[k]);
        }
        assert(query.take(tokens.len() as int) =~= tokens);
    }
    if entry.is_readable() && 0 < tokens.len() <= query.len() && query.take(tokens.len() as int)
        == tokens {
        assert(n <= query.len() / b) by (nonlinear_arith)
            requires
                0 < b,
                n * b <= query.len(),
        ;
        lemma_prefix_keys(query, b, n);
        assert forall|i: int| 0 <= i < n implies #[trigger] path.take(n as int)[i] == entry.path(
            b,
        )[i] by {
            tokens::lemma_block_bounds(query.len(), b, i);
            tokens::lemma_block_bounds(tokens.len(), b, i);
            assert(tokens::block_at(query, b, i) =~= tokens::block_at(tokens, b, i));
            assert(entry.keys[i] == keys.take(n as int)[i]);
        }
        assert(path.take(n as int) =~= entry.path(b));
    }
}

/// Which block a token is in.
proof fn lemma_in_block(k: int, n: nat, b: nat)
    requires
        0 < b,
        0 <= k < n * b,
    ensures
        0 <= k / (b as int) < n,
        (k / (b as int)) * b <= k < (k / (b as int)) * b + b,
{
    let i = k / (b as int);
    vstd::arithmetic::div_mod::lemma_fundamental_div_mod(k, b as int);
    vstd::arithmetic::div_mod::lemma_mod_bound(k, b as int);
    assert(i * b == b * i) by (nonlinear_arith);
    assert(0 <= i < n) by (nonlinear_arith)
        requires
            0 < b,
            0 <= k < n * b,
            i == k / (b as int),
    ;
}

/// Registered, then served: a registered artifact serves its own tokens, with all of
/// its blocks, and its owner can read them. Registering it again is refused.
pub proof fn law_register_then_lookup(
    e: EngineView,
    b: nat,
    id: ArtifactId,
    tokens: Seq<TokenId>,
    keys: Seq<u64>,
    data: Seq<Seq<u8>>,
    agent: AgentId,
)
    requires
        e.wf(b),
        0 < tokens.len(),
        keys.len() == tokens::block_count(tokens, b),
        e.counts(b, EngineOp::Register { id, tokens, keys, data, agent }),
        e.after_register_keyed(b, id, tokens, keys, data, agent).1 is Ok,
    ensures
        ({
            let next = e.after_register_keyed(b, id, tokens, keys, data, agent).0;
            let blocks = next.entry(id).blocks;
            &&& next.serves(b, tokens, keys, Some((id, blocks)))
            &&& blocks.len() == tokens::block_count(tokens, b)
            &&& next.after_read(id, agent).1 == Ok::<Seq<BlockId>, CoherenceError>(blocks)
            &&& next.after_register_keyed(b, id, tokens, keys, data, agent) == (
                next,
                Err::<ArtifactId, CoherenceError>(CoherenceError::AlreadyExists),
            )
        }),
{
    let next = e.after_register_keyed(b, id, tokens, keys, data, agent).0;
    let path = routing::path_of(keys, tokens, b);
    ledger::law_store(e.kv, b, tokens, data, keys, e.lists(), id.0);
    tokens::lemma_whole(tokens.len(), b);
    assert(path.take(keys.len() as int) =~= path);
    assert(next.routes.at(path).last() == id);
}

/// Written back, then served: a written artifact serves the tokens it was written
/// with as soon as it is written back.
pub proof fn law_writeback_then_lookup(e: EngineView, b: nat, id: ArtifactId)
    requires
        e.wf(b),
        e.after_writeback(b, id).1 is Ok,
        0 < e.entry(id).keys.len(),
    ensures
        e.after_writeback(b, id).0.serves(
            b,
            e.entry(id).tokens,
            e.entry(id).keys,
            Some((id, e.entry(id).blocks)),
        ),
{
    let next = e.after_writeback(b, id).0;
    let entry = e.artifacts[id.0];
    let path = entry.path(b);
    assert(entry.wf(b));
    tokens::lemma_multiple(entry.keys.len(), b);
    assert(path.take(entry.keys.len() as int) =~= path);
    assert(next.routes.at(path).last() == id);
}

/// What is stored with an artifact: the blocks that were cached before are used as
/// they are and hold what they held, and each other block holds its data.
pub open spec fn stores(
    before: EngineView,
    after: EngineView,
    b: nat,
    id: ArtifactId,
    tokens: Seq<TokenId>,
    keys: Seq<u64>,
    data: Seq<Seq<u8>>,
) -> bool {
    let cached = before.kv.found(b, tokens, keys);
    let blocks = after.entry(id).blocks;
    &&& blocks.len() == tokens::block_count(tokens, b)
    &&& cached.is_prefix_of(blocks)
    &&& forall|j: int|
        #![trigger blocks[j]]
        0 <= j < blocks.len() ==> after.kv.slab.read(blocks[j]) == if j < cached.len() {
            before.kv.slab.read(blocks[j])
        } else {
            Ok::<Seq<u8>, BlockError>(data[j])
        }
}

/// What is registered is stored.
pub proof fn law_register_stores(
    e: EngineView,
    b: nat,
    id: ArtifactId,
    tokens: Seq<TokenId>,
    keys: Seq<u64>,
    data: Seq<Seq<u8>>,
    agent: AgentId,
)
    requires
        e.wf(b),
        e.counts(b, EngineOp::Register { id, tokens, keys, data, agent }),
        e.after_register_keyed(b, id, tokens, keys, data, agent).1 is Ok,
    ensures
        stores(
            e,
            e.after_register_keyed(b, id, tokens, keys, data, agent).0,
            b,
            id,
            tokens,
            keys,
            data,
        ),
{
    ledger::law_store(e.kv, b, tokens, data, keys, e.lists(), id.0);
}

/// What is written is stored.
pub proof fn law_write_stores(
    e: EngineView,
    b: nat,
    id: ArtifactId,
    agent: AgentId,
    tokens: Seq<TokenId>,
    keys: Seq<u64>,
    data: Seq<Seq<u8>>,
)
    requires
        e.wf(b),
        e.counts(b, EngineOp::Write { id, agent, tokens, keys, data }),
        e.after_write_keyed(b, id, agent, tokens, keys, data).1 is Ok,
    ensures
        stores(
            e,
            e.after_write_keyed(b, id, agent, tokens, keys, data).0,
            b,
            id,
            tokens,
            keys,
            data,
        ),
{
    assert(e.lists()[id.0] == e.entry(id).blocks);
    ledger::law_store(e.kv, b, tokens, data, keys, e.lists(), id.0);
}

/// Forked, then served: the new artifact consists of the cached blocks of the
/// longest cached prefix, which are shared and not copied, and it serves that
/// prefix.
pub proof fn law_fork_then_lookup(
    e: EngineView,
    b: nat,
    id: ArtifactId,
    tokens: Seq<TokenId>,
    keys: Seq<u64>,
    source: ArtifactId,
    agent: AgentId,
)
    requires
        e.wf(b),
        keys.len() == tokens::block_count(tokens, b),
        e.kv.found(b, tokens, keys).len() > 0,
        e.after_fork_keyed(b, id, tokens, keys, source, agent).1 is Ok,
    ensures
        ({
            let next = e.after_fork_keyed(b, id, tokens, keys, source, agent).0;
            let blocks = e.kv.found(b, tokens, keys);
            let n = blocks.len();
            &&& next.entry(id).blocks == blocks
            &&& next.entry(id).owner == Some(agent)
            &&& next.serves(
                b,
                tokens.take((n * b) as int),
                keys.take(n as int),
                Some((id, blocks)),
            )
        }),
{
    let next = e.after_fork_keyed(b, id, tokens, keys, source, agent).0;
    let found = e.kv.found(b, tokens, keys);
    let n = found.len();
    e.kv.lemma_found_has(b, tokens, keys);
    tokens::lemma_part(n, tokens.len(), b);
    let path = routing::path_of(keys.take(n as int), tokens.take((n * b) as int), b);
    assert(path.take(n as int) =~= path);
    assert(next.routes.at(path).last() == id);
}

/// The blocks of a sound slab are those that are referenced and those that are
/// free, so what is not free is in use.
pub proof fn law_stats(slab: SlabView, b: nat)
    requires
        slab.wf(b),
        slab.sound(),
    ensures
        slab.free.len() <= slab.capacity,
        Set::new(|i: int| 0 <= i < slab.capacity && slab.rc[i] > 0).len() == slab.capacity
            - slab.free.len(),
{
    let numbers = Seq::new(slab.free.len(), |i: int| slab.free[i].0 as int);
    let free = numbers.to_set();
    let used = Set::new(|i: int| 0 <= i < slab.capacity && slab.rc[i] > 0);
    let range = vstd::set_lib::set_int_range(0, slab.capacity as int);
    assert(numbers.no_duplicates()) by {
        assert forall|i: int, j: int| 0 <= i < j < numbers.len() implies numbers[i]
            != numbers[j] by {
            assert(slab.free[i] != slab.free[j]);
            assert(BlockId(slab.free[i].0) == slab.free[i]);
            assert(BlockId(slab.free[j].0) == slab.free[j]);
        }
    }
    numbers.unique_seq_to_set();
    vstd::set_lib::lemma_int_range(0, slab.capacity as int);
    assert forall|n: int| #[trigger] free.contains(n) <==> range.contains(n) && slab.rc[n] == 0 by {
        if free.contains(n) {
            let i = choose|i: int| 0 <= i < numbers.len() && numbers[i] == n;
            assert(slab.free[i].0 < slab.capacity);
            assert(BlockId(slab.free[i].0) == slab.free[i]);
            assert(slab.free.contains(BlockId(n as usize)));
            assert(slab.rc[(n as usize) as int] == 0);
        }
        if range.contains(n) && slab.rc[n] == 0 {
            assert(slab.rc[(n as usize) as int] == 0);
            let i = choose|i: int| 0 <= i < slab.free.len() && slab.free[i] == BlockId(n as usize);
            assert(numbers[i] == n);
        }
    }
    assert(used.subset_of(range));
    vstd::set_lib::lemma_len_subset(used, range);
    assert(free + used =~= range);
    vstd::set_lib::lemma_set_disjoint_lens(free, used);
}

} // verus!
