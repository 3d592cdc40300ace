//! What each operation of the engine does to the artifact it is about: when it
//! succeeds, which error there is if it does not, and what becomes of every part of
//! the artifact.

use crate::coherence::engine_laws;
use crate::coherence::engine_model::{EngineOp, EngineView};
use crate::coherence::entry::EntryView;
use crate::coherence::ownership;
use crate::coherence::routing;
use crate::coherence::{AgentId, ArtifactId, CoherenceError, MesiState, RouteResult};
use crate::kv::block::SlabView;
use crate::kv::cache;
use crate::kv::cache::{CacheError, CacheView};
use crate::kv::cache_laws;
use crate::kv::ledger;
use crate::kv::tokens;
use crate::kv::BlockId;
use crate::kv::TokenId;
use vstd::prelude::*;

verus! {

/// Acquiring: exactly an invalid artifact can be acquired. It is then exclusive, its
/// owner is the agent that acquired it, and it stands for no tokens yet. Its version
/// and what every agent has seen of it are as they were, and nothing else changes.
pub proof fn law_acquire(e: EngineView, id: ArtifactId, agent: AgentId)
    ensures
        ({
            let (next, result) = e.after_acquire(id, agent);
            let was = e.artifacts[id.0];
            let is = next.artifacts[id.0];
            if !e.artifacts.contains_key(id.0) {
                result == Err::<(), CoherenceError>(CoherenceError::NotFound) && next == e
            } else if was.state != MesiState::Invalid {
                result == Err::<(), CoherenceError>(CoherenceError::WrongState) && next == e
            } else {
                &&& result == Ok::<(), CoherenceError>(())
                &&& is.state == MesiState::Exclusive
                &&& is.owner == Some(agent)
                &&& is.ver == was.ver
                &&& is.seen == was.seen
                &&& is.sharers == was.sharers
                &&& is.blocks == was.blocks
                &&& is.tokens.len() == 0
                &&& is.keys.len() == 0
                &&& next.artifacts == e.artifacts.insert(id.0, is)
                &&& next.routes == e.routes
                &&& next.kv == e.kv
                &&& next.k_bound == e.k_bound
            }
        }),
{
}

/// Reading: an artifact that exists and is exclusive or shared can be read by every
/// agent that has not read it yet, and by those whose last read is at most the bound
/// behind. It is then shared and has no owner, the reader is among its sharers and has
/// seen its current version, and the answer is the list of its blocks. Its version,
/// its data and what others have seen are as they were, and nothing else changes.
pub proof fn law_read_outcome(e: EngineView, id: ArtifactId, agent: AgentId)
    ensures
        ({
            let (next, result) = e.after_read(id, agent);
            let was = e.artifacts[id.0];
            let is = next.artifacts[id.0];
            if !e.artifacts.contains_key(id.0) {
                result == Err::<Seq<BlockId>, CoherenceError>(CoherenceError::NotFound) && next
                    == e
            } else if was.state == MesiState::Modified || was.state == MesiState::Invalid {
                result == Err::<Seq<BlockId>, CoherenceError>(CoherenceError::WrongState) && next
                    == e
            } else if was.seen.contains_key(agent) && was.ver > was.seen[agent] + e.k_bound {
                result == Err::<Seq<BlockId>, CoherenceError>(CoherenceError::KBoundExceeded)
                    && next == e
            } else {
                &&& result == Ok::<Seq<BlockId>, CoherenceError>(was.blocks)
                &&& is.state == MesiState::Shared
                &&& is.owner is None
                &&& forall|a: AgentId| #[trigger]
                    is.sharers.contains(a) <==> was.sharers.contains(a) || a == agent
                &&& is.seen.contains_key(agent) && is.seen[agent] == was.ver
                &&& is.seen.remove(agent) == was.seen.remove(agent)
                &&& is.ver == was.ver
                &&& is.blocks == was.blocks
                &&& is.tokens == was.tokens
                &&& is.keys == was.keys
                &&& next.artifacts == e.artifacts.insert(id.0, is)
                &&& next.routes == e.routes
                &&& next.kv == e.kv
                &&& next.k_bound == e.k_bound
            }
        }),
{
    let was = e.artifacts[id.0];
    assert(was.seen.insert(agent, was.ver).remove(agent) =~= was.seen.remove(agent));
}

/// Invalidating: exactly an exclusive or shared artifact can be invalidated. It is then
/// invalid, without owner, sharers and blocks. Its version, its tokens and what agents
/// have seen are as they were, and so is every other artifact.
pub proof fn law_invalidate_outcome(e: EngineView, b: nat, id: ArtifactId)
    ensures
        ({
            let (next, result) = e.after_invalidate(b, id);
            let was = e.artifacts[id.0];
            let is = next.artifacts[id.0];
            if !e.artifacts.contains_key(id.0) {
                result == Err::<(), CoherenceError>(CoherenceError::NotFound) && next == e
            } else if was.state == MesiState::Modified || was.state == MesiState::Invalid {
                result == Err::<(), CoherenceError>(CoherenceError::WrongState) && next == e
            } else {
                &&& result == Ok::<(), CoherenceError>(())
                &&& is.state == MesiState::Invalid
                &&& is.owner is None
                &&& is.sharers == Set::<AgentId>::empty()
                &&& is.blocks.len() == 0
                &&& is.ver == was.ver
                &&& is.seen == was.seen
                &&& is.tokens == was.tokens
                &&& is.keys == was.keys
                &&& next.artifacts == e.artifacts.insert(id.0, is)
                &&& next.k_bound == e.k_bound
            }
        }),
{
}

/// Writing back: exactly a modified artifact can be written back. It is then exclusive,
/// and its owner, its version, its data and what agents have seen are as they were. It
/// is filed at its route, after whatever is filed there, and everything else stays
/// filed where it was.
pub proof fn law_writeback_outcome(e: EngineView, b: nat, id: ArtifactId)
    requires
        e.wf(b),
    ensures
        ({
            let (next, result) = e.after_writeback(b, id);
            let was = e.artifacts[id.0];
            let is = next.artifacts[id.0];
            let path = routing::path_of(was.keys, was.tokens, b);
            if !e.artifacts.contains_key(id.0) {
                result == Err::<(), CoherenceError>(CoherenceError::NotFound) && next == e
            } else if was.state != MesiState::Modified {
                result == Err::<(), CoherenceError>(CoherenceError::WrongState) && next == e
            } else {
                &&& result == Ok::<(), CoherenceError>(())
                &&& is.state == MesiState::Exclusive
                &&& is.owner == was.owner
                &&& is.ver == was.ver
                &&& is.seen == was.seen
                &&& is.sharers == was.sharers
                &&& is.blocks == was.blocks
                &&& is.tokens == was.tokens
                &&& is.keys == was.keys
                &&& next.artifacts == e.artifacts.insert(id.0, is)
                &&& filed_last(e, next, id, path)
                &&& next.kv == e.kv
                &&& next.k_bound == e.k_bound
            }
        }),
{
    if e.after_writeback(b, id).1 is Ok {
        let entry = e.artifacts[id.0];
        assert(ArtifactId(id.0) == id);
        lemma_filed_last(e, b, id, entry.path(b));
    }
}

/// `id` was filed nowhere and is filed after all others at the end of `path` now, if
/// `path` is not empty. Nothing else is filed otherwise than before.
pub open spec fn filed_last(
    e: EngineView,
    next: EngineView,
    id: ArtifactId,
    path: Seq<(u64, Seq<TokenId>)>,
) -> bool {
    &&& path.len() > 0 ==> next.routes.lists.contains_key(path) && next.routes.lists[path].last()
        == id
    &&& path.len() > 0 ==> next.routes.lists[path].drop_last() == if e.routes.lists.contains_key(
        path,
    ) {
        e.routes.lists[path]
    } else {
        Seq::empty()
    }
    &&& next.routes.lists.remove(path) == e.routes.lists.remove(path)
}

/// What filing an artifact does that was filed nowhere.
proof fn lemma_filed_last(
    e: EngineView,
    b: nat,
    id: ArtifactId,
    path: Seq<(u64, Seq<TokenId>)>,
)
    requires
        e.wf(b),
        !(e.has(id) && e.entry(id).is_readable()),
    ensures
        filed_last(e, EngineView { routes: e.routes.with(path, id), ..e }, id, path),
{
    let next = e.routes.with(path, id);
    let list = e.routes.at(path);
    assert(!list.contains(id)) by {
        assert(e.routes.at(path).contains(id) <==> e.has(id) && e.entry(id).routed_at(b, path));
    }
    routing::lemma_minus(list, id);
    assert(list.push(id).drop_last() =~= list);
    if path.len() == 0 {
        assert(path =~= Seq::empty());
        assert(next == e.routes);
    }
    assert(next.lists.remove(path) =~= e.routes.lists.remove(path));
}

/// The parts of a new artifact: it is exclusive, at its first version, its owner is the
/// agent that made it, it has no sharers, and nobody has seen it.
pub open spec fn is_new(
    is: EntryView,
    agent: AgentId,
    blocks: Seq<BlockId>,
    tokens: Seq<TokenId>,
    keys: Seq<u64>,
) -> bool {
    &&& is.state == MesiState::Exclusive
    &&& is.ver == 0
    &&& is.owner == Some(agent)
    &&& is.sharers == Set::<AgentId>::empty()
    &&& is.seen == Map::<AgentId, u64>::empty()
    &&& is.blocks == blocks
    &&& is.tokens == tokens
    &&& is.keys == keys
}

/// Forking: a fork is refused if its source does not exist or is neither exclusive nor
/// shared, or if there is an artifact of its name. It succeeds in every other case. The
/// new artifact is exclusive and owned by the agent, seen by nobody, and consists of
/// the cached blocks of the longest cached prefix and of the tokens of that prefix.
/// Every other artifact, the source too, is as it was.
pub proof fn law_fork(
    e: EngineView,
    b: nat,
    id: ArtifactId,
    tokens: Seq<TokenId>,
    keys: Seq<u64>,
    source: ArtifactId,
    agent: AgentId,
)
    requires
        e.wf(b),
        keys.len() == tokens.len() / b,
    ensures
        ({
            let (next, result) = e.after_fork_keyed(b, id, tokens, keys, source, agent);
            let origin = e.artifacts[source.0];
            let is = next.artifacts[id.0];
            let cached = e.kv.found(b, tokens, keys);
            let n = cached.len();
            let prefix = tokens.take((n * b) as int);
            if !e.artifacts.contains_key(source.0) {
                result == Err::<ArtifactId, CoherenceError>(CoherenceError::NotFound) && next == e
            } else if origin.state == MesiState::Modified || origin.state == MesiState::Invalid {
                result == Err::<ArtifactId, CoherenceError>(CoherenceError::WrongState) && next
                    == e
            } else if e.artifacts.contains_key(id.0) {
                result == Err::<ArtifactId, CoherenceError>(CoherenceError::AlreadyExists)
                    && next == e
            } else {
                &&& result == Ok::<ArtifactId, CoherenceError>(id)
                &&& is_new(is, agent, cached, prefix, keys.take(n as int))
                &&& next.artifacts == e.artifacts.insert(id.0, is)
                &&& filed_last(
                    e,
                    next,
                    id,
                    routing::path_of(keys.take(n as int), prefix, b),
                )
                &&& next.kv.slab.blocks == e.kv.slab.blocks
                &&& next.kv.slab.committed == e.kv.slab.committed
                &&& next.kv.slab.free == e.kv.slab.free
                &&& next.k_bound == e.k_bound
            }
        }),
{
    let (next, result) = e.after_fork_keyed(b, id, tokens, keys, source, agent);
    let cached = e.kv.found(b, tokens, keys);
    let n = cached.len();
    let path = routing::path_of(keys.take(n as int), tokens.take((n * b) as int), b);
    if result is Ok {
        assert(ArtifactId(id.0) == id);
        lemma_filed_last(e, b, id, path);
        lemma_only_counts(e.kv.slab, cached);
    }
}

/// One more reference to some blocks changes no block otherwise.
proof fn lemma_only_counts(slab: SlabView, ids: Seq<BlockId>)
    ensures
        slab.incref_all(ids).blocks == slab.blocks,
        slab.incref_all(ids).committed == slab.committed,
        slab.incref_all(ids).free == slab.free,
        slab.incref_all(ids).capacity == slab.capacity,
        slab.incref_all(ids).stride == slab.stride,
    decreases ids.len(),
{
    if ids.len() > 0 {
        lemma_only_counts(slab, ids.drop_last());
    }
}

/// Some block of the longest cached prefix is referenced as often as can be counted.
pub open spec fn counter_full(e: EngineView, b: nat, tokens: Seq<TokenId>, keys: Seq<u64>) -> bool {
    let cached = e.kv.found(b, tokens, keys);
    exists|j: int|
        0 <= j < cached.len() && e.kv.slab.rc[(#[trigger] cached[j]).0 as int] == u32::MAX
}

/// There is room for the data: the tokens are whole blocks with one item of data each,
/// there is a free block for each block that is not cached, and its data has the size
/// of a block.
pub open spec fn has_room(
    e: EngineView,
    b: nat,
    tokens: Seq<TokenId>,
    keys: Seq<u64>,
    data: Seq<Seq<u8>>,
) -> bool {
    let k = e.kv.found(b, tokens, keys).len();
    &&& tokens.len() % b == 0
    &&& data.len() == tokens.len() / b
    &&& data.len() <= k + e.kv.slab.free.len()
    &&& forall|j: int| k <= j < data.len() ==> (#[trigger] data[j]).len() == b * e.kv.slab.stride
}

/// A fork under the name of its tokens succeeds exactly if its source exists and is
/// exclusive or shared, no artifact has its name, and no block that it would share is
/// referenced as often as can be counted.
pub proof fn law_fork_succeeds(
    e: EngineView,
    b: nat,
    tokens: Seq<TokenId>,
    source: ArtifactId,
    agent: AgentId,
)
    requires
        e.wf(b),
    ensures
        ({
            let id = ArtifactId(tokens::xxh3_digest(tokens::token_bytes(tokens)));
            let keys = tokens::keys_of(tokens, b);
            let (next, result) = e.after_register_fork(b, tokens, source, agent);
            let origin = e.artifacts[source.0];
            let forked = e.after_fork_keyed(b, id, tokens, keys, source, agent);
            &&& result is Ok <==> {
                &&& e.artifacts.contains_key(source.0)
                &&& origin.state == MesiState::Exclusive || origin.state == MesiState::Shared
                &&& !e.artifacts.contains_key(id.0)
                &&& !counter_full(e, b, tokens, keys)
            }
            &&& result == Err::<ArtifactId, CoherenceError>(CoherenceError::CounterFull) <==> {
                &&& e.artifacts.contains_key(source.0)
                &&& origin.state == MesiState::Exclusive || origin.state == MesiState::Shared
                &&& !e.artifacts.contains_key(id.0)
                &&& counter_full(e, b, tokens, keys)
            }
            &&& result != Err::<ArtifactId, CoherenceError>(CoherenceError::CounterFull) ==> (
                next,
                result,
            ) == forked
            &&& result is Ok ==> result == Ok::<ArtifactId, CoherenceError>(id)
            &&& result is Err ==> next == e
        }),
{
    let id = ArtifactId(tokens::key_of(tokens));
    let keys = tokens::keys_of(tokens, b);
    law_fork(e, b, id, tokens, keys, source, agent);
    lemma_counter_full(e, b, tokens, keys);
}

/// When a block of the cached prefix can be shared.
proof fn lemma_counter_full(e: EngineView, b: nat, tokens: Seq<TokenId>, keys: Seq<u64>)
    ensures
        counter_full(e, b, tokens, keys) <==> !e.kv.can_share(b, tokens, keys),
{
    let cached = e.kv.found(b, tokens, keys);
    if !e.kv.can_share(b, tokens, keys) {
        let j = choose|j: int|
            0 <= j < cached.len() && !(e.kv.slab.rc[(#[trigger] cached[j]).0 as int] < u32::MAX);
        assert(e.kv.slab.rc[cached[j].0 as int] == u32::MAX);
    }
}

/// What the blocks of a stored sequence hold: those that were cached are the ones they
/// were, and hold what they held; each of the others holds its item of the data.
pub open spec fn holds_data(
    before: SlabView,
    after: SlabView,
    cached: Seq<BlockId>,
    blocks: Seq<BlockId>,
    data: Seq<Seq<u8>>,
) -> bool {
    &&& blocks.len() == data.len()
    &&& cached.len() <= blocks.len()
    &&& forall|j: int|
        #![trigger blocks[j]]
        0 <= j < blocks.len() ==> {
            &&& after.committed[blocks[j].0 as int]
            &&& j < cached.len() ==> blocks[j] == cached[j] && after.blocks[blocks[j].0 as int]
                == before.blocks[blocks[j].0 as int]
            &&& cached.len() <= j ==> after.blocks[blocks[j].0 as int] == data[j]
        }
}

/// Every artifact but `id` is as it was, and so is what its blocks hold.
pub open spec fn spares_others(e: EngineView, next: EngineView, id: ArtifactId) -> bool {
    &&& next.artifacts.remove(id.0) == e.artifacts.remove(id.0)
    &&& forall|x: u64, j: int|
        #![trigger e.artifacts[x].blocks[j]]
        e.artifacts.contains_key(x) && x != id.0 && 0 <= j < e.artifacts[x].blocks.len() ==> {
            let i = e.artifacts[x].blocks[j].0 as int;
            &&& next.kv.slab.committed[i] == e.kv.slab.committed[i]
            &&& next.kv.slab.committed[i] ==> next.kv.slab.blocks[i] == e.kv.slab.blocks[i]
        }
}

/// What storing leaves in the blocks of the owner.
proof fn lemma_holds_data(
    e: EngineView,
    b: nat,
    id: ArtifactId,
    tokens: Seq<TokenId>,
    keys: Seq<u64>,
    data: Seq<Seq<u8>>,
)
    requires
        e.wf(b),
        e.kv.can_share(b, tokens, keys),
    ensures
        ({
            let owned = ledger::list_of(e.lists(), id.0);
            let (kv, result) = e.kv.after_store(b, tokens, data, keys, owned);
            result matches Ok(blocks) ==> holds_data(
                e.kv.slab,
                kv.slab,
                e.kv.found(b, tokens, keys),
                blocks,
                data,
            ) && blocks.len() == tokens.len() / b
        }),
{
    let owned = ledger::list_of(e.lists(), id.0);
    let (kv, result) = e.kv.after_store(b, tokens, data, keys, owned);
    let cached = e.kv.found(b, tokens, keys);
    ledger::law_store(e.kv, b, tokens, data, keys, e.lists(), id.0);
    ledger::lemma_found_list(e.kv, b, tokens, keys);
    if result is Ok {
        let blocks = result->Ok_0;
        assert forall|j: int| 0 <= j < blocks.len() implies {
            &&& kv.slab.committed[#[trigger] blocks[j].0 as int]
            &&& j < cached.len() ==> blocks[j] == cached[j] && kv.slab.blocks[blocks[j].0 as int]
                == e.kv.slab.blocks[blocks[j].0 as int]
            &&& cached.len() <= j ==> kv.slab.blocks[blocks[j].0 as int] == data[j]
        } by {
            assert(kv.slab.read(blocks[j]) == if j < cached.len() {
                e.kv.slab.read(blocks[j])
            } else {
                Ok(data[j])
            });
            if j < cached.len() {
                assert(cached[j] == blocks[j]);
                assert(e.kv.slab.rc[blocks[j].0 as int] > 0);
                assert(e.kv.slab.committed[blocks[j].0 as int]);
            }
        }
    }
}

/// What an operation that may store leaves of the other artifacts.
proof fn lemma_spares_others(e: EngineView, b: nat, op: EngineOp)
    requires
        e.wf(b),
        op.keyed(b),
        e.counts(b, op),
    ensures
        spares_others(e, e.after(b, op), op.target()),
{
    let next = e.after(b, op);
    let id = op.target();
    ownership::law_wf_kept(e, b, op);
    assert(next.artifacts.remove(id.0) =~= e.artifacts.remove(id.0));
    assert forall|x: u64, j: int|
        e.artifacts.contains_key(x) && x != id.0 && 0 <= j < e.artifacts[x].blocks.len() implies {
        let i = (#[trigger] e.artifacts[x].blocks[j]).0 as int;
        &&& next.kv.slab.committed[i] == e.kv.slab.committed[i]
        &&& next.kv.slab.committed[i] ==> next.kv.slab.blocks[i] == e.kv.slab.blocks[i]
    } by {
        let block = e.artifacts[x].blocks[j];
        assert(e.artifacts[x].blocks.contains(block));
        assert(next.kv.slab.read(block) == e.kv.slab.read(block));
    }
}

/// The error that storing ends in where there is no room: out of blocks if there are
/// too few free blocks, unless the size of the data is wrong before that shows.
pub open spec fn refused_with(
    e: EngineView,
    b: nat,
    tokens: Seq<TokenId>,
    keys: Seq<u64>,
    data: Seq<Seq<u8>>,
) -> CoherenceError {
    let k = e.kv.found(b, tokens, keys).len();
    let free = e.kv.slab.free.len();
    if tokens.len() % b == 0 && data.len() == tokens.len() / b && k + free < data.len() && (forall|
        j: int,
    |
        k <= j < k + free ==> (#[trigger] data[j]).len() == b * e.kv.slab.stride) {
        CoherenceError::KvError(CacheError::OutOfBlocks)
    } else {
        CoherenceError::KvError(CacheError::DataSizeMismatch)
    }
}

/// When storing succeeds, and which error there is if it does not.
proof fn lemma_store_outcome(
    e: EngineView,
    b: nat,
    tokens: Seq<TokenId>,
    keys: Seq<u64>,
    data: Seq<Seq<u8>>,
    owned: Seq<BlockId>,
)
    requires
        e.wf(b),
        keys.len() == tokens.len() / b,
    ensures
        ({
            let result = e.kv.after_store(b, tokens, data, keys, owned).1;
            &&& result is Ok <==> has_room(e, b, tokens, keys, data)
            &&& result matches Err(why) ==> CoherenceError::KvError(why) == refused_with(
                e,
                b,
                tokens,
                keys,
                data,
            )
        }),
{
    let k = e.kv.found(b, tokens, keys).len();
    let free = e.kv.slab.free.len();
    let width = b * e.kv.slab.stride;
    cache_laws::law_insert_outcome(e.kv, b, tokens, data, keys);
    if exists|j: int|
        k <= j < data.len() && j < k + free && (#[trigger] data[j]).len() != width {
        let j = choose|j: int|
            k <= j < data.len() && j < k + free && (#[trigger] data[j]).len() != width;
        assert(data[j].len() != width);
    } else if !has_room(e, b, tokens, keys, data) && tokens.len() % b == 0 && data.len()
        == tokens.len() / b {
        assert(k + free < data.len());
    }
}

/// Registering: it is refused if there is an artifact of that name, and succeeds
/// exactly if there is none and there is room for the data. The artifact is then
/// exclusive and owned by the agent, at its first version, without sharers and seen by
/// nobody. It has one block for each block of the tokens: those that were cached are
/// used as they are, and each other holds its item of the data. It is filed last at its
/// route. Nothing else changes: every other artifact is as it was, and so is what its
/// blocks hold.
pub proof fn law_register_outcome(
    e: EngineView,
    b: nat,
    id: ArtifactId,
    tokens: Seq<TokenId>,
    keys: Seq<u64>,
    data: Seq<Seq<u8>>,
    agent: AgentId,
)
    requires
        e.wf(b),
        keys.len() == tokens.len() / b,
        e.artifacts.contains_key(id.0) || !counter_full(e, b, tokens, keys),
    ensures
        ({
            let (next, result) = e.after_register_keyed(b, id, tokens, keys, data, agent);
            let is = next.artifacts[id.0];
            let cached = e.kv.found(b, tokens, keys);
            if e.artifacts.contains_key(id.0) {
                result == Err::<ArtifactId, CoherenceError>(CoherenceError::AlreadyExists)
                    && next == e
            } else if !has_room(e, b, tokens, keys, data) {
                &&& result == Err::<ArtifactId, CoherenceError>(
                    refused_with(e, b, tokens, keys, data),
                )
                &&& spares_others(e, next, id)
                &&& !next.artifacts.contains_key(id.0)
                &&& next.routes == e.routes
                &&& next.k_bound == e.k_bound
            } else {
                &&& result == Ok::<ArtifactId, CoherenceError>(id)
                &&& next.artifacts.contains_key(id.0)
                &&& is_new(is, agent, is.blocks, tokens, keys)
                &&& is.blocks.len() == tokens.len() / b
                &&& holds_data(e.kv.slab, next.kv.slab, cached, is.blocks, data)
                &&& spares_others(e, next, id)
                &&& filed_last(e, next, id, routing::path_of(keys, tokens, b))
                &&& next.k_bound == e.k_bound
            }
        }),
{
    let (next, result) = e.after_register_keyed(b, id, tokens, keys, data, agent);
    if !e.artifacts.contains_key(id.0) {
        lemma_counter_full(e, b, tokens, keys);
        lemma_store_outcome(e, b, tokens, keys, data, Seq::empty());
        lemma_spares_others(e, b, EngineOp::Register { id, tokens, keys, data, agent });
        assert(!e.lists().contains_key(id.0));
        if result is Ok {
            lemma_holds_data(e, b, id, tokens, keys, data);
            lemma_filed_last(e, b, id, routing::path_of(keys, tokens, b));
        }
    }
}

/// A registration under the name of its tokens succeeds exactly if no artifact has that
/// name, there is room for the data, and no block that it would share is referenced as
/// often as can be counted.
pub proof fn law_register_succeeds(
    e: EngineView,
    b: nat,
    tokens: Seq<TokenId>,
    data: Seq<Seq<u8>>,
    agent: AgentId,
)
    requires
        e.wf(b),
    ensures
        ({
            let id = ArtifactId(tokens::xxh3_digest(tokens::token_bytes(tokens)));
            let keys = tokens::keys_of(tokens, b);
            let (next, result) = e.after_register(b, tokens, data, agent);
            &&& result is Ok <==> {
                &&& !e.artifacts.contains_key(id.0)
                &&& has_room(e, b, tokens, keys, data)
                &&& !counter_full(e, b, tokens, keys)
            }
            &&& result is Ok ==> result == Ok::<ArtifactId, CoherenceError>(id)
            &&& result == Err::<ArtifactId, CoherenceError>(CoherenceError::CounterFull)
                <==> !e.artifacts.contains_key(id.0) && counter_full(e, b, tokens, keys)
            &&& result == Err::<ArtifactId, CoherenceError>(CoherenceError::CounterFull) ==> next
                == e
            &&& result != Err::<ArtifactId, CoherenceError>(CoherenceError::CounterFull) ==> (
                next,
                result,
            ) == e.after_register_keyed(b, id, tokens, keys, data, agent)
        }),
{
    let id = ArtifactId(tokens::key_of(tokens));
    let keys = tokens::keys_of(tokens, b);
    lemma_counter_full(e, b, tokens, keys);
    if e.artifacts.contains_key(id.0) || !counter_full(e, b, tokens, keys) {
        law_register_outcome(e, b, id, tokens, keys, data, agent);
    }
}

/// `id` is not filed at the end of `path` any more. The others that are filed there
/// stay in their order, and nothing else is filed otherwise than before.
pub open spec fn withdrawn(
    e: EngineView,
    next: EngineView,
    id: ArtifactId,
    path: Seq<(u64, Seq<TokenId>)>,
) -> bool {
    let list = e.routes.lists[path];
    &&& next.routes.lists.remove(path) == e.routes.lists.remove(path)
    &&& path.len() > 0 ==> {
        &&& e.routes.lists.contains_key(path) && list.contains(id)
        &&& forall|j: int|
            #![trigger list[j]]
            0 <= j < list.len() && list[j] == id ==> if list.len() == 1 {
                !next.routes.lists.contains_key(path)
            } else {
                next.routes.lists.contains_key(path) && next.routes.lists[path] == list.remove(j)
            }
    }
}

/// What withdrawing an artifact from its route does.
proof fn lemma_withdrawn(e: EngineView, b: nat, id: ArtifactId)
    requires
        e.wf(b),
        e.has(id),
        e.entry(id).is_readable(),
    ensures
        ({
            let path = e.entry(id).path(b);
            withdrawn(e, EngineView { routes: e.routes.without(path, id), ..e }, id, path)
        }),
{
    let path = e.entry(id).path(b);
    let next = e.routes.without(path, id);
    let entry = e.artifacts[id.0];
    let list = e.routes.lists[path];
    assert(entry.wf(b));
    tokens::lemma_multiple(entry.keys.len(), b);
    assert(path.len() == entry.keys.len());
    assert(next.lists.remove(path) =~= e.routes.lists.remove(path));
    if path.len() > 0 {
        assert(e.routes.at(path).contains(id));
        assert(e.routes.at(path).no_duplicates());
        assert forall|j: int| 0 <= j < list.len() && #[trigger] list[j] == id implies if list.len()
            == 1 {
            !next.lists.contains_key(path)
        } else {
            next.lists.contains_key(path) && next.lists[path] == list.remove(j)
        } by {
            routing::lemma_minus_one(list, id, j);
        }
    }
}

/// Invalidating withdraws the artifact from its route, and spares all others: they stay
/// filed in their order, and their blocks hold what they held.
pub proof fn law_invalidate_spares(e: EngineView, b: nat, id: ArtifactId)
    requires
        e.wf(b),
        e.after_invalidate(b, id).1 is Ok,
    ensures
        ({
            let was = e.artifacts[id.0];
            let next = e.after_invalidate(b, id).0;
            &&& withdrawn(e, next, id, routing::path_of(was.keys, was.tokens, b))
            &&& spares_others(e, next, id)
        }),
{
    lemma_withdrawn(e, b, id);
    lemma_spares_others(e, b, EngineOp::Invalidate { id });
}

/// Writing: it is refused if the artifact does not exist, is not exclusive, or is not
/// the agent's. Otherwise it succeeds exactly if there is room for the data. The
/// artifact is then modified, one version further, and the writer has seen that
/// version; its owner, its sharers and what others have seen are as they were. It has
/// one block for each block of the tokens: those that were cached are used as they
/// are, and each other holds its item of the data. It is not filed any more. Every
/// other artifact is as it was, and so is what its blocks hold.
pub proof fn law_write_outcome(
    e: EngineView,
    b: nat,
    id: ArtifactId,
    agent: AgentId,
    tokens: Seq<TokenId>,
    keys: Seq<u64>,
    data: Seq<Seq<u8>>,
)
    requires
        e.wf(b),
        keys.len() == tokens.len() / b,
        ({
            let was = e.artifacts[id.0];
            e.artifacts.contains_key(id.0) && was.state == MesiState::Exclusive && was.owner
                == Some(agent) ==> was.ver < u64::MAX && !counter_full(e, b, tokens, keys)
        }),
    ensures
        ({
            let (next, result) = e.after_write_keyed(b, id, agent, tokens, keys, data);
            let was = e.artifacts[id.0];
            let is = next.artifacts[id.0];
            let cached = e.kv.found(b, tokens, keys);
            if !e.artifacts.contains_key(id.0) {
                result == Err::<(), CoherenceError>(CoherenceError::NotFound) && next == e
            } else if was.state != MesiState::Exclusive {
                result == Err::<(), CoherenceError>(CoherenceError::WrongState) && next == e
            } else if was.owner != Some(agent) {
                result == Err::<(), CoherenceError>(CoherenceError::NotOwner) && next == e
            } else if !has_room(e, b, tokens, keys, data) {
                &&& result == Err::<(), CoherenceError>(refused_with(e, b, tokens, keys, data))
                &&& next.artifacts == e.artifacts
                &&& spares_others(e, next, id)
                &&& next.routes == e.routes
                &&& next.k_bound == e.k_bound
            } else {
                &&& result == Ok::<(), CoherenceError>(())
                &&& next.artifacts.contains_key(id.0)
                &&& is.state == MesiState::Modified
                &&& is.ver == was.ver + 1
                &&& is.owner == was.owner
                &&& is.sharers == was.sharers
                &&& is.seen.contains_key(agent) && is.seen[agent] == was.ver + 1
                &&& is.seen.remove(agent) == was.seen.remove(agent)
                &&& is.tokens == tokens
                &&& is.keys == keys
                &&& is.blocks.len() == tokens.len() / b
                &&& holds_data(e.kv.slab, next.kv.slab, cached, is.blocks, data)
                &&& spares_others(e, next, id)
                &&& withdrawn(e, next, id, routing::path_of(was.keys, was.tokens, b))
                &&& next.k_bound == e.k_bound
            }
        }),
{
    let (next, result) = e.after_write_keyed(b, id, agent, tokens, keys, data);
    let was = e.artifacts[id.0];
    let op = EngineOp::Write { id, agent, tokens, keys, data };
    lemma_counter_full(e, b, tokens, keys);
    if e.artifacts.contains_key(id.0) && was.state == MesiState::Exclusive && was.owner == Some(
        agent,
    ) {
        assert(e.lists()[id.0] == was.blocks);
        lemma_store_outcome(e, b, tokens, keys, data, was.blocks);
        lemma_spares_others(e, b, op);
        if result is Ok {
            lemma_holds_data(e, b, id, tokens, keys, data);
            lemma_withdrawn(e, b, id);
            assert(was.seen.insert(agent, (was.ver + 1) as u64).remove(agent)
                =~= was.seen.remove(agent));
        }
    }
}

/// A write under the keys of its tokens succeeds exactly if the artifact is exclusive
/// and the agent's, there is room for the data, and neither its version nor the
/// references of a block that it would share are as high as can be counted.
pub proof fn law_write_succeeds(
    e: EngineView,
    b: nat,
    id: ArtifactId,
    agent: AgentId,
    tokens: Seq<TokenId>,
    data: Seq<Seq<u8>>,
)
    requires
        e.wf(b),
    ensures
        ({
            let keys = tokens::keys_of(tokens, b);
            let was = e.artifacts[id.0];
            let (next, result) = e.after_write(b, id, agent, tokens, data);
            let full = was.ver == u64::MAX || counter_full(e, b, tokens, keys);
            let may = {
                &&& e.artifacts.contains_key(id.0)
                &&& was.state == MesiState::Exclusive
                &&& was.owner == Some(agent)
            };
            &&& result is Ok <==> may && !full && has_room(e, b, tokens, keys, data)
            &&& result == Err::<(), CoherenceError>(CoherenceError::CounterFull) <==> may && full
            &&& result == Err::<(), CoherenceError>(CoherenceError::CounterFull) ==> next == e
            &&& result != Err::<(), CoherenceError>(CoherenceError::CounterFull) ==> (next, result)
                == e.after_write_keyed(b, id, agent, tokens, keys, data)
        }),
{
    let keys = tokens::keys_of(tokens, b);
    lemma_counter_full(e, b, tokens, keys);
    if e.artifacts[id.0].ver < u64::MAX && !counter_full(e, b, tokens, keys) {
        law_write_outcome(e, b, id, agent, tokens, keys, data);
    }
}

/// Only a write changes a version, and only that of its artifact, by one. Only a read or
/// a write changes what agents have seen, and only for the agent that reads or writes.
pub proof fn law_versions(e: EngineView, b: nat, op: EngineOp, x: u64, a: AgentId)
    requires
        e.counts(b, op),
        e.artifacts.contains_key(x),
    ensures
        ({
            let was = e.artifacts[x];
            let is = e.after(b, op).artifacts[x];
            &&& e.after(b, op).artifacts.contains_key(x)
            &&& is.ver != was.ver ==> {
                &&& op matches EngineOp::Write { id, .. } && id.0 == x
                &&& is.ver == was.ver + 1
                &&& is.state == MesiState::Modified
            }
            &&& is.seen.contains_key(a) != was.seen.contains_key(a) || is.seen[a] != was.seen[a]
                ==> {
                &&& match op {
                    EngineOp::Read { id, agent } => id.0 == x && agent == a,
                    EngineOp::Write { id, agent, .. } => id.0 == x && agent == a,
                    _ => false,
                }
                &&& is.seen.contains_key(a) && is.seen[a] == is.ver
            }
        }),
{
}

/// No operation changes how many blocks there are, how large they are, or how far
/// behind a reader may be.
pub proof fn law_measures_kept(e: EngineView, b: nat, op: EngineOp)
    ensures
        e.after(b, op).k_bound == e.k_bound,
        e.after(b, op).kv.slab.capacity == e.kv.slab.capacity,
        e.after(b, op).kv.slab.stride == e.kv.slab.stride,
{
    match op {
        EngineOp::Register { tokens, keys, data, .. } => {
            lemma_store_measures(e.kv, b, tokens, data, keys, Seq::empty());
        },
        EngineOp::Write { id, tokens, keys, data, .. } => {
            lemma_store_measures(e.kv, b, tokens, data, keys, e.entry(id).blocks);
        },
        EngineOp::Invalidate { id } => {
            lemma_decref_measures(e.kv.slab, e.entry(id).blocks);
        },
        EngineOp::Fork { tokens, keys, .. } => {
            lemma_only_counts(e.kv.slab, e.kv.found(b, tokens, keys));
        },
        _ => {},
    }
}

/// One reference less to some blocks leaves the measures alone.
proof fn lemma_decref_measures(slab: SlabView, ids: Seq<BlockId>)
    ensures
        slab.decref_all(ids).capacity == slab.capacity,
        slab.decref_all(ids).stride == slab.stride,
    decreases ids.len(),
{
    if ids.len() > 0 {
        lemma_decref_measures(slab, ids.drop_last());
    }
}

/// Filling blocks leaves the measures alone.
proof fn lemma_fill_measures(
    slab: SlabView,
    b: nat,
    data: Seq<Seq<u8>>,
    i: int,
    got: Seq<BlockId>,
)
    ensures
        cache::fill(slab, b, data, i, got).0.capacity == slab.capacity,
        cache::fill(slab, b, data, i, got).0.stride == slab.stride,
    decreases data.len() - i,
{
    lemma_decref_measures(slab, got);
    if 0 <= i < data.len() && slab.free.len() > 0 {
        let id = slab.free.last();
        lemma_decref_measures(slab.allocated().decref(id), got);
        lemma_fill_measures(
            slab.allocated().commit(id, data[i]),
            b,
            data,
            i + 1,
            got.push(id),
        );
    }
}

/// Storing leaves the measures alone.
proof fn lemma_store_measures(
    kv: CacheView,
    b: nat,
    tokens: Seq<TokenId>,
    data: Seq<Seq<u8>>,
    keys: Seq<u64>,
    owned: Seq<BlockId>,
)
    ensures
        kv.after_store(b, tokens, data, keys, owned).0.slab.capacity == kv.slab.capacity,
        kv.after_store(b, tokens, data, keys, owned).0.slab.stride == kv.slab.stride,
{
    let cached = kv.found(b, tokens, keys).len() as int;
    lemma_fill_measures(kv.slab, b, data, cached, Seq::empty());
    let filled = kv.after_insert(b, tokens, data, keys).0;
    let blocks = filled.found(b, tokens, keys);
    let kept = cache::shared_prefix(blocks, owned) as int;
    let end = if kept < cached {
        cached
    } else {
        kept
    };
    let held = blocks.subrange(kept, end);
    lemma_only_counts(filled.slab, held);
    lemma_decref_measures(filled.slab.incref_all(held), owned.skip(kept));
}

/// The artifact filed under the number `x` can be read, and its tokens, of which there
/// are some, are the first tokens of `tokens`.
pub open spec fn begins(e: EngineView, x: u64, tokens: Seq<TokenId>) -> bool {
    let entry = e.artifacts[x];
    &&& e.artifacts.contains_key(x)
    &&& entry.state == MesiState::Exclusive || entry.state == MesiState::Shared
    &&& 0 < entry.tokens.len() <= tokens.len()
    &&& forall|k: int| 0 <= k < entry.tokens.len() ==> #[trigger] entry.tokens[k] == tokens[k]
}

/// A lookup answers with an exclusive or shared artifact whose tokens are the first
/// tokens of the query, with its blocks and the number of those tokens. No other such
/// artifact has more tokens, and where several have the same, the one filed last
/// answers. It finds none exactly if there is none.
pub proof fn law_lookup(
    e: EngineView,
    b: nat,
    tokens: Seq<TokenId>,
    route: Option<RouteResult>,
    x: u64,
)
    requires
        e.wf(b),
        e.filed(b),
        e.answers(b, tokens, tokens::keys_of(tokens, b), route),
    ensures
        match route {
            Some(r) => {
                let entry = e.artifacts[r.artifact_id.0];
                &&& begins(e, r.artifact_id.0, tokens)
                &&& r.blocks@ == entry.blocks
                &&& r.matched_tokens == entry.tokens.len()
                &&& begins(e, x, tokens) ==> e.artifacts[x].tokens.len() <= r.matched_tokens
                &&& e.routes.lists[routing::path_of(entry.keys, entry.tokens, b)].last()
                    == r.artifact_id
            },
            None => !begins(e, x, tokens),
        },
{
    let query = routing::path_of(tokens::keys_of(tokens, b), tokens, b);
    let other = ArtifactId(x);
    if begins(e, x, tokens) {
        let theirs = e.artifacts[x].tokens;
        assert(tokens.take(theirs.len() as int) =~= theirs);
        engine_laws::law_covers(e, b, other, tokens);
        assert(e.has(other) && e.entry(other).covers(b, query));
    }
    match route {
        Some(r) => {
            let id = r.artifact_id;
            let entry = e.artifacts[id.0];
            assert(ArtifactId(id.0) == id);
            assert(entry.wf(b));
            engine_laws::law_covers(e, b, id, tokens);
            assert(entry.tokens == tokens.take(entry.tokens.len() as int));
            assert(e.routes.at(entry.path(b)).contains(id));
            if begins(e, x, tokens) {
                let n = e.artifacts[x].keys.len();
                let m = entry.keys.len();
                assert(e.artifacts[x].wf(b));
                assert(n * b <= m * b) by (nonlinear_arith)
                    requires
                        n <= m,
                ;
            }
        },
        None => {},
    }
}

/// The artifact filed under the number `x` can be read, and its blocks, of which there
/// are some, are the first blocks of `tokens`, with the same keys.
pub open spec fn begins_keyed(
    e: EngineView,
    b: nat,
    x: u64,
    tokens: Seq<TokenId>,
    keys: Seq<u64>,
) -> bool {
    let entry = e.artifacts[x];
    &&& e.artifacts.contains_key(x)
    &&& entry.state == MesiState::Exclusive || entry.state == MesiState::Shared
    &&& 0 < entry.keys.len() <= keys.len()
    &&& forall|i: int|
        #![trigger entry.keys[i]]
        0 <= i < entry.keys.len() ==> entry.keys[i] == keys[i] && entry.tokens.subrange(
            i * b,
            i * b + b,
        ) == tokens.subrange(i * b, i * b + b)
}

/// The same under given keys: a lookup answers with an exclusive or shared artifact whose
/// blocks are the first blocks of the query, and whose keys are its first keys, as many
/// as there is such an artifact for; it finds none exactly if there is none.
pub proof fn law_lookup_keyed(
    e: EngineView,
    b: nat,
    tokens: Seq<TokenId>,
    keys: Seq<u64>,
    route: Option<(ArtifactId, Seq<BlockId>)>,
    x: u64,
)
    requires
        e.wf(b),
        keys.len() == tokens.len() / b,
        e.serves(b, tokens, keys, route),
    ensures
        match route {
            Some((id, blocks)) => {
                let entry = e.artifacts[id.0];
                &&& begins_keyed(e, b, id.0, tokens, keys)
                &&& blocks == entry.blocks
                &&& blocks.len() == entry.keys.len()
                &&& begins_keyed(e, b, x, tokens, keys) ==> e.artifacts[x].keys.len()
                    <= entry.keys.len()
            },
            None => !begins_keyed(e, b, x, tokens, keys),
        },
{
    let query = routing::path_of(keys, tokens, b);
    let other = ArtifactId(x);
    if begins_keyed(e, b, x, tokens, keys) {
        let entry = e.artifacts[x];
        let n = entry.keys.len();
        assert(entry.wf(b));
        tokens::lemma_multiple(n, b);
        assert(query.take(n as int) =~= entry.path(b)) by {
            assert forall|i: int| 0 <= i < n implies #[trigger] query.take(n as int)[i]
                == entry.path(b)[i] by {
                assert(entry.keys[i] == keys[i]);
            }
        }
        assert(e.has(other) && e.entry(other).covers(b, query));
    }
    match route {
        Some((id, _)) => {
            let entry = e.artifacts[id.0];
            let n = entry.keys.len();
            assert(entry.wf(b));
            tokens::lemma_multiple(n, b);
            assert forall|i: int|
                #![trigger entry.keys[i]]
                0 <= i < n implies entry.keys[i] == keys[i] && entry.tokens.subrange(
                i * b,
                i * b + b,
            ) == tokens.subrange(i * b, i * b + b) by {
                assert(query.take(n as int)[i] == entry.path(b)[i]);
            }
        },
        None => {},
    }
}

/// The tokens of an artifact are those of its blocks, unless it is invalid.
pub proof fn law_sized(entry: EntryView, b: nat)
    ensures
        entry.sized(b) <==> entry.state == MesiState::Invalid || entry.tokens.len() == b
            * entry.blocks.len(),
{
    assert(b * entry.blocks.len() == entry.blocks.len() * b) by (nonlinear_arith);
}

/// What the protocol asks of an artifact: one that is modified or exclusive has an owner
/// and no sharers, one that is shared or invalid has no owner; nobody has seen a version
/// that does not exist yet; and no sharer is more than the bound behind, one that has
/// seen nothing counting as having seen version zero.
pub proof fn law_coherent(entry: EntryView, k: u64)
    ensures
        entry.coherent(k) <==> {
            &&& match entry.state {
                MesiState::Modified => entry.owner is Some && entry.sharers == Set::<
                    AgentId,
                >::empty(),
                MesiState::Exclusive => entry.owner is Some && entry.sharers == Set::<
                    AgentId,
                >::empty(),
                MesiState::Shared => entry.owner is None,
                MesiState::Invalid => entry.owner is None,
            }
            &&& forall|a: AgentId| #[trigger]
                entry.seen.contains_key(a) ==> entry.seen[a] <= entry.ver
            &&& forall|a: AgentId| #[trigger]
                entry.sharers.contains(a) ==> if entry.seen.contains_key(a) {
                    entry.ver <= entry.seen[a] + k
                } else {
                    entry.ver <= k
                }
        },
{
    if forall|a: AgentId| #[trigger]
        entry.sharers.contains(a) ==> if entry.seen.contains_key(a) {
            entry.ver <= entry.seen[a] + k
        } else {
            entry.ver <= k
        } {
        assert forall|a: AgentId| #[trigger] entry.sharers.contains(a) implies entry.ver
            - entry.last_seen(a) <= k by {}
    }
    if entry.within(k) {
        assert forall|a: AgentId| #[trigger] entry.sharers.contains(a) implies if entry.seen.contains_key(
            a,
        ) {
            entry.ver <= entry.seen[a] + k
        } else {
            entry.ver <= k
        } by {
            assert(entry.ver - entry.last_seen(a) <= k);
        }
    }
}

/// A new engine: it has no artifacts and no routes, all of its blocks are free, and its
/// measures are those it was made with.
pub proof fn law_fresh(b: nat, capacity: usize, stride: usize, k_bound: u64, x: u64)
    ensures
        ({
            let e = EngineView::fresh(b, capacity, stride, k_bound);
            &&& !e.artifacts.contains_key(x)
            &&& e.routes.lists == Map::<Seq<(u64, Seq<TokenId>)>, Seq<ArtifactId>>::empty()
            &&& e.kv.slab.free.len() == capacity
            &&& e.kv.slab.capacity == capacity
            &&& e.kv.slab.stride == stride
            &&& e.kv.trie.arena.len() == 0
            &&& e.kv.trie.clock == 0
            &&& e.k_bound == k_bound
        }),
{
}

/// A new artifact is held by its owner alone, at its first version, and seen by nobody.
pub proof fn law_new_entry(
    owner: AgentId,
    blocks: Seq<BlockId>,
    tokens: Seq<TokenId>,
    keys: Seq<u64>,
)
    ensures
        is_new(EntryView::exclusive(owner, blocks, tokens, keys), owner, blocks, tokens, keys),
{
}

/// What each operation does to the cache: registering and writing store the data, with
/// the blocks that a write replaces; invalidating releases the blocks of the artifact;
/// forking forks the tokens. The others leave it alone.
pub proof fn law_cache_steps(e: EngineView, b: nat, op: EngineOp)
    ensures
        ({
            let kv = e.after(b, op).kv;
            match op {
                EngineOp::Register { id, tokens, keys, data, .. } => {
                    kv == if e.artifacts.contains_key(id.0) {
                        e.kv
                    } else {
                        e.kv.after_store(b, tokens, data, keys, Seq::empty()).0
                    }
                },
                EngineOp::Write { id, agent, tokens, keys, data } => {
                    let was = e.artifacts[id.0];
                    kv == if e.artifacts.contains_key(id.0) && was.state == MesiState::Exclusive
                        && was.owner == Some(agent) {
                        e.kv.after_store(b, tokens, data, keys, was.blocks).0
                    } else {
                        e.kv
                    }
                },
                EngineOp::Invalidate { id } => {
                    let was = e.artifacts[id.0];
                    kv == if e.artifacts.contains_key(id.0) && (was.state == MesiState::Exclusive
                        || was.state == MesiState::Shared) {
                        e.kv.after_release(was.blocks)
                    } else {
                        e.kv
                    }
                },
                EngineOp::Fork { id, tokens, keys, source, .. } => {
                    let origin = e.artifacts[source.0];
                    kv == if e.artifacts.contains_key(source.0) && !e.artifacts.contains_key(id.0)
                        && (origin.state == MesiState::Exclusive || origin.state
                        == MesiState::Shared) {
                        e.kv.after_fork(b, tokens, keys)
                    } else {
                        e.kv
                    }
                },
                _ => kv == e.kv,
            }
        }),
{
}

/// A registered artifact is cached: a lookup in the cache finds all of its blocks, every
/// node on the way has just been used, and only as many free blocks were taken as were
/// not cached before.
pub proof fn law_register_caches(
    e: EngineView,
    b: nat,
    id: ArtifactId,
    tokens: Seq<TokenId>,
    keys: Seq<u64>,
    data: Seq<Seq<u8>>,
    agent: AgentId,
    j: int,
)
    requires
        e.wf(b),
        keys.len() == tokens.len() / b,
        !counter_full(e, b, tokens, keys),
        e.after_register_keyed(b, id, tokens, keys, data, agent).1 is Ok,
    ensures
        ({
            let next = e.after_register_keyed(b, id, tokens, keys, data, agent).0;
            let cached = e.kv.found(b, tokens, keys).len();
            let path = next.kv.trie.walk(keys, tokens::blocks_of(tokens, b));
            &&& next.kv.found(b, tokens, keys) == next.artifacts[id.0].blocks
            &&& 0 <= j < path.len() ==> next.kv.trie.arena[path[j] as int]->Some_0.last_used
                == next.kv.trie.clock
            &&& next.kv.slab.free.len() == e.kv.slab.free.len() - (tokens.len() / b - cached)
        }),
{
    lemma_counter_full(e, b, tokens, keys);
    cache_laws::law_store_caches(e.kv, b, tokens, data, keys, j);
}

} // verus!
