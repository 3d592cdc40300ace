//! That every operation keeps the engine well formed: exactly the readable artifacts
//! are filed at their routes, and every block is referenced once for each artifact
//! that lists it, however many artifacts share it.

use crate::coherence::engine_model::{EngineOp, EngineView};
use crate::coherence::routing;
use crate::coherence::routing::RouteView;
use crate::coherence::{AgentId, ArtifactId};
use crate::kv::ledger;
use crate::kv::tokens;
use crate::kv::BlockId;
use crate::kv::TokenId;
use vstd::prelude::*;

verus! {

/// What is filed after `id` is filed at `path`.
proof fn lemma_with(
    routes: RouteView,
    path: Seq<(u64, Seq<TokenId>)>,
    id: ArtifactId,
    p: Seq<(u64, Seq<TokenId>)>,
    x: ArtifactId,
)
    requires
        routes.wf(),
        routes.at(p).no_duplicates(),
    ensures
        routes.with(path, id).at(p).contains(x) <==> routes.at(p).contains(x) || (path.len() > 0
            && p == path && x == id),
        routes.with(path, id).at(p).no_duplicates(),
{
    let list = routes.at(path);
    let rest = routing::minus(list, id);
    let more = rest.push(id);
    routing::lemma_minus(list, id);
    assert(more[rest.len() as int] == id);
    assert(more.contains(x) <==> rest.contains(x) || x == id) by {
        if rest.contains(x) {
            let j = choose|j: int| 0 <= j < rest.len() && rest[j] == x;
            assert(more[j] == x);
        }
        if more.contains(x) {
            let j = choose|j: int| 0 <= j < more.len() && more[j] == x;
            if j < rest.len() {
                assert(rest[j] == x);
            }
        }
    }
    assert(rest.contains(x) <==> list.contains(x) && x != id);
    assert(!rest.contains(id));
}

/// A route that is made or withdrawn leads somewhere, or is not there.
proof fn lemma_routes_wf(routes: RouteView, path: Seq<(u64, Seq<TokenId>)>, id: ArtifactId)
    requires
        routes.wf(),
    ensures
        routes.with(path, id).wf(),
        routes.without(path, id).wf(),
{
}

/// What is filed after `id` is withdrawn from `path`.
proof fn lemma_without(
    routes: RouteView,
    path: Seq<(u64, Seq<TokenId>)>,
    id: ArtifactId,
    p: Seq<(u64, Seq<TokenId>)>,
    x: ArtifactId,
)
    requires
        routes.wf(),
        routes.at(p).no_duplicates(),
    ensures
        routes.without(path, id).at(p).contains(x) <==> routes.at(p).contains(x) && !(p == path
            && x == id),
        routes.without(path, id).at(p).no_duplicates(),
{
    routing::law_withdraw_one(routes, path, id, p, x);
    routing::lemma_minus(routes.at(path), id);
}

/// The blocks that artifacts list are blocks of the cache.
pub proof fn lemma_blocks_has(e: EngineView, b: nat)
    requires
        e.kv.wf(b),
        e.owned(),
    ensures
        forall|x: u64, j: int|
            #![trigger e.artifacts[x].blocks[j]]
            e.artifacts.contains_key(x) && 0 <= j < e.artifacts[x].blocks.len() ==> e.kv.slab.has(
                e.artifacts[x].blocks[j],
            ) && e.kv.slab.rc[e.artifacts[x].blocks[j].0 as int] > 0,
{
    assert forall|x: u64, j: int|
        #![trigger e.artifacts[x].blocks[j]]
        e.artifacts.contains_key(x) && 0 <= j < e.artifacts[x].blocks.len() implies e.kv.slab.has(
        e.artifacts[x].blocks[j],
    ) && e.kv.slab.rc[e.artifacts[x].blocks[j].0 as int] > 0 by {
        ledger::lemma_listed_in_use(e.kv, e.lists(), Seq::empty(), 0, b);
        assert(e.lists()[x] == e.artifacts[x].blocks);
        assert(e.kv.slab.has(e.lists()[x][j]));
    }
}

/// The cache alone changed, and every reference is accounted for.
proof fn lemma_cache_wf(e: EngineView, b: nat, next: EngineView)
    requires
        e.wf(b),
        next == (EngineView { kv: next.kv, ..e }),
        next.kv.wf(b),
        next.owned(),
    ensures
        next.wf(b),
{
    lemma_blocks_has(next, b);
    assert forall|x: u64| next.artifacts.contains_key(x) implies {
        &&& (#[trigger] next.artifacts[x]).wf(b)
        &&& forall|j: int|
            0 <= j < next.artifacts[x].blocks.len() ==> next.kv.slab.has(
                #[trigger] next.artifacts[x].blocks[j],
            )
    } by {
        assert(e.artifacts[x].wf(b));
    }
    assert(next.routes_wf(b)) by {
        assert forall|path: Seq<(u64, Seq<TokenId>)>, id: ArtifactId| #[trigger]
            next.routes.at(path).contains(id) <==> next.has(id) && next.entry(id).routed_at(
                b,
                path,
            ) by {
            assert(e.routes.at(path).contains(id) <==> e.has(id) && e.entry(id).routed_at(b, path));
        }
    }
}

/// One artifact changed: the engine stays well formed if the artifact is, if it is
/// filed where it belongs and the others where they were, and if every reference is
/// accounted for.
proof fn lemma_put_wf(e: EngineView, b: nat, next: EngineView, id: ArtifactId)
    requires
        e.wf(b),
        next.kv.wf(b),
        next.owned(),
        next.has(id),
        next.artifacts == e.artifacts.insert(id.0, next.entry(id)),
        next.entry(id).wf(b),
        next.routes.wf(),
        forall|path: Seq<(u64, Seq<TokenId>)>|
            #![trigger next.routes.at(path)]
            next.routes.at(path).no_duplicates(),
        forall|path: Seq<(u64, Seq<TokenId>)>, x: ArtifactId| #[trigger]
            next.routes.at(path).contains(x) <==> if x == id {
                next.entry(id).routed_at(b, path)
            } else {
                e.routes.at(path).contains(x)
            },
    ensures
        next.wf(b),
{
    lemma_blocks_has(next, b);
    assert forall|x: u64| next.artifacts.contains_key(x) implies {
        &&& (#[trigger] next.artifacts[x]).wf(b)
        &&& forall|j: int|
            0 <= j < next.artifacts[x].blocks.len() ==> next.kv.slab.has(
                #[trigger] next.artifacts[x].blocks[j],
            )
    } by {
        if x != id.0 {
            assert(next.artifacts[x] == e.artifacts[x]);
        }
    }
    assert(next.routes_wf(b)) by {
        assert forall|path: Seq<(u64, Seq<TokenId>)>, x: ArtifactId| #[trigger]
            next.routes.at(path).contains(x) <==> next.has(x) && next.entry(x).routed_at(
                b,
                path,
            ) by {
            assert(ArtifactId(x.0) == x && ArtifactId(id.0) == id);
            if x != id {
                assert(e.routes.at(path).contains(x) <==> e.has(x) && e.entry(x).routed_at(b, path));
            }
        }
    }
}

/// No block of an artifact other than `id` reads differently.
pub open spec fn others_keep(e: EngineView, next: EngineView, id: ArtifactId) -> bool {
    forall|x: u64, block: BlockId|
        #![trigger e.artifacts[x].blocks.contains(block)]
        e.artifacts.contains_key(x) && x != id.0 && e.artifacts[x].blocks.contains(block)
            ==> next.kv.slab.read(block) == e.kv.slab.read(block)
}

/// A registration keeps the engine well formed.
proof fn lemma_register_wf(
    e: EngineView,
    b: nat,
    id: ArtifactId,
    tokens: Seq<TokenId>,
    keys: Seq<u64>,
    data: Seq<Seq<u8>>,
    agent: AgentId,
)
    requires
        e.wf(b),
        !e.has(id),
        keys.len() == tokens::block_count(tokens, b),
        e.counts(b, EngineOp::Register { id, tokens, keys, data, agent }),
    ensures
        e.after_register_keyed(b, id, tokens, keys, data, agent).0.wf(b),
        others_keep(e, e.after_register_keyed(b, id, tokens, keys, data, agent).0, id),
{
    let (next, result) = e.after_register_keyed(b, id, tokens, keys, data, agent);
    let path = routing::path_of(keys, tokens, b);
    ledger::law_store(e.kv, b, tokens, data, keys, e.lists(), id.0);
    assert forall|x: u64, block: BlockId|
        #![trigger e.artifacts[x].blocks.contains(block)]
        e.artifacts.contains_key(x) && x != id.0 && e.artifacts[x].blocks.contains(block) implies
        next.kv.slab.read(block) == e.kv.slab.read(block) by {
        assert(e.lists()[x].contains(block));
    }
    if result is Ok {
        let blocks = next.entry(id).blocks;
        assert(next.lists() =~= e.lists().insert(id.0, blocks));
        tokens::lemma_whole(tokens.len(), b);
        lemma_routes_wf(e.routes, path, id);
        assert forall|p: Seq<(u64, Seq<TokenId>)>| #[trigger] next.routes.at(
            p,
        ).no_duplicates() by {
            lemma_with(e.routes, path, id, p, id);
        }
        assert forall|p: Seq<(u64, Seq<TokenId>)>, x: ArtifactId| #[trigger]
            next.routes.at(p).contains(x) <==> if x == id {
                next.entry(id).routed_at(b, p)
            } else {
                e.routes.at(p).contains(x)
            } by {
            lemma_with(e.routes, path, id, p, x);
            assert(e.routes.at(p).contains(id) <==> e.has(id) && e.entry(id).routed_at(b, p));
        }
        lemma_put_wf(e, b, next, id);
    } else {
        assert(next.lists() =~= e.lists());
        lemma_cache_wf(e, b, next);
    }
}

/// A write keeps the engine well formed.
proof fn lemma_write_wf(
    e: EngineView,
    b: nat,
    id: ArtifactId,
    agent: AgentId,
    tokens: Seq<TokenId>,
    keys: Seq<u64>,
    data: Seq<Seq<u8>>,
)
    requires
        e.wf(b),
        e.write_refusal(id, agent) is None,
        keys.len() == tokens::block_count(tokens, b),
        e.counts(b, EngineOp::Write { id, agent, tokens, keys, data }),
    ensures
        e.after_write_keyed(b, id, agent, tokens, keys, data).0.wf(b),
        others_keep(e, e.after_write_keyed(b, id, agent, tokens, keys, data).0, id),
{
    let (next, result) = e.after_write_keyed(b, id, agent, tokens, keys, data);
    let path = e.entry(id).path(b);
    assert(e.lists()[id.0] == e.entry(id).blocks);
    ledger::law_store(e.kv, b, tokens, data, keys, e.lists(), id.0);
    assert forall|x: u64, block: BlockId|
        #![trigger e.artifacts[x].blocks.contains(block)]
        e.artifacts.contains_key(x) && x != id.0 && e.artifacts[x].blocks.contains(block) implies
        next.kv.slab.read(block) == e.kv.slab.read(block) by {
        assert(e.lists()[x].contains(block));
    }
    if result is Ok {
        let blocks = next.entry(id).blocks;
        assert(next.lists() =~= e.lists().insert(id.0, blocks));
        tokens::lemma_whole(tokens.len(), b);
        lemma_routes_wf(e.routes, path, id);
        assert forall|p: Seq<(u64, Seq<TokenId>)>| #[trigger] next.routes.at(
            p,
        ).no_duplicates() by {
            lemma_without(e.routes, path, id, p, id);
        }
        assert forall|p: Seq<(u64, Seq<TokenId>)>, x: ArtifactId| #[trigger]
            next.routes.at(p).contains(x) <==> if x == id {
                next.entry(id).routed_at(b, p)
            } else {
                e.routes.at(p).contains(x)
            } by {
            lemma_without(e.routes, path, id, p, x);
            assert(e.routes.at(p).contains(id) <==> e.has(id) && e.entry(id).routed_at(b, p));
        }
        lemma_put_wf(e, b, next, id);
    } else {
        assert(next.lists() =~= e.lists());
        lemma_cache_wf(e, b, next);
    }
}

/// An invalidation keeps the engine well formed.
proof fn lemma_invalidate_wf(e: EngineView, b: nat, id: ArtifactId)
    requires
        e.wf(b),
        e.after_invalidate(b, id).1 is Ok,
    ensures
        e.after_invalidate(b, id).0.wf(b),
        others_keep(e, e.after_invalidate(b, id).0, id),
{
    let next = e.after_invalidate(b, id).0;
    let path = e.entry(id).path(b);
    let blocks = e.entry(id).blocks;
    let lists = e.lists();
    let none = Seq::<BlockId>::empty();
    let rest = lists.insert(id.0, none);
    assert(lists[id.0] == blocks);
    assert(none.skip(0) =~= none);
    assert(none.take(0) =~= blocks.take(0));
    assert(blocks.skip(0) =~= blocks);
    ledger::lemma_trade(e.kv.trie, e.kv.slab.rc, lists, id.0, none, 0);
    ledger::lemma_release_accounted(e.kv, b, rest, blocks, 0);
    assert(next.lists() =~= rest);
    assert forall|x: u64, block: BlockId|
        #![trigger e.artifacts[x].blocks.contains(block)]
        e.artifacts.contains_key(x) && x != id.0 && e.artifacts[x].blocks.contains(block) implies
        next.kv.slab.read(block) == e.kv.slab.read(block) by {
        assert(rest[x].contains(block));
    }
    assert(e.artifacts[id.0].wf(b));
    lemma_routes_wf(e.routes, path, id);
    assert forall|p: Seq<(u64, Seq<TokenId>)>| #[trigger] next.routes.at(p).no_duplicates() by {
        lemma_without(e.routes, path, id, p, id);
    }
    assert forall|p: Seq<(u64, Seq<TokenId>)>, x: ArtifactId| #[trigger]
        next.routes.at(p).contains(x) <==> if x == id {
            next.entry(id).routed_at(b, p)
        } else {
            e.routes.at(p).contains(x)
        } by {
        lemma_without(e.routes, path, id, p, x);
        assert(e.routes.at(p).contains(id) <==> e.has(id) && e.entry(id).routed_at(b, p));
    }
    lemma_put_wf(e, b, next, id);
}

/// A fork keeps the engine well formed.
proof fn lemma_fork_wf(
    e: EngineView,
    b: nat,
    id: ArtifactId,
    tokens: Seq<TokenId>,
    keys: Seq<u64>,
    source: ArtifactId,
    agent: AgentId,
)
    requires
        e.wf(b),
        e.fork_refusal(id, source) is None,
        keys.len() == tokens::block_count(tokens, b),
        e.kv.can_share(b, tokens, keys),
    ensures
        e.after_fork_keyed(b, id, tokens, keys, source, agent).0.wf(b),
        others_keep(e, e.after_fork_keyed(b, id, tokens, keys, source, agent).0, id),
{
    let next = e.after_fork_keyed(b, id, tokens, keys, source, agent).0;
    let found = e.kv.found(b, tokens, keys);
    let n = found.len();
    let path = routing::path_of(keys.take(n as int), tokens.take((n * b) as int), b);
    let lists = e.lists();
    let none = Seq::<BlockId>::empty();
    e.kv.lemma_found_has(b, tokens, keys);
    tokens::lemma_part(n, tokens.len(), b);
    ledger::lemma_fork_accounted(e.kv, b, tokens, keys, lists);
    assert(found.skip(0) =~= found);
    assert(found.take(0) =~= none.take(0));
    assert(none.skip(0) =~= none);
    ledger::lemma_trade(next.kv.trie, next.kv.slab.rc, lists, id.0, found, 0);
    assert(next.lists() =~= lists.insert(id.0, found));
    lemma_routes_wf(e.routes, path, id);
    assert forall|p: Seq<(u64, Seq<TokenId>)>| #[trigger] next.routes.at(p).no_duplicates() by {
        lemma_with(e.routes, path, id, p, id);
    }
    assert forall|p: Seq<(u64, Seq<TokenId>)>, x: ArtifactId| #[trigger]
        next.routes.at(p).contains(x) <==> if x == id {
            next.entry(id).routed_at(b, p)
        } else {
            e.routes.at(p).contains(x)
        } by {
        lemma_with(e.routes, path, id, p, x);
        assert(e.routes.at(p).contains(id) <==> e.has(id) && e.entry(id).routed_at(b, p));
    }
    lemma_put_wf(e, b, next, id);
}

/// A change of one artifact that leaves its blocks and what is filed keeps the engine
/// well formed.
proof fn lemma_in_place_wf(e: EngineView, b: nat, next: EngineView, id: ArtifactId)
    requires
        e.wf(b),
        e.has(id),
        next == e.put(id, next.entry(id)),
        next.entry(id).blocks == e.entry(id).blocks,
        next.entry(id).wf(b),
        forall|p: Seq<(u64, Seq<TokenId>)>|
            next.entry(id).routed_at(b, p) <==> #[trigger] e.entry(id).routed_at(b, p),
    ensures
        next.wf(b),
{
    assert(next.lists() =~= e.lists());
    assert forall|p: Seq<(u64, Seq<TokenId>)>, x: ArtifactId| #[trigger]
        next.routes.at(p).contains(x) <==> if x == id {
            next.entry(id).routed_at(b, p)
        } else {
            e.routes.at(p).contains(x)
        } by {
        if x == id {
            assert(e.routes.at(p).contains(id) <==> e.has(id) && e.entry(id).routed_at(b, p));
        }
    }
    lemma_put_wf(e, b, next, id);
}

/// A writeback keeps the engine well formed.
proof fn lemma_writeback_wf(e: EngineView, b: nat, id: ArtifactId)
    requires
        e.wf(b),
        e.after_writeback(b, id).1 is Ok,
    ensures
        e.after_writeback(b, id).0.wf(b),
{
    let next = e.after_writeback(b, id).0;
    let path = e.entry(id).path(b);
    assert(next.lists() =~= e.lists());
    assert(e.artifacts[id.0].wf(b));
    tokens::lemma_multiple(e.entry(id).keys.len(), b);
    lemma_routes_wf(e.routes, path, id);
    assert forall|p: Seq<(u64, Seq<TokenId>)>| #[trigger] next.routes.at(p).no_duplicates() by {
        lemma_with(e.routes, path, id, p, id);
    }
    assert forall|p: Seq<(u64, Seq<TokenId>)>, x: ArtifactId| #[trigger]
        next.routes.at(p).contains(x) <==> if x == id {
            next.entry(id).routed_at(b, p)
        } else {
            e.routes.at(p).contains(x)
        } by {
        lemma_with(e.routes, path, id, p, x);
        assert(e.routes.at(p).contains(id) <==> e.has(id) && e.entry(id).routed_at(b, p));
    }
    lemma_put_wf(e, b, next, id);
}

/// Every operation keeps the engine well formed: exactly the readable artifacts with
/// some blocks are filed, each at its route, and every block is referenced once for
/// each artifact that lists it. No operation changes what the blocks of another
/// artifact hold, whether or not they are shared.
pub proof fn law_wf_kept(e: EngineView, b: nat, op: EngineOp)
    requires
        e.wf(b),
        op.keyed(b),
        e.counts(b, op),
    ensures
        e.after(b, op).wf(b),
        others_keep(e, e.after(b, op), op.target()),
{
    let next = e.after(b, op);
    match op {
        EngineOp::Register { id, tokens, keys, data, agent } => {
            if !e.has(id) {
                lemma_register_wf(e, b, id, tokens, keys, data, agent);
            }
        },
        EngineOp::Acquire { id, agent } => {
            if e.after_acquire(id, agent).1 is Ok {
                assert(e.artifacts[id.0].wf(b));
                lemma_in_place_wf(e, b, next, id);
            }
        },
        EngineOp::Invalidate { id } => {
            if e.after_invalidate(b, id).1 is Ok {
                lemma_invalidate_wf(e, b, id);
            }
        },
        EngineOp::Read { id, agent } => {
            if e.after_read(id, agent).1 is Ok {
                assert(e.artifacts[id.0].wf(b));
                lemma_in_place_wf(e, b, next, id);
            }
        },
        EngineOp::Write { id, agent, tokens, keys, data } => {
            if e.write_refusal(id, agent) is None {
                lemma_write_wf(e, b, id, agent, tokens, keys, data);
            }
        },
        EngineOp::Writeback { id } => {
            if e.after_writeback(b, id).1 is Ok {
                lemma_writeback_wf(e, b, id);
            }
        },
        EngineOp::Fork { id, tokens, keys, source, agent } => {
            if e.fork_refusal(id, source) is None {
                lemma_fork_wf(e, b, id, tokens, keys, source, agent);
            }
        },
    }
}

/// Every block of an artifact is in use and can be read, and a block is in use only
/// while an artifact lists it.
pub proof fn law_in_use(e: EngineView, b: nat, block: BlockId)
    requires
        e.wf(b),
        e.kv.slab.has(block),
    ensures
        e.kv.slab.rc[block.0 as int] == ledger::listed_by(e.lists(), block).len(),
        e.kv.slab.rc[block.0 as int] > 0 <==> exists|x: u64|
            #![trigger e.artifacts[x]]
            e.artifacts.contains_key(x) && e.artifacts[x].blocks.contains(block),
        e.kv.slab.rc[block.0 as int] > 0 <==> e.kv.slab.read(block) is Ok,
{
    let owners = ledger::listed_by(e.lists(), block);
    assert(BlockId(block.0) == block);
    assert(e.kv.slab.rc[block.0 as int] == ledger::named(e.lists(), Seq::empty(), block));
    assert(!Seq::<BlockId>::empty().contains(block));
    vstd::set_lib::lemma_set_empty_equivalency_len(owners);
    if owners.len() > 0 {
        let x = owners.choose();
        assert(owners.contains(x));
        assert(e.lists()[x] == e.artifacts[x].blocks);
    }
    if exists|x: u64|
        #![trigger e.artifacts[x]]
        e.artifacts.contains_key(x) && e.artifacts[x].blocks.contains(block) {
        let x = choose|x: u64|
            #![trigger e.artifacts[x]]
            e.artifacts.contains_key(x) && e.artifacts[x].blocks.contains(block);
        assert(e.lists()[x] == e.artifacts[x].blocks);
        assert(owners.contains(x));
    }
    assert(e.kv.slab.read(block) is Ok <==> e.kv.slab.committed[block.0 as int]);
}

/// A new engine is well formed.
pub proof fn law_fresh_wf(b: nat, capacity: usize, stride: usize, k_bound: u64)
    requires
        0 < b,
        EngineView::fresh(b, capacity, stride, k_bound).kv.wf(b),
    ensures
        EngineView::fresh(b, capacity, stride, k_bound).wf(b),
{
    let e = EngineView::fresh(b, capacity, stride, k_bound);
    assert(e.lists() =~= Map::empty());
    ledger::lemma_fresh_accounted(b, capacity, stride, e.lists());
    assert forall|path: Seq<(u64, Seq<TokenId>)>, id: ArtifactId| #[trigger]
        e.routes.at(path).contains(id) <==> e.has(id) && e.entry(id).routed_at(b, path) by {
        assert(!e.has(id));
    }
}

} // verus!
