//! What holds of the cache across its operations.

use crate::kv::block;
use crate::kv::block::{BlockError, SlabView};
use crate::kv::cache;
use crate::kv::cache::{CacheError, CacheView};
use crate::kv::ledger;
use crate::kv::tokens;
use crate::kv::trie_laws;
use crate::kv::BlockId;
use crate::kv::TokenId;
use vstd::prelude::*;

verus! {

/// `slab` is `base` with the blocks `got` handed out and referenced once each;
/// nothing that was referenced has changed.
pub open spec fn grown(base: SlabView, slab: SlabView, got: Seq<BlockId>) -> bool {
    &&& slab.sound()
    &&& slab.capacity == base.capacity
    &&& slab.stride == base.stride
    &&& got.no_duplicates()
    &&& slab.free.len() + got.len() == base.free.len()
    &&& forall|j: int|
        #![trigger got[j]]
        0 <= j < got.len() ==> {
            &&& base.has(got[j])
            &&& base.rc[got[j].0 as int] == 0
            &&& slab.rc[got[j].0 as int] == 1
        }
    &&& forall|i: usize|
        #![trigger slab.rc[i as int]]
        i < base.capacity && !got.contains(BlockId(i)) ==> slab.rc[i as int] == base.rc[i as int]
    &&& forall|id: BlockId|
        #![trigger slab.read(id)]
        base.has(id) && base.rc[id.0 as int] > 0 ==> slab.read(id) == base.read(id)
}

/// `end` is `slab` with each of `ids` referenced once less: those that were
/// referenced once are free and unreadable, and nothing else has changed.
pub open spec fn given_back(slab: SlabView, end: SlabView, ids: Seq<BlockId>) -> bool {
    &&& end.sound()
    &&& end.capacity == slab.capacity
    &&& end.stride == slab.stride
    &&& forall|j: int|
        #![trigger ids[j]]
        0 <= j < ids.len() ==> {
            &&& end.rc[ids[j].0 as int] == slab.rc[ids[j].0 as int] - 1
            &&& end.read(ids[j]) == if slab.rc[ids[j].0 as int] == 1 {
                Err(BlockError::NotCommitted)
            } else {
                slab.read(ids[j])
            }
        }
    &&& forall|i: usize|
        #![trigger end.rc[i as int]]
        i < slab.capacity && !ids.contains(BlockId(i)) ==> end.rc[i as int] == slab.rc[i as int]
    &&& forall|id: BlockId|
        #![trigger end.read(id)]
        slab.has(id) && !ids.contains(id) ==> end.read(id) == slab.read(id)
    &&& (forall|j: int|
        #![trigger ids[j]]
        0 <= j < ids.len() ==> slab.rc[ids[j].0 as int] == 1) ==> end.free.len()
        == slab.free.len() + ids.len()
}

/// Giving back blocks that are referenced frees those that are referenced once,
/// and nothing else.
proof fn lemma_decref_all(slab: SlabView, b: nat, ids: Seq<BlockId>)
    requires
        slab.wf(b),
        slab.sound(),
        ids.no_duplicates(),
        forall|j: int|
            #![trigger ids[j]]
            0 <= j < ids.len() ==> slab.has(ids[j]) && slab.rc[ids[j].0 as int] > 0,
    ensures
        slab.decref_all(ids).wf(b),
        given_back(slab, slab.decref_all(ids), ids),
    decreases ids.len(),
{
    if ids.len() > 0 {
        let front = ids.drop_last();
        let last = ids.last();
        assert forall|j: int| 0 <= j < front.len() implies slab.has(#[trigger] front[j])
            && slab.rc[front[j].0 as int] > 0 by {
            assert(front[j] == ids[j]);
        }
        lemma_decref_all(slab, b, front);
        let mid = slab.decref_all(front);
        let end = slab.decref_all(ids);
        assert(ids[ids.len() - 1] == last);
        assert(BlockId(last.0) == last);
        assert(!front.contains(BlockId(last.0)));
        assert(mid.rc[last.0 as int] == slab.rc[last.0 as int]);
        assert(mid.read(last) == slab.read(last));
        block::law_decref(mid, b, last);
        assert forall|x: BlockId| #[trigger] front.contains(x) || x == last implies ids.contains(
            x,
        ) by {
            if x != last {
                let j = choose|j: int| 0 <= j < front.len() && front[j] == x;
                assert(ids[j] == x);
            }
        }
        assert forall|j: int| 0 <= j < ids.len() implies {
            &&& end.rc[#[trigger] ids[j].0 as int] == slab.rc[ids[j].0 as int] - 1
            &&& end.read(ids[j]) == if slab.rc[ids[j].0 as int] == 1 {
                Err(BlockError::NotCommitted)
            } else {
                slab.read(ids[j])
            }
        } by {
            if j < front.len() {
                assert(front[j] == ids[j]);
                assert(BlockId(ids[j].0) == ids[j]);
                assert(ids[j].0 != last.0);
                assert(end.read(ids[j]) == mid.read(ids[j]));
            }
        }
        assert forall|i: usize| i < slab.capacity && !ids.contains(BlockId(i)) implies
            #[trigger] end.rc[i as int] == slab.rc[i as int] by {
            assert(!front.contains(BlockId(i)));
            assert(mid.rc[i as int] == slab.rc[i as int]);
        }
        assert forall|id: BlockId| slab.has(id) && !ids.contains(id) implies #[trigger] end.read(id)
            == slab.read(id) by {
            assert(!front.contains(id));
            assert(mid.read(id) == slab.read(id));
            assert(BlockId(id.0) == id);
            assert(id.0 != last.0);
        }
        if forall|j: int|
            #![trigger ids[j]]
            0 <= j < ids.len() ==> slab.rc[ids[j].0 as int] == 1 {
            assert forall|j: int| 0 <= j < front.len() implies slab.rc[#[trigger] front[j].0 as int]
                == 1 by {
                assert(front[j] == ids[j]);
            }
        }
    }
}

/// What filling blocks does: all the data is there to read, in blocks that were
/// free, or the counts are as they were.
proof fn lemma_fill(
    base: SlabView,
    slab: SlabView,
    b: nat,
    data: Seq<Seq<u8>>,
    i: int,
    got: Seq<BlockId>,
)
    requires
        slab.wf(b),
        base.wf(b),
        base.sound(),
        grown(base, slab, got),
        got.len() <= i <= data.len(),
        forall|j: int|
            #![trigger got[j]]
            0 <= j < got.len() ==> slab.read(got[j]) == Ok::<Seq<u8>, BlockError>(
                data[i - got.len() + j],
            ),
    ensures
        ({
            let (end, result) = cache::fill(slab, b, data, i, got);
            &&& end.wf(b)
            &&& match result {
                Ok(ids) => {
                    &&& grown(base, end, ids)
                    &&& ids.len() == got.len() + data.len() - i
                    &&& forall|j: int|
                        #![trigger ids[j]]
                        0 <= j < ids.len() ==> end.read(ids[j]) == Ok::<Seq<u8>, BlockError>(
                            data[i - got.len() + j],
                        )
                },
                Err(_) => grown(base, end, Seq::empty()),
            }
        }),
    decreases data.len() - i,
{
    if i < data.len() {
        match slab.next() {
            None => {
                lemma_give_back(base, slab, b, got);
            },
            Some(id) => {
                assert(slab.free[slab.free.len() - 1] == id);
                block::law_alloc(slab, b);
                let taken = slab.allocated();
                if data[i].len() != b * slab.stride {
                    block::law_alloc_then_decref(slab, b);
                    lemma_give_back(base, slab, b, got);
                } else {
                    let next = taken.commit(id, data[i]);
                    let more = got.push(id);
                    block::law_incref_then_decref(taken, b, id, data[i]);
                    assert(!got.contains(id)) by {
                        if got.contains(id) {
                            let j = choose|j: int| 0 <= j < got.len() && got[j] == id;
                            assert(slab.rc[got[j].0 as int] == 1);
                        }
                    }
                    assert(base.rc[id.0 as int] == 0) by {
                        assert(BlockId(id.0) == id);
                        assert(slab.rc[id.0 as int] == 0);
                    }
                    assert forall|j: int| 0 <= j < more.len() implies {
                        &&& base.has(#[trigger] more[j])
                        &&& base.rc[more[j].0 as int] == 0
                        &&& next.rc[more[j].0 as int] == 1
                        &&& next.read(more[j]) == Ok::<Seq<u8>, BlockError>(
                            data[i + 1 - more.len() + j],
                        )
                    } by {
                        if j < got.len() {
                            assert(more[j] == got[j]);
                            assert(got.contains(got[j]));
                            assert(got[j].0 != id.0) by {
                                assert(BlockId(got[j].0) == got[j]);
                                assert(BlockId(id.0) == id);
                            }
                            assert(slab.read(got[j]) == Ok::<Seq<u8>, BlockError>(
                                data[i - got.len() + j],
                            ));
                        }
                    }
                    assert forall|k: usize|
                        k < base.capacity && !more.contains(BlockId(k)) implies
                        #[trigger] next.rc[k as int] == base.rc[k as int] by {
                        assert(!got.contains(BlockId(k))) by {
                            if got.contains(BlockId(k)) {
                                let j = choose|j: int| 0 <= j < got.len() && got[j] == BlockId(k);
                                assert(more[j] == BlockId(k));
                            }
                        }
                        assert(k != id.0) by {
                            assert(more[got.len() as int] == id);
                            assert(BlockId(id.0) == id);
                        }
                        assert(slab.rc[k as int] == base.rc[k as int]);
                    }
                    assert forall|x: BlockId|
                        base.has(x) && base.rc[x.0 as int] > 0 implies #[trigger] next.read(x)
                        == base.read(x) by {
                        assert(slab.read(x) == base.read(x));
                    }
                    assert(more.no_duplicates());
                    lemma_fill(base, next, b, data, i + 1, more);
                }
            },
        }
    }
}

/// Giving back all that was handed out restores the counts.
proof fn lemma_give_back(base: SlabView, slab: SlabView, b: nat, got: Seq<BlockId>)
    requires
        slab.wf(b),
        base.wf(b),
        base.sound(),
        grown(base, slab, got),
    ensures
        slab.decref_all(got).wf(b),
        grown(base, slab.decref_all(got), Seq::empty()),
{
    lemma_decref_all(slab, b, got);
    let end = slab.decref_all(got);
    assert forall|i: usize| i < base.capacity implies #[trigger] end.rc[i as int]
        == base.rc[i as int] by {
        if got.contains(BlockId(i)) {
            let j = choose|j: int| 0 <= j < got.len() && got[j] == BlockId(i);
            assert(end.rc[got[j].0 as int] == slab.rc[got[j].0 as int] - 1);
        } else {
            assert(slab.rc[i as int] == base.rc[i as int]);
        }
    }
    assert forall|id: BlockId| base.has(id) && base.rc[id.0 as int] > 0 implies #[trigger] end.read(
        id,
    ) == base.read(id) by {
        if got.contains(id) {
            let j = choose|j: int| 0 <= j < got.len() && got[j] == id;
            assert(base.rc[got[j].0 as int] == 0);
        }
        assert(slab.read(id) == base.read(id));
    }
}

/// Inserted, then cached: after a successful insertion a lookup finds every
/// block. Those that were cached before are where they were; the data of the
/// others is read back from blocks that were free, one for each, and no block in
/// use has changed.
pub proof fn law_insert_then_lookup(
    c: CacheView,
    b: nat,
    tokens: Seq<TokenId>,
    data: Seq<Seq<u8>>,
    keys: Seq<u64>,
)
    requires
        0 < b,
        c.wf(b),
        c.slab.sound(),
        c.after_insert(b, tokens, data, keys).1 is Ok,
        c.after_insert(b, tokens, data, keys).0.trie.arena.len() <= usize::MAX,
    ensures
        ({
            let end = c.after_insert(b, tokens, data, keys).0;
            let cached = c.found(b, tokens, keys);
            let found = end.found(b, tokens, keys);
            &&& found.len() == data.len()
            &&& found.len() == tokens::block_count(tokens, b)
            &&& cached.is_prefix_of(found)
            &&& grown(c.slab, end.slab, found.skip(cached.len() as int))
            &&& forall|j: int|
                #![trigger found[j]]
                cached.len() <= j < found.len() ==> end.slab.read(found[j]) == Ok::<
                    Seq<u8>,
                    BlockError,
                >(data[j])
        }),
{
    let blocks = tokens::blocks_of(tokens, b);
    let cached = c.found(b, tokens, keys);
    let looked = c.trie.after_lookup(keys, blocks);
    let k = cached.len() as int;
    c.lemma_found_has(b, tokens, keys);
    lemma_fill(c.slab, c.slab, b, data, k, Seq::empty());
    let (slab, result) = cache::fill(c.slab, b, data, k, Seq::empty());
    let ids = result->Ok_0;
    assert(c.trie.same_shape(looked));
    c.trie.lemma_same_shape_wf(looked);
    trie_laws::law_lookup_and_fork_keep(c.trie, keys, blocks, keys, blocks);
    trie_laws::law_insert_then_lookup(looked, keys, blocks, cached + ids);
    let found = c.after_insert(b, tokens, data, keys).0.found(b, tokens, keys);
    assert((cached + ids).skip(k) =~= ids);
    assert(found == cached + ids);
    assert(found.skip(k) =~= ids);
    assert(cached =~= found.subrange(0, k));
    assert forall|j: int| k <= j < found.len() implies slab.read(#[trigger] found[j]) == Ok::<
        Seq<u8>,
        BlockError,
    >(data[j]) by {
        assert(found[j] == ids[j - k]);
    }
}

/// A successful insertion hands out blocks that were free, one for each block that was
/// not cached.
pub proof fn lemma_filled(
    c: CacheView,
    b: nat,
    tokens: Seq<TokenId>,
    data: Seq<Seq<u8>>,
    keys: Seq<u64>,
)
    requires
        0 < b,
        c.wf(b),
        c.slab.sound(),
        c.after_insert(b, tokens, data, keys).1 is Ok,
    ensures
        ({
            let k = c.found(b, tokens, keys).len() as int;
            let (slab, filled) = cache::fill(c.slab, b, data, k, Seq::empty());
            &&& filled is Ok
            &&& filled->Ok_0.len() == data.len() - k
            &&& data.len() == tokens::block_count(tokens, b)
            &&& grown(c.slab, slab, filled->Ok_0)
            &&& slab.wf(b)
        }),
{
    c.lemma_found_has(b, tokens, keys);
    lemma_fill(
        c.slab,
        c.slab,
        b,
        data,
        c.found(b, tokens, keys).len() as int,
        Seq::empty(),
    );
}

/// A successful insertion keeps the cache well formed.
pub proof fn lemma_fill_wf(
    c: CacheView,
    b: nat,
    tokens: Seq<TokenId>,
    data: Seq<Seq<u8>>,
    keys: Seq<u64>,
)
    requires
        0 < b,
        c.wf(b),
        c.slab.sound(),
        c.after_insert(b, tokens, data, keys).1 is Ok,
        c.after_insert(b, tokens, data, keys).0.trie.arena.len() <= usize::MAX,
    ensures
        c.after_insert(b, tokens, data, keys).0.wf(b),
        ({
            let k = c.found(b, tokens, keys).len() as int;
            let filled = cache::fill(c.slab, b, data, k, Seq::empty());
            &&& filled.1 is Ok
            &&& filled.1->Ok_0.len() == data.len() - k
            &&& data.len() == tokens::block_count(tokens, b)
        }),
{
    let blocks = tokens::blocks_of(tokens, b);
    let cached = c.found(b, tokens, keys);
    let k = cached.len() as int;
    let looked = c.after_lookup(b, tokens, keys);
    c.lemma_found_has(b, tokens, keys);
    lemma_fill(c.slab, c.slab, b, data, k, Seq::empty());
    let ids = cache::fill(c.slab, b, data, k, Seq::empty()).1->Ok_0;
    assert(c.trie.same_shape(looked.trie));
    c.lemma_same_shape_wf(looked, b);
    let all = cached + ids;
    assert forall|j: int| 0 <= j < all.len() implies #[trigger] all[j].0 < c.slab.capacity by {
        if j < k {
            assert(c.slab.has(cached[j]));
        } else {
            assert(all[j] == ids[j - k]);
        }
    }
    trie_laws::law_insert_then_lookup(looked.trie, keys, blocks, all);
    trie_laws::lemma_insert_ids(looked.trie, keys, blocks, all, c.slab.capacity);
}

/// A failed insertion keeps the cache well formed.
pub proof fn lemma_failed_fill_wf(
    c: CacheView,
    b: nat,
    tokens: Seq<TokenId>,
    data: Seq<Seq<u8>>,
    keys: Seq<u64>,
)
    requires
        0 < b,
        c.wf(b),
        c.slab.sound(),
        c.after_insert(b, tokens, data, keys).1 is Err,
    ensures
        c.after_insert(b, tokens, data, keys).0.wf(b),
{
    let looked = c.after_lookup(b, tokens, keys);
    c.lemma_found_has(b, tokens, keys);
    assert(c.trie.same_shape(looked.trie));
    c.lemma_same_shape_wf(looked, b);
    if CacheView::fits(b, tokens, data) {
        lemma_fill(
            c.slab,
            c.slab,
            b,
            data,
            c.found(b, tokens, keys).len() as int,
            Seq::empty(),
        );
    }
}

/// A failed insertion leaks nothing: every reference count and the number of free
/// blocks are as they were, blocks in use have not changed, and every lookup finds
/// what it found.
pub proof fn law_failed_insert_keeps(
    c: CacheView,
    b: nat,
    tokens: Seq<TokenId>,
    data: Seq<Seq<u8>>,
    keys: Seq<u64>,
    other: Seq<TokenId>,
    other_keys: Seq<u64>,
)
    requires
        0 < b,
        c.wf(b),
        c.slab.sound(),
        c.after_insert(b, tokens, data, keys).1 is Err,
    ensures
        ({
            let end = c.after_insert(b, tokens, data, keys).0;
            &&& grown(c.slab, end.slab, Seq::empty())
            &&& end.found(b, other, other_keys) == c.found(b, other, other_keys)
        }),
{
    let blocks = tokens::blocks_of(tokens, b);
    c.lemma_found_has(b, tokens, keys);
    if CacheView::fits(b, tokens, data) {
        lemma_fill(
            c.slab,
            c.slab,
            b,
            data,
            c.found(b, tokens, keys).len() as int,
            Seq::empty(),
        );
        trie_laws::law_lookup_and_fork_keep(
            c.trie,
            keys,
            blocks,
            other_keys,
            tokens::blocks_of(other, b),
        );
    }
}

/// What an insertion leads to, in any well formed cache.
pub proof fn law_inserted(
    c: CacheView,
    b: nat,
    tokens: Seq<TokenId>,
    data: Seq<Seq<u8>>,
    keys: Seq<u64>,
)
    requires
        0 < b,
        c.wf(b),
        keys.len() == tokens::block_count(tokens, b),
        c.after_insert(b, tokens, data, keys).0.trie.arena.len() <= usize::MAX,
    ensures
        ({
            let (next, result) = c.after_insert(b, tokens, data, keys);
            c.inserted(b, tokens, data, keys, next, result)
        }),
{
    let (next, result) = c.after_insert(b, tokens, data, keys);
    let blocks = tokens::blocks_of(tokens, b);
    let cached = c.found(b, tokens, keys);
    let k = cached.len() as int;
    let looked = c.trie.after_lookup(keys, blocks);
    c.lemma_found_has(b, tokens, keys);
    assert(c.trie.same_shape(looked));
    c.trie.lemma_same_shape_wf(looked);
    if CacheView::fits(b, tokens, data) {
        lemma_fill_outcome(c.slab, b, data, k, Seq::empty());
        if c.slab.free.no_duplicates() {
            lemma_fill_free(c.slab, b, data, k, Seq::empty());
        }
    }
    match result {
        Ok(_) => {
            let fresh = cache::taken(c.slab.free, (data.len() - k) as nat);
            let all = cached + fresh;
            assert(cache::fill(c.slab, b, data, k, Seq::empty()).1->Ok_0 =~= fresh);
            trie_laws::law_lookup_and_fork_keep(c.trie, keys, blocks, keys, blocks);
            trie_laws::law_insert_then_lookup(looked, keys, blocks, all);
            assert(all.skip(k) =~= fresh);
            assert forall|other: Seq<TokenId>, other_keys: Seq<u64>|
                #![trigger next.found(b, other, other_keys)]
                other_keys.len() == tokens::block_count(other, b) && trie_laws::no_collision(
                    keys,
                    blocks,
                    other_keys,
                    tokens::blocks_of(other, b),
                ) implies {
                let was = c.found(b, other, other_keys);
                let m = trie_laws::agreement(
                    keys,
                    blocks,
                    other_keys,
                    tokens::blocks_of(other, b),
                    0,
                );
                next.found(b, other, other_keys) == if m <= was.len() {
                    was
                } else {
                    next.found(b, tokens, keys).take(m as int)
                }
            } by {
                let others = tokens::blocks_of(other, b);
                trie_laws::law_lookup_and_fork_keep(c.trie, keys, blocks, other_keys, others);
                trie_laws::law_insert_elsewhere(looked, keys, blocks, all, other_keys, others);
            }
        },
        Err(_) => {
            assert forall|other: Seq<TokenId>, other_keys: Seq<u64>|
                #![trigger next.found(b, other, other_keys)]
                next.found(b, other, other_keys) == c.found(b, other, other_keys) by {
                trie_laws::law_lookup_and_fork_keep(
                    c.trie,
                    keys,
                    blocks,
                    other_keys,
                    tokens::blocks_of(other, b),
                );
            }
        },
    }
}

/// When filling blocks succeeds, which blocks it takes, and which error there is if it
/// does not.
proof fn lemma_fill_outcome(
    slab: SlabView,
    b: nat,
    data: Seq<Seq<u8>>,
    i: int,
    got: Seq<BlockId>,
)
    requires
        0 <= i <= data.len(),
    ensures
        ({
            let (end, result) = cache::fill(slab, b, data, i, got);
            let n = data.len() - i;
            match result {
                Ok(ids) => {
                    &&& n <= slab.free.len()
                    &&& forall|j: int|
                        i <= j < data.len() ==> #[trigger] data[j].len() == b * slab.stride
                    &&& ids == got + cache::taken(slab.free, n as nat)
                    &&& end.free == slab.free.take(slab.free.len() - n)
                },
                Err(e) => {
                    &&& e == CacheError::OutOfBlocks ==> slab.free.len() < n
                    &&& e == CacheError::DataSizeMismatch ==> exists|j: int|
                        i <= j < data.len() && (#[trigger] data[j]).len() != b * slab.stride
                },
            }
        }),
    decreases data.len() - i,
{
    let n = data.len() - i;
    if i == data.len() {
        assert(got + cache::taken(slab.free, 0) =~= got);
        assert(slab.free.take(slab.free.len() as int) =~= slab.free);
    } else if slab.free.len() > 0 && data[i].len() == b * slab.stride {
        let id = slab.free.last();
        let next = slab.allocated().commit(id, data[i]);
        lemma_fill_outcome(next, b, data, i + 1, got.push(id));
        match cache::fill(slab, b, data, i, got).1 {
            Ok(_) => {
                assert(got.push(id) + cache::taken(next.free, (n - 1) as nat) =~= got
                    + cache::taken(slab.free, n as nat));
                assert(next.free.take(next.free.len() - (n - 1)) =~= slab.free.take(
                    slab.free.len() - n,
                ));
            },
            Err(_) => {},
        }
    }
}

/// Which error filling ends in: it runs out of blocks exactly if there are too few and
/// the data of all blocks before the first that is wanting has the size of a block.
proof fn lemma_fill_error(slab: SlabView, b: nat, data: Seq<Seq<u8>>, i: int, got: Seq<BlockId>)
    requires
        0 <= i <= data.len(),
    ensures
        cache::fill(slab, b, data, i, got).1 is Err ==> (cache::fill(slab, b, data, i, got).1
            == Err::<Seq<BlockId>, CacheError>(CacheError::OutOfBlocks) <==> {
            &&& i + slab.free.len() < data.len()
            &&& forall|j: int|
                i <= j < i + slab.free.len() ==> #[trigger] data[j].len() == b * slab.stride
        }),
    decreases data.len() - i,
{
    if i < data.len() && slab.free.len() > 0 {
        let id = slab.free.last();
        if data[i].len() == b * slab.stride {
            let next = slab.allocated().commit(id, data[i]);
            lemma_fill_error(next, b, data, i + 1, got.push(id));
            assert(next.free.len() == slab.free.len() - 1);
            assert(next.stride == slab.stride);
        }
    }
}

/// When an insertion succeeds, and which error there is if it does not. The tokens
/// must be whole blocks, with one item of data for each. Of the blocks that are not
/// cached, from the first on, each takes a free block and must have data of the size of
/// a block; the first for which one of the two is wanting decides. What is cached is
/// looked up, and so marked as used, even where the insertion fails for that reason.
pub proof fn law_insert_outcome(
    c: CacheView,
    b: nat,
    tokens: Seq<TokenId>,
    data: Seq<Seq<u8>>,
    keys: Seq<u64>,
)
    requires
        c.wf(b),
    ensures
        ({
            let (next, result) = c.after_insert(b, tokens, data, keys);
            let k = c.found(b, tokens, keys).len();
            let free = c.slab.free.len();
            let width = b * c.slab.stride;
            if tokens.len() % b != 0 || data.len() != tokens.len() / b {
                result == Err::<(), CacheError>(CacheError::DataSizeMismatch) && next == c
            } else if exists|j: int|
                k <= j < data.len() && j < k + free && (#[trigger] data[j]).len() != width {
                &&& result == Err::<(), CacheError>(CacheError::DataSizeMismatch)
                &&& next.trie == c.trie.after_lookup(keys, tokens::blocks_of(tokens, b))
            } else if k + free < data.len() {
                &&& result == Err::<(), CacheError>(CacheError::OutOfBlocks)
                &&& next.trie == c.trie.after_lookup(keys, tokens::blocks_of(tokens, b))
            } else {
                result == Ok::<(), CacheError>(())
            }
        }),
{
    let k = c.found(b, tokens, keys).len() as int;
    c.lemma_found_has(b, tokens, keys);
    if tokens.len() % b == 0 && data.len() == tokens.len() / b {
        lemma_fill_outcome(c.slab, b, data, k, Seq::empty());
        lemma_fill_error(c.slab, b, data, k, Seq::empty());
    }
}

/// Giving back distinct blocks that are referenced once makes each of them free.
proof fn lemma_decref_all_free(slab: SlabView, b: nat, ids: Seq<BlockId>)
    requires
        slab.wf(b),
        ids.no_duplicates(),
        forall|j: int|
            #![trigger ids[j]]
            0 <= j < ids.len() ==> slab.has(ids[j]) && slab.rc[ids[j].0 as int] == 1,
    ensures
        slab.decref_all(ids).free.len() == slab.free.len() + ids.len(),
        slab.decref_all(ids).rc.len() == slab.rc.len(),
        forall|i: usize|
            #![trigger slab.decref_all(ids).rc[i as int]]
            i < slab.capacity && !ids.contains(BlockId(i)) ==> slab.decref_all(ids).rc[i as int]
                == slab.rc[i as int],
    decreases ids.len(),
{
    if ids.len() > 0 {
        let front = ids.drop_last();
        let last = ids.last();
        assert forall|j: int| 0 <= j < front.len() implies slab.has(#[trigger] front[j])
            && slab.rc[front[j].0 as int] == 1 by {
            assert(front[j] == ids[j]);
        }
        lemma_decref_all_free(slab, b, front);
        let mid = slab.decref_all(front);
        let end = slab.decref_all(ids);
        assert(ids[ids.len() - 1] == last);
        assert(BlockId(last.0) == last);
        assert(!front.contains(BlockId(last.0)));
        assert(mid.rc[last.0 as int] == 1);
        assert forall|i: usize| i < slab.capacity && !ids.contains(BlockId(i)) implies
            #[trigger] end.rc[i as int] == slab.rc[i as int] by {
            assert(!front.contains(BlockId(i))) by {
                if front.contains(BlockId(i)) {
                    let j = choose|j: int| 0 <= j < front.len() && front[j] == BlockId(i);
                    assert(ids[j] == BlockId(i));
                }
            }
            assert(mid.rc[i as int] == slab.rc[i as int]);
        }
    }
}

/// Filling that fails leaves as many blocks free as there were, with those in `got`,
/// where no block is listed as free twice.
proof fn lemma_fill_free(slab: SlabView, b: nat, data: Seq<Seq<u8>>, i: int, got: Seq<BlockId>)
    requires
        slab.wf(b),
        slab.free.no_duplicates(),
        got.no_duplicates(),
        0 <= i <= data.len(),
        forall|j: int|
            #![trigger got[j]]
            0 <= j < got.len() ==> slab.has(got[j]) && slab.rc[got[j].0 as int] == 1
                && !slab.free.contains(got[j]),
    ensures
        cache::fill(slab, b, data, i, got).1 is Err ==> cache::fill(
            slab,
            b,
            data,
            i,
            got,
        ).0.free.len() == slab.free.len() + got.len(),
    decreases data.len() - i,
{
    if i < data.len() {
        if slab.free.len() == 0 {
            lemma_decref_all_free(slab, b, got);
        } else {
            let id = slab.free.last();
            let held = slab.allocated();
            assert(slab.free[slab.free.len() - 1] == id);
            assert(slab.free.contains(id));
            assert(BlockId(id.0) == id);
            assert(!held.free.contains(id)) by {
                if held.free.contains(id) {
                    let j = choose|j: int| 0 <= j < held.free.len() && held.free[j] == id;
                    assert(slab.free[j] == slab.free[slab.free.len() - 1]);
                }
            }
            assert forall|j: int| 0 <= j < held.free.len() implies #[trigger] held.free[j].0
                < held.capacity by {
                assert(held.free[j] == slab.free[j]);
            }
            assert(held.wf(b));
            assert forall|j: int| 0 <= j < got.len() implies (#[trigger] got[j]).0 != id.0
                && !held.free.contains(got[j]) by {
                assert(BlockId(got[j].0) == got[j]);
                if held.free.contains(got[j]) {
                    let h = choose|h: int| 0 <= h < held.free.len() && held.free[h] == got[j];
                    assert(slab.free[h] == got[j]);
                }
            }
            if data[i].len() != b * slab.stride {
                let back = held.decref(id);
                assert(back.rc[id.0 as int] == 0);
                assert(back.free =~= slab.free);
                assert(back.wf(b));
                lemma_decref_all_free(back, b, got);
            } else {
                let next = held.commit(id, data[i]);
                let more = got.push(id);
                assert forall|j: int| 0 <= j < more.len() implies next.has(#[trigger] more[j])
                    && next.rc[more[j].0 as int] == 1 && !next.free.contains(more[j]) by {
                    if j < got.len() {
                        assert(more[j] == got[j]);
                        assert(got[j].0 != id.0);
                    }
                }
                assert forall|h: int, j: int| 0 <= h < j < more.len() implies more[h]
                    != more[j] by {
                    assert(more[h] == got[h]);
                    assert(got[h].0 != id.0);
                }
                lemma_fill_free(next, b, data, i + 1, more);
            }
        }
    }
}

/// Releasing referenced blocks takes one reference from each: blocks that nobody
/// else references are free again, and all other blocks stay as they are.
pub proof fn law_release(c: CacheView, b: nat, ids: Seq<BlockId>)
    requires
        c.wf(b),
        c.slab.sound(),
        ids.no_duplicates(),
        forall|j: int|
            #![trigger ids[j]]
            0 <= j < ids.len() ==> c.slab.has(ids[j]) && c.slab.rc[ids[j].0 as int] > 0,
    ensures
        given_back(c.slab, c.after_release(ids).slab, ids),
{
    lemma_decref_all(c.slab, b, ids);
}

/// A release keeps the cache well formed.
pub proof fn lemma_release_wf(c: CacheView, b: nat, ids: Seq<BlockId>)
    requires
        c.wf(b),
        c.slab.sound(),
        ids.no_duplicates(),
        forall|j: int|
            #![trigger ids[j]]
            0 <= j < ids.len() ==> c.slab.has(ids[j]) && c.slab.rc[ids[j].0 as int] > 0,
    ensures
        c.after_release(ids).wf(b),
{
    lemma_decref_all(c.slab, b, ids);
    trie_laws::lemma_released_all(c.trie, ids);
    let end = c.after_release(ids);
    assert forall|i: int| end.trie.live(i) implies end.slab.has(
        #[trigger] end.trie.arena[i]->Some_0.block_id,
    ) by {
        assert(c.trie.arena[i] is Some);
    }
}

/// Evicting nodes of a tidy cache frees the blocks they stand for, one for each node,
/// and no others. The cache stays tidy, and the evicted nodes are gone.
pub proof fn law_evict(c: CacheView, b: nat, order: Seq<usize>, k: int)
    requires
        c.wf(b),
        c.tidy(),
        c.trie.lru_order(order),
        0 <= k <= order.len(),
    ensures
        given_back(
            c.slab,
            c.after_evict(order.take(k)).slab,
            c.trie.ids(order.take(k)),
        ),
        c.after_evict(order.take(k)).slab.free.len() == c.slab.free.len() + k,
        c.after_evict(order.take(k)).tidy(),
        forall|j: int|
            0 <= j < k ==> !c.after_evict(order.take(k)).trie.live(#[trigger] order[j] as int),
{
    let gone = order.take(k);
    let ids = c.trie.ids(gone);
    let end = c.after_evict(gone);
    assert forall|j: int| 0 <= j < gone.len() implies c.trie.live(#[trigger] gone[j] as int) by {
        assert(order.contains(order[j]));
    }
    c.trie.lemma_without_all_wf(gone);
    assert forall|j: int| 0 <= j < ids.len() implies c.slab.has(#[trigger] ids[j])
        && c.slab.rc[ids[j].0 as int] == 1 by {
        assert(order.contains(order[j]));
        assert(c.trie.evictable(order[j] as int));
        assert(c.trie.live(gone[j] as int));
        assert(c.trie.arena[gone[j] as int] is Some);
    }
    assert forall|i: int, j: int| 0 <= i < j < ids.len() implies ids[i] != ids[j] by {
        assert(c.trie.live(gone[i] as int));
        assert(c.trie.live(gone[j] as int));
        assert(c.trie.arena[gone[i] as int] is Some);
        assert(c.trie.arena[gone[j] as int] is Some);
        assert(gone[i] != gone[j]);
    }
    lemma_decref_all(c.slab, b, ids);
    assert forall|j: int| 0 <= j < k implies !end.trie.live(#[trigger] order[j] as int) by {
        assert(gone[j] == order[j]);
    }
    assert forall|i: int| c.trie.live(i) && !gone.contains(i as usize) implies end.slab.rc[(
    #[trigger] c.trie.arena[i]->Some_0.block_id).0 as int] == c.slab.rc[c.trie.node(
        i,
    ).block_id.0 as int] by {
        let id = c.trie.node(i).block_id;
        assert(BlockId(id.0) == id);
        if ids.contains(id) {
            let j = choose|j: int| 0 <= j < ids.len() && ids[j] == id;
            assert(c.trie.live(gone[j] as int));
            assert(c.trie.arena[gone[j] as int] is Some);
            assert(gone.contains(gone[j]));
        }
    }
    ledger::lemma_without_counted(c.trie, c.slab.rc, gone, end.slab.rc);
    assert forall|i: int| 0 <= i < end.slab.capacity && end.slab.rc[i] > 0 implies
        #[trigger] end.slab.committed[i] by {
        let id = BlockId(i as usize);
        assert(c.slab.rc[i] > 0 ==> c.slab.committed[i]);
        if ids.contains(id) {
            let j = choose|j: int| 0 <= j < ids.len() && ids[j] == id;
            assert(end.slab.rc[ids[j].0 as int] == c.slab.rc[ids[j].0 as int] - 1);
        } else {
            assert(end.slab.rc[(i as usize) as int] == c.slab.rc[i]);
            assert(end.slab.read(id) == c.slab.read(id));
        }
    }
}

/// A fork shares blocks: it copies nothing, and releasing what it returned leaves
/// every reference count as it was, so the blocks outlive either owner.
pub proof fn law_fork_shares(c: CacheView, b: nat, tokens: Seq<TokenId>, keys: Seq<u64>)
    requires
        c.wf(b),
        c.tidy(),
        c.can_share(b, tokens, keys),
    ensures
        c.after_fork(b, tokens, keys).slab.blocks == c.slab.blocks,
        c.after_fork(b, tokens, keys).slab.committed == c.slab.committed,
        c.after_fork(b, tokens, keys).slab.free == c.slab.free,
        c.after_fork(b, tokens, keys).slab.decref_all(c.found(b, tokens, keys)) == c.slab,
{
    let ids = c.found(b, tokens, keys);
    ledger::lemma_found_list(c, b, tokens, keys);
    assert forall|j: int| 0 <= j < ids.len() implies c.slab.has(#[trigger] ids[j]) && 0
        < c.slab.rc[ids[j].0 as int] < u32::MAX by {
        assert(c.found(b, tokens, keys)[j] == ids[j]);
    }
    lemma_incref_all(c.slab, b, ids);
    let more = c.slab.incref_all(ids);
    lemma_incref_then_decref_all(c.slab, b, ids, ids.len() as int);
    assert(ids.take(ids.len() as int) =~= ids);
    let end = more.decref_all(ids);
    assert forall|i: int| 0 <= i < c.slab.capacity implies end.rc[i] == #[trigger] c.slab.rc[i] by {
        let x = BlockId(i as usize);
        if ids.contains(x) {
            let j = choose|j: int| 0 <= j < ids.len() && ids[j] == x;
            assert(end.rc[ids[j].0 as int] == c.slab.rc[ids[j].0 as int]);
        } else {
            assert(end.rc[(i as usize) as int] == c.slab.rc[i]);
        }
    }
    assert(end =~= c.slab);
}

/// One more reference to each of several blocks.
pub proof fn lemma_incref_all(slab: SlabView, b: nat, ids: Seq<BlockId>)
    requires
        slab.wf(b),
        ids.no_duplicates(),
        forall|j: int|
            #![trigger ids[j]]
            0 <= j < ids.len() ==> slab.has(ids[j]) && slab.rc[ids[j].0 as int] < u32::MAX,
    ensures
        ({
            let end = slab.incref_all(ids);
            &&& end == (SlabView { rc: end.rc, ..slab })
            &&& end.rc.len() == slab.rc.len()
            &&& forall|j: int|
                #![trigger ids[j]]
                0 <= j < ids.len() ==> end.rc[ids[j].0 as int] == slab.rc[ids[j].0 as int] + 1
            &&& forall|i: usize|
                #![trigger end.rc[i as int]]
                i < slab.capacity && !ids.contains(BlockId(i)) ==> end.rc[i as int]
                    == slab.rc[i as int]
        }),
    decreases ids.len(),
{
    if ids.len() > 0 {
        let front = ids.drop_last();
        let last = ids.last();
        assert forall|j: int| 0 <= j < front.len() implies slab.has(#[trigger] front[j])
            && slab.rc[front[j].0 as int] < u32::MAX by {
            assert(front[j] == ids[j]);
        }
        lemma_incref_all(slab, b, front);
        let mid = slab.incref_all(front);
        let end = slab.incref_all(ids);
        assert(ids[ids.len() - 1] == last);
        assert(BlockId(last.0) == last);
        assert(!front.contains(BlockId(last.0)));
        assert(mid.rc[last.0 as int] == slab.rc[last.0 as int]);
        assert forall|j: int| 0 <= j < ids.len() implies end.rc[#[trigger] ids[j].0 as int]
            == slab.rc[ids[j].0 as int] + 1 by {
            if j < front.len() {
                assert(front[j] == ids[j]);
                assert(BlockId(ids[j].0) == ids[j]);
                assert(ids[j].0 != last.0);
            }
        }
        assert forall|i: usize| i < slab.capacity && !ids.contains(BlockId(i)) implies
            #[trigger] end.rc[i as int] == slab.rc[i as int] by {
            assert(!front.contains(BlockId(i))) by {
                if front.contains(BlockId(i)) {
                    let j = choose|j: int| 0 <= j < front.len() && front[j] == BlockId(i);
                    assert(ids[j] == BlockId(i));
                }
            }
            assert(mid.rc[i as int] == slab.rc[i as int]);
        }
    }
}

/// One more reference to each of several blocks, and then one less to the first
/// `m` of them.
proof fn lemma_incref_then_decref_all(slab: SlabView, b: nat, ids: Seq<BlockId>, m: int)
    requires
        slab.wf(b),
        ids.no_duplicates(),
        0 <= m <= ids.len(),
        forall|j: int|
            #![trigger ids[j]]
            0 <= j < ids.len() ==> slab.has(ids[j]) && 0 < slab.rc[ids[j].0 as int] < u32::MAX,
    ensures
        ({
            let end = slab.incref_all(ids).decref_all(ids.take(m));
            &&& end == (SlabView { rc: end.rc, ..slab })
            &&& end.rc.len() == slab.rc.len()
            &&& forall|j: int|
                #![trigger ids[j]]
                0 <= j < ids.len() ==> end.rc[ids[j].0 as int] == slab.rc[ids[j].0 as int] + if j
                    < m {
                    0int
                } else {
                    1int
                }
            &&& forall|i: usize|
                #![trigger end.rc[i as int]]
                i < slab.capacity && !ids.contains(BlockId(i)) ==> end.rc[i as int]
                    == slab.rc[i as int]
        }),
    decreases m,
{
    lemma_incref_all(slab, b, ids);
    if m > 0 {
        lemma_incref_then_decref_all(slab, b, ids, m - 1);
        assert(ids.take(m).drop_last() =~= ids.take(m - 1));
        let mid = slab.incref_all(ids).decref_all(ids.take(m - 1));
        let end = slab.incref_all(ids).decref_all(ids.take(m));
        let id = ids[m - 1];
        assert(end == mid.decref(id));
        assert(mid.rc[id.0 as int] == slab.rc[id.0 as int] + 1);
        assert(BlockId(id.0) == id);
        assert forall|j: int| 0 <= j < ids.len() implies end.rc[#[trigger] ids[j].0 as int]
            == slab.rc[ids[j].0 as int] + if j < m {
            0int
        } else {
            1int
        } by {
            if j != m - 1 {
                assert(BlockId(ids[j].0) == ids[j]);
                assert(ids[j].0 != id.0);
            }
        }
        assert forall|i: usize| i < slab.capacity && !ids.contains(BlockId(i)) implies
            #[trigger] end.rc[i as int] == slab.rc[i as int] by {
            assert(ids.contains(id));
            assert(mid.rc[i as int] == slab.rc[i as int]);
        }
    }
}

/// The items of data are taken as they are, in their order.
pub proof fn law_byte_views(data: Seq<&[u8]>)
    ensures
        cache::byte_views(data).len() == data.len(),
        forall|i: int| 0 <= i < data.len() ==> #[trigger] cache::byte_views(data)[i] == data[i]@,
{
}

/// A lookup changes no block, and marks the nodes of what it finds as used now: after
/// it every node on the way along the blocks of `tokens` has the time of the clock, and
/// every other node the time it had.
pub proof fn law_lookup_marks(
    c: CacheView,
    b: nat,
    tokens: Seq<TokenId>,
    keys: Seq<u64>,
    i: int,
)
    requires
        c.wf(b),
        0 <= i < c.trie.arena.len(),
        c.trie.arena[i] is Some,
    ensures
        ({
            let next = c.after_lookup(b, tokens, keys);
            let path = c.trie.walk(keys, tokens::blocks_of(tokens, b));
            &&& next.slab == c.slab
            &&& trie_laws::follows(c.trie.clock, next.trie.clock)
            &&& next.trie.arena[i] is Some
            &&& next.trie.arena[i]->Some_0.last_used == if path.contains(i as usize) {
                next.trie.clock
            } else {
                c.trie.arena[i]->Some_0.last_used
            }
            &&& next.found(b, tokens, keys) == c.found(b, tokens, keys)
        }),
{
    let blocks = tokens::blocks_of(tokens, b);
    trie_laws::law_lookup_marks(c.trie, keys, blocks, i);
    trie_laws::law_lookup_and_fork_keep(c.trie, keys, blocks, keys, blocks);
}

/// What was just looked up is evicted last: while an evictable node stays that is not on
/// the way along the blocks of `tokens`, an eviction leaves all of what the lookup found
/// to be found again.
pub proof fn law_lookup_then_evict(
    c: CacheView,
    b: nat,
    tokens: Seq<TokenId>,
    keys: Seq<u64>,
    order: Seq<usize>,
    k: int,
    m: int,
)
    requires
        c.wf(b),
        trie_laws::stamped(c.trie),
        c.trie.clock < u64::MAX,
        c.after_lookup(b, tokens, keys).trie.lru_order(order),
        0 <= k <= m < order.len(),
        !c.trie.walk(keys, tokens::blocks_of(tokens, b)).contains(order[m]),
    ensures
        c.after_lookup(b, tokens, keys).after_evict(order.take(k)).found(b, tokens, keys)
            == c.found(b, tokens, keys),
{
    trie_laws::law_lookup_then_evict(
        c.trie,
        keys,
        tokens::blocks_of(tokens, b),
        order,
        k,
        m,
    );
}

/// A fork references each block of the longest cached prefix once more and no other, and
/// changes neither what is free nor what any block holds.
pub proof fn law_fork_counts(
    c: CacheView,
    b: nat,
    tokens: Seq<TokenId>,
    keys: Seq<u64>,
    i: usize,
)
    requires
        c.wf(b),
        c.tidy(),
        i < c.slab.capacity,
        c.slab.rc[i as int] < u32::MAX,
        c.can_share(b, tokens, keys),
    ensures
        ({
            let next = c.after_fork(b, tokens, keys).slab;
            &&& next == (SlabView { rc: next.rc, ..c.slab })
            &&& next.rc[i as int] == if c.found(b, tokens, keys).contains(BlockId(i)) {
                c.slab.rc[i as int] + 1
            } else {
                c.slab.rc[i as int] as int
            }
        }),
{
    let ids = c.found(b, tokens, keys);
    ledger::lemma_found_list(c, b, tokens, keys);
    assert forall|j: int| 0 <= j < ids.len() implies c.slab.has(#[trigger] ids[j])
        && c.slab.rc[ids[j].0 as int] < u32::MAX by {
        assert(c.found(b, tokens, keys)[j] == ids[j]);
    }
    lemma_incref_all(c.slab, b, ids);
    if ids.contains(BlockId(i)) {
        let j = choose|j: int| 0 <= j < ids.len() && ids[j] == BlockId(i);
        assert(ids[j].0 == i);
    }
}

/// Retaining blocks references each of them once more and no other, and changes neither
/// what is free nor what any block holds.
pub proof fn law_retain_counts(c: CacheView, b: nat, ids: Seq<BlockId>, i: usize)
    requires
        c.wf(b),
        ids.no_duplicates(),
        i < c.slab.capacity,
        forall|j: int|
            #![trigger ids[j]]
            0 <= j < ids.len() ==> c.slab.has(ids[j]) && c.slab.rc[ids[j].0 as int] < u32::MAX,
    ensures
        ({
            let next = c.after_retain(ids).slab;
            &&& next == (SlabView { rc: next.rc, ..c.slab })
            &&& next.rc[i as int] == if ids.contains(BlockId(i)) {
                c.slab.rc[i as int] + 1
            } else {
                c.slab.rc[i as int] as int
            }
        }),
{
    lemma_incref_all(c.slab, b, ids);
    if ids.contains(BlockId(i)) {
        let j = choose|j: int| 0 <= j < ids.len() && ids[j] == BlockId(i);
        assert(ids[j].0 == i);
    }
}

/// What is found are the slab blocks of the nodes on the way along the blocks of
/// `tokens`; the operations of the cache that take blocks do the same to the slab and to
/// the trie, with the same blocks.
pub proof fn law_in_step(
    c: CacheView,
    b: nat,
    tokens: Seq<TokenId>,
    keys: Seq<u64>,
    ids: Seq<BlockId>,
    slots: Seq<usize>,
)
    ensures
        c.found(b, tokens, keys) == c.trie.found(keys, tokens::blocks_of(tokens, b)),
        c.after_fork(b, tokens, keys).slab == c.slab.incref_all(c.found(b, tokens, keys)),
        c.after_fork(b, tokens, keys).trie == c.trie.after_fork(
            keys,
            tokens::blocks_of(tokens, b),
        ),
        c.after_release(ids).slab == c.slab.decref_all(ids),
        c.after_release(ids).trie == c.trie.released_all(ids),
        c.after_retain(ids).slab == c.slab.incref_all(ids),
        c.after_retain(ids).trie == c.trie.retained_all(ids),
        c.after_evict(slots).slab == c.slab.decref_all(c.trie.ids(slots)),
        c.after_evict(slots).trie == c.trie.without_all(slots),
{
}

/// An insertion marks what it finds and what it adds as used: the nodes that were on the
/// way have the time of the first tick, the new ones that of the second, which the clock
/// shows. No other node is marked, and no node that was there is held more or less often.
pub proof fn law_insert_marks(
    c: CacheView,
    b: nat,
    tokens: Seq<TokenId>,
    data: Seq<Seq<u8>>,
    keys: Seq<u64>,
    x: int,
    j: int,
)
    requires
        0 < b,
        c.wf(b),
        c.slab.sound(),
        c.after_insert(b, tokens, data, keys).1 is Ok,
        c.after_insert(b, tokens, data, keys).0.trie.arena.len() <= usize::MAX,
    ensures
        ({
            let next = c.after_insert(b, tokens, data, keys).0.trie;
            let blocks = tokens::blocks_of(tokens, b);
            let cached = c.trie.walk(keys, blocks);
            let path = next.walk(keys, blocks);
            let was = c.trie.arena[x]->Some_0;
            let is = next.arena[x]->Some_0;
            let new = next.arena[path[j] as int]->Some_0;
            &&& 0 <= x < c.trie.arena.len() && c.trie.arena[x] is Some ==> {
                &&& x < next.arena.len() && next.arena[x] is Some
                &&& is.rc == was.rc
                &&& is.tokens == was.tokens
                &&& is.block_id == was.block_id
                &&& cached.contains(x as usize) ==> trie_laws::follows(c.trie.clock, is.last_used)
                    && trie_laws::follows(is.last_used, next.clock)
                &&& !cached.contains(x as usize) ==> is.last_used == was.last_used
            }
            &&& path.len() == tokens.len() / b
            &&& cached.len() <= j < path.len() ==> new.rc == 0 && new.last_used == next.clock
        }),
{
    let blocks = tokens::blocks_of(tokens, b);
    let cached = c.found(b, tokens, keys);
    let looked = c.trie.after_lookup(keys, blocks);
    lemma_filled(c, b, tokens, data, keys);
    let ids = cache::fill(c.slab, b, data, cached.len() as int, Seq::empty()).1->Ok_0;
    c.lemma_found_has(b, tokens, keys);
    c.trie.lemma_same_shape_wf(looked);
    c.trie.lemma_same_shape_walk(looked, None, keys, blocks, 0);
    trie_laws::law_insert_marks(looked, keys, blocks, cached + ids, x, j);
    if 0 <= x < c.trie.arena.len() {
        trie_laws::law_lookup_marks(c.trie, keys, blocks, x);
    }
}

/// What is stored for a new owner is cached: a lookup finds all of its blocks, every node
/// on the way has just been used, and only as many free blocks were taken as were not
/// cached before.
pub proof fn law_store_caches(
    c: CacheView,
    b: nat,
    tokens: Seq<TokenId>,
    data: Seq<Seq<u8>>,
    keys: Seq<u64>,
    j: int,
)
    requires
        0 < b,
        c.wf(b),
        c.tidy(),
        keys.len() == tokens.len() / b,
        c.can_share(b, tokens, keys),
        c.after_store(b, tokens, data, keys, Seq::empty()).1 is Ok,
    ensures
        ({
            let (next, result) = c.after_store(b, tokens, data, keys, Seq::empty());
            let cached = c.found(b, tokens, keys).len();
            let path = next.trie.walk(keys, tokens::blocks_of(tokens, b));
            &&& result == Ok::<Seq<BlockId>, CacheError>(next.found(b, tokens, keys))
            &&& next.found(b, tokens, keys).len() == tokens.len() / b
            &&& 0 <= j < path.len() ==> next.trie.arena[path[j] as int]->Some_0.last_used
                == next.trie.clock
            &&& next.slab.free.len() == c.slab.free.len() - (tokens.len() / b - cached)
            &&& next.slab.free == c.slab.free.take(next.slab.free.len() as int)
        }),
{
    let tblocks = tokens::blocks_of(tokens, b);
    let cached = c.found(b, tokens, keys);
    let k = cached.len() as int;
    let filled = c.after_insert(b, tokens, data, keys).0;
    ledger::lemma_found_list(c, b, tokens, keys);
    ledger::lemma_insert_tidy(c, b, tokens, data, keys);
    law_insert_then_lookup(c, b, tokens, data, keys);
    law_inserted(c, b, tokens, data, keys);
    let blocks = filled.found(b, tokens, keys);
    let fresh = blocks.skip(k);
    let looked = filled.after_lookup(b, tokens, keys);
    ledger::lemma_looked_tidy(filled, b, tokens, keys);
    ledger::lemma_found_list(looked, b, tokens, keys);
    let held = blocks.subrange(0, k);
    assert(held.no_duplicates());
    assert forall|i: int| 0 <= i < held.len() implies looked.slab.has(#[trigger] held[i])
        && looked.slab.rc[held[i].0 as int] < u32::MAX by {
        let id = held[i];
        assert(id == cached[i]);
        assert(c.found(b, tokens, keys)[i] == id);
        assert(BlockId(id.0) == id);
        if fresh.contains(id) {
            let h = choose|h: int| 0 <= h < fresh.len() && fresh[h] == id;
            assert(c.slab.rc[fresh[h].0 as int] == 0);
        }
        assert(filled.slab.rc[id.0 as int] == c.slab.rc[id.0 as int]);
    }
    ledger::lemma_can_retain(looked, b, held);
    looked.trie.lemma_retained_all(held);
    lemma_incref_all(looked.slab, b, held);
    let mid = looked.after_retain(held);
    let next = c.after_store(b, tokens, data, keys, Seq::empty()).0;
    assert(Seq::<BlockId>::empty().skip(0) =~= Seq::empty());
    assert(next == mid.after_release(Seq::empty()));
    assert(next == mid);
    looked.trie.lemma_same_shape_walk(mid.trie, None, keys, tblocks, 0);
    filled.trie.lemma_same_shape_walk(looked.trie, None, keys, tblocks, 0);
    let path = mid.trie.walk(keys, tblocks);
    looked.trie.lemma_walk_levels(None, keys, tblocks, 0);
    assert forall|i: int| 0 <= i < path.len() implies mid.trie.node(#[trigger] path[i] as int).block_id
        == looked.trie.node(path[i] as int).block_id by {
        assert(looked.trie.live(path[i] as int));
        assert(mid.trie.arena[path[i] as int] is Some);
    }
    assert(mid.found(b, tokens, keys) =~= looked.found(b, tokens, keys));
    if 0 <= j < path.len() {
        let x = path[j];
        assert(looked.trie.live(x as int));
        assert(filled.trie.walk(keys, tblocks)[j] == x);
        assert(filled.trie.walk(keys, tblocks).contains(x));
        trie_laws::law_lookup_marks(filled.trie, keys, tblocks, x as int);
        assert(mid.trie.arena[x as int] is Some);
    }
}

/// How storing goes on once the data is in: the owner keeps the first `m` of its blocks,
/// as far as the new blocks are the same. Of the others that were cached it holds each
/// once more, and of those it had it releases the rest. Where the data does not get in,
/// nothing more happens.
pub proof fn law_store_steps(
    c: CacheView,
    b: nat,
    tokens: Seq<TokenId>,
    data: Seq<Seq<u8>>,
    keys: Seq<u64>,
    owned: Seq<BlockId>,
    m: int,
)
    requires
        ({
            let blocks = c.after_insert(b, tokens, data, keys).0.found(b, tokens, keys);
            &&& 0 <= m <= blocks.len()
            &&& m <= owned.len()
            &&& forall|i: int| 0 <= i < m ==> #[trigger] blocks[i] == owned[i]
            &&& m < blocks.len() && m < owned.len() ==> blocks[m] != owned[m]
        }),
    ensures
        ({
            let (filled, inserted) = c.after_insert(b, tokens, data, keys);
            let blocks = filled.found(b, tokens, keys);
            let cached = c.found(b, tokens, keys).len() as int;
            let (next, result) = c.after_store(b, tokens, data, keys, owned);
            match inserted {
                Err(e) => next == filled && result == Err::<Seq<BlockId>, CacheError>(e),
                Ok(_) => {
                    &&& result == Ok::<Seq<BlockId>, CacheError>(blocks)
                    &&& m <= cached ==> next == filled.after_lookup(b, tokens, keys).after_retain(
                        blocks.subrange(m, cached),
                    ).after_release(owned.skip(m))
                },
            }
        }),
{
    let blocks = c.after_insert(b, tokens, data, keys).0.found(b, tokens, keys);
    ledger::lemma_shared_prefix(blocks, owned);
    let s = cache::shared_prefix(blocks, owned) as int;
    if s < m {
        assert(blocks[s] == owned[s]);
    }
    if m < s {
        assert(blocks.take(s)[m] == owned.take(s)[m]);
    }
}

} // verus!
