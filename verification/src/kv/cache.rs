//! The cache: token sequences whose blocks of key/value data live in the slab
//! and are found through the trie.

use crate::kv::block::{BlockSlab, SlabView};
use crate::kv::cache_laws;
use crate::kv::ledger;
use crate::kv::tokens;
use crate::kv::trie::{DualRadixTrie, LookupResult};
use crate::kv::trie_laws;
use crate::kv::trie_model::TrieView;
use crate::kv::BlockId;
use crate::kv::TokenId;
use vstd::prelude::*;

verus! {

/// Why data cannot be cached.
#[derive(Debug, Clone, Copy, PartialEq, Eq, Structural)]
pub enum CacheError {
    /// The slab has no free block left.
    OutOfBlocks,
    /// The tokens are not whole blocks, or the data does not fit them.
    DataSizeMismatch,
}

/// What the cache is: its slab and its trie.
#[verifier::ext_equal]
pub struct CacheView {
    pub slab: SlabView,
    pub trie: TrieView,
}

/// The bytes of each slice.
pub open spec fn byte_views(data: Seq<&[u8]>) -> Seq<Seq<u8>> {
    Seq::new(data.len(), |i: int| data[i]@)
}

/// The slab after blocks are handed out for `data[i..]` and written, and their
/// numbers after those in `got`. Where a block or its data is wanting, every
/// block handed out is given back: first the one at hand, then those in `got`.
pub open spec fn fill(
    slab: SlabView,
    b: nat,
    data: Seq<Seq<u8>>,
    i: int,
    got: Seq<BlockId>,
) -> (SlabView, Result<Seq<BlockId>, CacheError>)
    decreases data.len() - i,
{
    if i < 0 || data.len() <= i {
        (slab, Ok(got))
    } else {
        match slab.next() {
            None => (slab.decref_all(got), Err(CacheError::OutOfBlocks)),
            Some(id) => if data[i].len() != b * slab.stride {
                (
                    slab.allocated().decref(id).decref_all(got),
                    Err(CacheError::DataSizeMismatch),
                )
            } else {
                fill(slab.allocated().commit(id, data[i]), b, data, i + 1, got.push(id))
            },
        }
    }
}

/// The blocks that storing returns.
pub open spec fn stored(result: Result<Vec<BlockId>, CacheError>) -> Result<
    Seq<BlockId>,
    CacheError,
> {
    match result {
        Ok(blocks) => Ok(blocks@),
        Err(e) => Err(e),
    }
}

/// The last `n` of the free blocks, in the order in which they are handed out.
pub open spec fn taken(free: Seq<BlockId>, n: nat) -> Seq<BlockId> {
    Seq::new(n, |j: int| free[free.len() - 1 - j])
}

/// The number of leading blocks that two lists have in common.
pub open spec fn shared_prefix(one: Seq<BlockId>, other: Seq<BlockId>) -> nat
    decreases one.len(),
{
    if one.len() == 0 || other.len() == 0 || one[0] != other[0] {
        0
    } else {
        1 + shared_prefix(one.skip(1), other.skip(1))
    }
}

impl CacheView {
    /// An empty cache.
    pub open spec fn fresh(b: nat, capacity: usize, stride: usize) -> CacheView {
        CacheView { slab: SlabView::fresh(b, capacity, stride), trie: TrieView::empty() }
    }

    /// Every node of the trie stands for a block of the slab.
    pub open spec fn wf(self, b: nat) -> bool {
        &&& self.slab.wf(b)
        &&& self.trie.wf()
        &&& forall|i: int|
            #![trigger self.trie.arena[i]]
            self.trie.live(i) ==> self.slab.has(self.trie.node(i).block_id)
    }

    /// `tokens` are whole blocks, and `data` holds one item for each.
    pub open spec fn fits(b: nat, tokens: Seq<TokenId>, data: Seq<Seq<u8>>) -> bool {
        tokens.len() % b == 0 && data.len() == tokens.len() / b
    }

    /// The slab blocks of the longest cached prefix of `tokens`.
    pub open spec fn found(self, b: nat, tokens: Seq<TokenId>, keys: Seq<u64>) -> Seq<BlockId> {
        self.trie.found(keys, tokens::blocks_of(tokens, b))
    }

    /// The cache after a lookup of `tokens`.
    pub open spec fn after_lookup(
        self,
        b: nat,
        tokens: Seq<TokenId>,
        keys: Seq<u64>,
    ) -> CacheView {
        CacheView { trie: self.trie.after_lookup(keys, tokens::blocks_of(tokens, b)), ..self }
    }

    /// The cache after an insertion of `tokens`, and whether it succeeds. Only the
    /// blocks that are not cached yet are written.
    pub open spec fn after_insert(
        self,
        b: nat,
        tokens: Seq<TokenId>,
        data: Seq<Seq<u8>>,
        keys: Seq<u64>,
    ) -> (CacheView, Result<(), CacheError>) {
        let blocks = tokens::blocks_of(tokens, b);
        let cached = self.trie.found(keys, blocks);
        let looked = self.trie.after_lookup(keys, blocks);
        if !Self::fits(b, tokens, data) {
            (self, Err(CacheError::DataSizeMismatch))
        } else {
            match fill(self.slab, b, data, cached.len() as int, Seq::empty()) {
                (slab, Ok(ids)) => (
                    CacheView { slab, trie: looked.after_insert(keys, blocks, cached + ids) },
                    Ok(()),
                ),
                (slab, Err(e)) => (CacheView { slab, trie: looked }, Err(e)),
            }
        }
    }

    /// The cache takes `data` for `tokens`: they fit, there is a free block for every
    /// block that is not cached, and its data has the size of a block.
    pub open spec fn takes(
        self,
        b: nat,
        tokens: Seq<TokenId>,
        data: Seq<Seq<u8>>,
        keys: Seq<u64>,
    ) -> bool {
        let k = self.found(b, tokens, keys).len() as int;
        &&& Self::fits(b, tokens, data)
        &&& data.len() - k <= self.slab.free.len()
        &&& forall|j: int| k <= j < data.len() ==> #[trigger] data[j].len() == b * self.slab.stride
    }

    /// `next` and `result` are what an insertion of `tokens` leads to, as far as can be
    /// told by lookups and the free blocks.
    ///
    /// It succeeds exactly if the cache takes the data. Then all of `tokens` are found:
    /// what was cached in the blocks it was in, the rest in blocks that were free and
    /// are not free any more, each its own if none was listed twice. Another sequence,
    /// whose keys do not collide, is found as before, or as far as it agrees with
    /// `tokens` if that is further. Where the insertion fails, every lookup finds what
    /// it found, and as many blocks are free.
    pub open spec fn inserted(
        self,
        b: nat,
        tokens: Seq<TokenId>,
        data: Seq<Seq<u8>>,
        keys: Seq<u64>,
        next: CacheView,
        result: Result<(), CacheError>,
    ) -> bool {
        let cached = self.found(b, tokens, keys);
        let wanted = data.len() - cached.len();
        let blocks = tokens::blocks_of(tokens, b);
        match result {
            Ok(_) => {
                &&& self.takes(b, tokens, data, keys)
                &&& next.found(b, tokens, keys) == cached + taken(self.slab.free, wanted as nat)
                &&& next.found(b, tokens, keys).len() == tokens::block_count(tokens, b)
                &&& next.slab.free == self.slab.free.take(self.slab.free.len() - wanted)
                &&& self.slab.free.no_duplicates() ==> taken(
                    self.slab.free,
                    wanted as nat,
                ).no_duplicates()
                &&& forall|other: Seq<TokenId>, other_keys: Seq<u64>|
                    #![trigger next.found(b, other, other_keys)]
                    other_keys.len() == tokens::block_count(other, b) && trie_laws::no_collision(
                        keys,
                        blocks,
                        other_keys,
                        tokens::blocks_of(other, b),
                    ) ==> {
                        let was = self.found(b, other, other_keys);
                        let m = trie_laws::agreement(
                            keys,
                            blocks,
                            other_keys,
                            tokens::blocks_of(other, b),
                            0,
                        );
                        next.found(b, other, other_keys) == if m <= was.len() {
                            was
                        } else {
                            next.found(b, tokens, keys).take(m as int)
                        }
                    }
            },
            Err(e) => {
                &&& !self.takes(b, tokens, data, keys)
                &&& !Self::fits(b, tokens, data) ==> e == CacheError::DataSizeMismatch
                &&& e == CacheError::OutOfBlocks ==> self.slab.free.len() < wanted
                &&& e == CacheError::DataSizeMismatch && Self::fits(b, tokens, data) ==> exists|
                    j: int,
                |
                    cached.len() <= j < data.len() && (#[trigger] data[j]).len() != b
                        * self.slab.stride
                &&& self.slab.free.no_duplicates() ==> next.slab.free.len()
                    == self.slab.free.len()
                &&& forall|other: Seq<TokenId>, other_keys: Seq<u64>|
                    #![trigger next.found(b, other, other_keys)]
                    next.found(b, other, other_keys) == self.found(b, other, other_keys)
            },
        }
    }

    /// Whether no counter stands in the way of a fork of `tokens`.
    pub open spec fn can_fork(self, b: nat, tokens: Seq<TokenId>, keys: Seq<u64>) -> bool {
        self.trie.can_fork(keys, tokens::blocks_of(tokens, b))
    }

    /// The cache after a fork of `tokens`.
    pub open spec fn after_fork(self, b: nat, tokens: Seq<TokenId>, keys: Seq<u64>) -> CacheView {
        CacheView {
            slab: self.slab.incref_all(self.found(b, tokens, keys)),
            trie: self.trie.after_fork(keys, tokens::blocks_of(tokens, b)),
        }
    }

    /// The cache after `ids` are released.
    pub open spec fn after_release(self, ids: Seq<BlockId>) -> CacheView {
        CacheView { slab: self.slab.decref_all(ids), trie: self.trie.released_all(ids) }
    }

    /// The cache with each of `ids` held and referenced once more.
    pub open spec fn after_retain(self, ids: Seq<BlockId>) -> CacheView {
        CacheView { slab: self.slab.incref_all(ids), trie: self.trie.retained_all(ids) }
    }

    /// Every node is the one on file for its slab block, which is referenced once
    /// more often than the node is held; the slab is sound, and every block in use
    /// can be read.
    pub open spec fn tidy(self) -> bool {
        &&& self.slab.sound()
        &&& forall|i: int|
            #![trigger self.slab.committed[i]]
            0 <= i < self.slab.capacity && self.slab.rc[i] > 0 ==> self.slab.committed[i]
        &&& ledger::counted(self.trie, self.slab.rc)
    }

    /// No block of the longest cached prefix of `tokens` is referenced as often as
    /// its counter can tell.
    pub open spec fn can_share(self, b: nat, tokens: Seq<TokenId>, keys: Seq<u64>) -> bool {
        forall|j: int|
            #![trigger self.found(b, tokens, keys)[j]]
            0 <= j < self.found(b, tokens, keys).len() ==> self.slab.rc[self.found(
                b,
                tokens,
                keys,
            )[j].0 as int] < u32::MAX
    }

    /// The cache after the owner of the blocks `owned` stores `tokens` in their place,
    /// and the blocks it owns then. Blocks that were cached for others are held and
    /// referenced once more, as a fork holds them; those at the beginning of `owned`
    /// that the owner keeps stay as they are, and the rest of `owned` is released.
    /// Where the insertion fails, the owner keeps what it has.
    pub open spec fn after_store(
        self,
        b: nat,
        tokens: Seq<TokenId>,
        data: Seq<Seq<u8>>,
        keys: Seq<u64>,
        owned: Seq<BlockId>,
    ) -> (CacheView, Result<Seq<BlockId>, CacheError>) {
        let cached = self.found(b, tokens, keys).len() as int;
        match self.after_insert(b, tokens, data, keys) {
            (filled, Ok(_)) => {
                let blocks = filled.found(b, tokens, keys);
                let kept = shared_prefix(blocks, owned) as int;
                let end = if kept < cached {
                    cached
                } else {
                    kept
                };
                (
                    filled.after_lookup(b, tokens, keys).after_retain(
                        blocks.subrange(kept, end),
                    ).after_release(owned.skip(kept)),
                    Ok(blocks),
                )
            },
            (filled, Err(e)) => (filled, Err(e)),
        }
    }

    /// The cache after the nodes in `slots` are evicted.
    pub open spec fn after_evict(self, slots: Seq<usize>) -> CacheView {
        CacheView {
            slab: self.slab.decref_all(self.trie.ids(slots)),
            trie: self.trie.without_all(slots),
        }
    }
}

/// The number of leading blocks that two lists have in common.
fn shared_blocks(one: &[BlockId], other: &[BlockId]) -> (n: usize)
    ensures
        n == shared_prefix(one@, other@),
{
    let mut n: usize = 0;
    assert(one@.skip(0) =~= one@);
    assert(other@.skip(0) =~= other@);
    while n < one.len() && n < other.len() && one[n].0 == other[n].0
        invariant
            n <= one.len(),
            n <= other.len(),
            shared_prefix(one@, other@) == n + shared_prefix(
                one@.skip(n as int),
                other@.skip(n as int),
            ),
        decreases one.len() - n,
    {
        assert(one@[n as int] == other@[n as int]);
        assert(one@.skip(n as int).skip(1) =~= one@.skip(n + 1));
        assert(other@.skip(n as int).skip(1) =~= other@.skip(n + 1));
        n = n + 1;
    }
    n
}

/// The key/value cache for blocks of `B` tokens.
pub struct KvCache<const B: usize> {
    slab: BlockSlab<B>,
    trie: DualRadixTrie<B>,
}

impl<const B: usize> View for KvCache<B> {
    type V = CacheView;

    closed spec fn view(&self) -> CacheView {
        CacheView { slab: self.slab@, trie: self.trie@ }
    }
}

impl<const B: usize> KvCache<B> {
    /// The bytes of all slab blocks are there.
    pub closed spec fn data_wf(&self) -> bool {
        self.slab.data_wf()
    }

    /// The cache is well formed.
    pub open spec fn wf(&self) -> bool {
        self@.wf(B as nat) && self.data_wf()
    }

    /// An empty cache with `capacity` blocks on the heap.
    pub fn new_heap(capacity: usize, element_stride: usize) -> (cache: Self)
        requires
            SlabView::fits_memory(B as nat, capacity, element_stride),
        ensures
            cache.wf(),
            cache@ == CacheView::fresh(B as nat, capacity, element_stride),
    {
        let cache = KvCache {
            slab: BlockSlab::new_heap(capacity, element_stride),
            trie: DualRadixTrie::new(),
        };
        cache
    }

    /// Finds the longest cached prefix of `tokens`, whose blocks have the keys
    /// `keys`, and marks it as used now.
    pub fn lookup_keyed(&mut self, tokens: &[TokenId], keys: &[u64]) -> (found: LookupResult)
        requires
            0 < B,
            old(self).wf(),
            keys@.len() == tokens::block_count(tokens@, B as nat),
        ensures
            final(self).wf(),
            final(self)@ == old(self)@.after_lookup(B as nat, tokens@, keys@),
            found.block_ids@ == old(self)@.found(B as nat, tokens@, keys@),
            found.matched_tokens == found.block_ids@.len() * B,
            found.matched_tokens <= tokens@.len(),
    {
        let found = self.trie.lookup_keyed(tokens, keys);
        proof {
            old(self)@.lemma_same_shape_wf(self@, B as nat);
        }
        found
    }

    /// Finds the longest cached prefix of `tokens` and marks it as used now.
    pub fn lookup(&mut self, tokens: &[TokenId]) -> (found: LookupResult)
        requires
            0 < B,
            old(self).wf(),
        ensures
            final(self).wf(),
            final(self)@ == old(self)@.after_lookup(
                B as nat,
                tokens@,
                tokens::keys_of(tokens@, B as nat),
            ),
            found.block_ids@ == old(self)@.found(
                B as nat,
                tokens@,
                tokens::keys_of(tokens@, B as nat),
            ),
            found.matched_tokens == found.block_ids@.len() * B,
            found.matched_tokens <= tokens@.len(),
    {
        let keys = tokens::block_keys::<B>(tokens);
        self.lookup_keyed(tokens, keys.as_slice())
    }

    /// Hands out and writes a slab block for each of `kv_data[skip..]`, or none.
    fn fill_blocks(&mut self, kv_data: &[&[u8]], skip: usize) -> (filled: Result<
        Vec<BlockId>,
        CacheError,
    >)
        requires
            old(self).wf(),
        ensures
            final(self).wf(),
            final(self)@.trie == old(self)@.trie,
            final(self)@.slab.capacity == old(self)@.slab.capacity,
            final(self)@.slab.stride == old(self)@.slab.stride,
            final(self)@.slab == fill(
                old(self)@.slab,
                B as nat,
                byte_views(kv_data@),
                skip as int,
                Seq::empty(),
            ).0,
            match filled {
                Ok(ids) => {
                    &&& fill(
                        old(self)@.slab,
                        B as nat,
                        byte_views(kv_data@),
                        skip as int,
                        Seq::empty(),
                    ).1 == Ok::<Seq<BlockId>, CacheError>(ids@)
                    &&& skip <= kv_data@.len() ==> ids@.len() == kv_data@.len() - skip
                    &&& forall|j: int| 0 <= j < ids@.len() ==> old(self)@.slab.has(#[trigger] ids@[j])
                },
                Err(e) => fill(
                    old(self)@.slab,
                    B as nat,
                    byte_views(kv_data@),
                    skip as int,
                    Seq::empty(),
                ).1 == Err::<Seq<BlockId>, CacheError>(e),
            },
    {
        let ghost data = byte_views(kv_data@);
        let mut ids: Vec<BlockId> = Vec::new();
        let mut i: usize = skip;
        while i < kv_data.len()
            invariant
                skip <= i,
                skip <= kv_data@.len() ==> i <= kv_data@.len(),
                ids@.len() == i - skip,
                data == byte_views(kv_data@),
                self.wf(),
                self@.trie == old(self)@.trie,
                self@.slab.capacity == old(self)@.slab.capacity,
                self@.slab.stride == old(self)@.slab.stride,
                forall|j: int| 0 <= j < ids@.len() ==> old(self)@.slab.has(#[trigger] ids@[j]),
                fill(self@.slab, B as nat, data, i as int, ids@) == fill(
                    old(self)@.slab,
                    B as nat,
                    data,
                    skip as int,
                    Seq::empty(),
                ),
            decreases kv_data.len() - i,
        {
            match self.slab.alloc_block() {
                Some(id) => {
                    let kv = kv_data[i];
                    if kv.len() != B * self.slab.element_stride() {
                        self.slab.decref(id);
                        self.slab.decref_all(ids.as_slice());
                        return Err(CacheError::DataSizeMismatch);
                    }
                    self.slab.commit_block(id, kv);
                    assert(kv@.take(kv@.len() as int) =~= kv@);
                    ids.push(id);
                },
                None => {
                    self.slab.decref_all(ids.as_slice());
                    return Err(CacheError::OutOfBlocks);
                },
            }
            i = i + 1;
        }
        Ok(ids)
    }

    /// Caches `kv_data` for `tokens`, whose blocks have the keys `keys`.
    pub fn insert_keyed(&mut self, tokens: &[TokenId], kv_data: &[&[u8]], keys: &[u64]) -> (result:
        Result<(), CacheError>)
        requires
            0 < B,
            old(self).wf(),
            keys@.len() == tokens::block_count(tokens@, B as nat),
        ensures
            final(self).wf(),
            (final(self)@, result) == old(self)@.after_insert(
                B as nat,
                tokens@,
                byte_views(kv_data@),
                keys@,
            ),
            old(self)@.inserted(
                B as nat,
                tokens@,
                byte_views(kv_data@),
                keys@,
                final(self)@,
                result,
            ),
            final(self)@.slab.capacity == old(self)@.slab.capacity,
            final(self)@.slab.stride == old(self)@.slab.stride,
    {
        let ghost data = byte_views(kv_data@);
        if tokens.len() % B != 0 || kv_data.len() != tokens.len() / B {
            proof {
                cache_laws::law_inserted(old(self)@, B as nat, tokens@, data, keys@);
            }
            return Err(CacheError::DataSizeMismatch);
        }
        let ghost blocks = tokens::blocks_of(tokens@, B as nat);
        let cached = self.lookup_keyed(tokens, keys);
        let mut ids: Vec<BlockId> = cached.block_ids;
        let skip: usize = ids.len();
        proof {
            old(self)@.trie.lemma_walk_levels(None, keys@, blocks, 0);
        }
        match self.fill_blocks(kv_data, skip) {
            Ok(fresh) => {
                let mut fresh = fresh;
                let ghost looked = self@;
                proof {
                    assert forall|j: int| 0 <= j < ids@.len() implies old(self)@.slab.has(
                        #[trigger] ids@[j],
                    ) by {
                        let path = old(self)@.trie.walk(keys@, blocks);
                        assert(old(self)@.trie.arena[path[j] as int] is Some);
                    }
                }
                let ghost both = ids@ + fresh@;
                ids.append(&mut fresh);
                self.trie.insert_keyed(tokens, ids.as_slice(), keys);
                proof {
                    trie_laws::lemma_insert_ids(
                        looked.trie,
                        keys@,
                        blocks,
                        both,
                        looked.slab.capacity,
                    );
                    cache_laws::law_inserted(old(self)@, B as nat, tokens@, data, keys@);
                }
                Ok(())
            },
            Err(e) => {
                proof {
                    cache_laws::law_inserted(old(self)@, B as nat, tokens@, data, keys@);
                }
                Err(e)
            },
        }
    }

    /// Caches `kv_data` for `tokens`: one run of bytes for each block, of which
    /// only those that are not cached yet are written.
    pub fn insert(&mut self, tokens: &[TokenId], kv_data: &[&[u8]]) -> (result: Result<
        (),
        CacheError,
    >)
        requires
            0 < B,
            old(self).wf(),
        ensures
            final(self).wf(),
            (final(self)@, result) == old(self)@.after_insert(
                B as nat,
                tokens@,
                byte_views(kv_data@),
                tokens::keys_of(tokens@, B as nat),
            ),
            old(self)@.inserted(
                B as nat,
                tokens@,
                byte_views(kv_data@),
                tokens::keys_of(tokens@, B as nat),
                final(self)@,
                result,
            ),
            final(self)@.slab.capacity == old(self)@.slab.capacity,
            final(self)@.slab.stride == old(self)@.slab.stride,
    {
        let keys = tokens::block_keys::<B>(tokens);
        self.insert_keyed(tokens, kv_data, keys.as_slice())
    }

    /// Forks `tokens`, whose blocks have the keys `keys`: the blocks of the longest
    /// cached prefix are held and referenced once more, and none is copied.
    pub fn fork_keyed(&mut self, tokens: &[TokenId], keys: &[u64]) -> (block_ids: Vec<BlockId>)
        requires
            0 < B,
            old(self).wf(),
            keys@.len() == tokens::block_count(tokens@, B as nat),
            old(self)@.can_fork(B as nat, tokens@, keys@),
        ensures
            final(self).wf(),
            final(self)@ == old(self)@.after_fork(B as nat, tokens@, keys@),
            block_ids@ == old(self)@.found(B as nat, tokens@, keys@),
            final(self)@.slab.capacity == old(self)@.slab.capacity,
            final(self)@.slab.stride == old(self)@.slab.stride,
    {
        let ids = self.trie.fork_keyed(tokens, keys);
        proof {
            old(self)@.lemma_same_shape_wf(self@, B as nat);
            old(self)@.lemma_found_has(B as nat, tokens@, keys@);
        }
        self.slab.incref_all(ids.as_slice());
        ids
    }

    /// Forks `tokens`: the blocks of the longest cached prefix are held and
    /// referenced once more, and none is copied.
    pub fn fork(&mut self, tokens: &[TokenId]) -> (block_ids: Vec<BlockId>)
        requires
            0 < B,
            old(self).wf(),
            old(self)@.can_fork(B as nat, tokens@, tokens::keys_of(tokens@, B as nat)),
        ensures
            final(self).wf(),
            final(self)@ == old(self)@.after_fork(
                B as nat,
                tokens@,
                tokens::keys_of(tokens@, B as nat),
            ),
            block_ids@ == old(self)@.found(
                B as nat,
                tokens@,
                tokens::keys_of(tokens@, B as nat),
            ),
            final(self)@.slab.capacity == old(self)@.slab.capacity,
            final(self)@.slab.stride == old(self)@.slab.stride,
    {
        let keys = tokens::block_keys::<B>(tokens);
        self.fork_keyed(tokens, keys.as_slice())
    }

    /// Evicts up to `target` blocks that nobody holds, longest unused first, and
    /// returns how many went.
    pub fn evict(&mut self, target: usize) -> (evicted: usize)
        requires
            old(self).wf(),
        ensures
            final(self).wf(),
            exists|order: Seq<usize>| #[trigger]
                old(self)@.trie.lru_order(order) && {
                    let k = if target <= order.len() {
                        target as int
                    } else {
                        order.len() as int
                    };
                    &&& evicted == k
                    &&& final(self)@ == old(self)@.after_evict(order.take(k))
                },
            final(self)@.slab.capacity == old(self)@.slab.capacity,
            final(self)@.slab.stride == old(self)@.slab.stride,
    {
        let ghost before = self@;
        let ids = self.trie.evict_lru(target);
        proof {
            let order = choose|order: Seq<usize>| #[trigger]
                before.trie.lru_order(order) && {
                    let k = if target <= order.len() {
                        target as int
                    } else {
                        order.len() as int
                    };
                    &&& ids@ == before.trie.ids(order.take(k))
                    &&& self.trie@ == before.trie.without_all(order.take(k))
                };
            let k = if target <= order.len() {
                target as int
            } else {
                order.len() as int
            };
            let gone = order.take(k);
            assert forall|j: int| 0 <= j < gone.len() implies before.trie.live(
                #[trigger] gone[j] as int,
            ) by {
                assert(order.contains(order[j]));
            }
            before.trie.lemma_without_all_wf(gone);
            assert forall|j: int| 0 <= j < ids@.len() implies before.slab.has(
                #[trigger] ids@[j],
            ) by {
                assert(before.trie.live(gone[j] as int));
                assert(before.trie.arena[gone[j] as int] is Some);
            }
            assert forall|i: int| self.trie@.live(i) implies before.slab.has(
                #[trigger] self.trie@.arena[i]->Some_0.block_id,
            ) by {
                assert(before.trie.live(i));
                assert(before.trie.arena[i] is Some);
                if gone.contains(i as usize) {
                    let j = choose|j: int| 0 <= j < gone.len() && gone[j] == i as usize;
                    assert(!self.trie@.live(gone[j] as int));
                }
            }
        }
        self.slab.decref_all(ids.as_slice());
        ids.len()
    }

    /// Releases `block_ids`: the trie holds each once less, and the slab references
    /// each once less, whether or not the trie knows it.
    pub fn release(&mut self, block_ids: &[BlockId])
        requires
            old(self).wf(),
            forall|j: int|
                0 <= j < block_ids@.len() ==> old(self)@.slab.has(#[trigger] block_ids@[j]),
        ensures
            final(self).wf(),
            final(self)@ == old(self)@.after_release(block_ids@),
            final(self)@.slab.capacity == old(self)@.slab.capacity,
            final(self)@.slab.stride == old(self)@.slab.stride,
    {
        self.trie.release(block_ids);
        proof {
            trie_laws::lemma_released_all(old(self)@.trie, block_ids@);
        }
        self.slab.decref_all(block_ids);
    }

    /// Holds and references each of `block_ids` once more, whether or not the trie
    /// knows it.
    pub fn retain(&mut self, block_ids: &[BlockId])
        requires
            old(self).wf(),
            block_ids@.no_duplicates(),
            old(self)@.trie.can_retain(block_ids@),
            forall|j: int|
                0 <= j < block_ids@.len() ==> old(self)@.slab.has(#[trigger] block_ids@[j]),
        ensures
            final(self).wf(),
            final(self)@ == old(self)@.after_retain(block_ids@),
            final(self)@.slab.capacity == old(self)@.slab.capacity,
            final(self)@.slab.stride == old(self)@.slab.stride,
    {
        proof {
            old(self)@.trie.lemma_retained_all(block_ids@);
        }
        self.trie.retain(block_ids);
        proof {
            old(self)@.lemma_same_shape_wf(self@, B as nat);
        }
        self.slab.incref_all(block_ids);
    }

    /// Stores `kv_data` for `tokens`, whose blocks have the keys `keys`, for the owner
    /// of the blocks `owned`, and returns the blocks it owns in their place.
    pub fn store_keyed(
        &mut self,
        tokens: &[TokenId],
        kv_data: &[&[u8]],
        keys: &[u64],
        owned: &[BlockId],
    ) -> (result: Result<Vec<BlockId>, CacheError>)
        requires
            0 < B,
            old(self).wf(),
            old(self)@.tidy(),
            keys@.len() == tokens::block_count(tokens@, B as nat),
            old(self)@.can_share(B as nat, tokens@, keys@),
            forall|j: int|
                #![trigger owned@[j]]
                0 <= j < owned@.len() ==> old(self)@.slab.has(owned@[j])
                    && old(self)@.slab.rc[owned@[j].0 as int] > 0,
        ensures
            final(self).wf(),
            (final(self)@, stored(result)) == old(self)@.after_store(
                B as nat,
                tokens@,
                byte_views(kv_data@),
                keys@,
                owned@,
            ),
            final(self)@.slab.capacity == old(self)@.slab.capacity,
            final(self)@.slab.stride == old(self)@.slab.stride,
    {
        let ghost start = self@;
        let ghost b = B as nat;
        let ghost data = byte_views(kv_data@);
        let cached: usize = self.trie.cached_blocks_keyed(tokens, keys);
        match self.insert_keyed(tokens, kv_data, keys) {
            Ok(_) => {},
            Err(e) => {
                return Err(e);
            },
        }
        let ghost filled = self@;
        proof {
            cache_laws::law_insert_then_lookup(start, b, tokens@, data, keys@);
            ledger::lemma_insert_tidy(start, b, tokens@, data, keys@);
            ledger::lemma_kept_cached(start, b, tokens@, data, keys@, owned@);
            ledger::lemma_found_list(start, b, tokens@, keys@);
            ledger::lemma_looked_tidy(filled, b, tokens@, keys@);
            ledger::lemma_shared_prefix(filled.found(b, tokens@, keys@), owned@);
        }
        let blocks = self.lookup_keyed(tokens, keys).block_ids;
        let kept: usize = shared_blocks(blocks.as_slice(), owned);
        let held = vstd::slice::slice_subrange(blocks.as_slice(), kept, cached);
        proof {
            let looked = self@;
            let before = start.found(b, tokens@, keys@);
            ledger::lemma_found_list(looked, b, tokens@, keys@);
            assert forall|j: int| 0 <= j < held@.len() implies looked.slab.has(#[trigger] held@[j])
                && looked.slab.rc[held@[j].0 as int] < u32::MAX by {
                let id = held@[j];
                let fresh = blocks@.skip(cached as int);
                assert(before =~= blocks@.subrange(0, cached as int));
                assert(start.found(b, tokens@, keys@)[kept + j] == id);
                assert(BlockId(id.0) == id);
                if fresh.contains(id) {
                    let h = choose|h: int| 0 <= h < fresh.len() && fresh[h] == id;
                    assert(start.slab.rc[fresh[h].0 as int] == 0);
                }
                assert(filled.slab.rc[id.0 as int] == start.slab.rc[id.0 as int]);
            }
            ledger::lemma_can_retain(looked, b, held@);
        }
        self.retain(held);
        let rest = vstd::slice::slice_subrange(owned, kept, owned.len());
        proof {
            assert(rest@ =~= owned@.skip(kept as int));
            assert forall|j: int| 0 <= j < rest@.len() implies self@.slab.has(#[trigger] rest@[j]) by {
                assert(rest@[j] == owned@[kept + j]);
            }
        }
        self.release(rest);
        Ok(blocks)
    }

    /// Whether no block of the longest cached prefix of `tokens` is referenced as
    /// often as its counter can tell.
    pub fn can_share(&self, tokens: &[TokenId]) -> (can: bool)
        requires
            0 < B,
            self.wf(),
        ensures
            can == self@.can_share(B as nat, tokens@, tokens::keys_of(tokens@, B as nat)),
    {
        let found = self.trie.peek(tokens);
        proof {
            self@.lemma_found_has(B as nat, tokens@, tokens::keys_of(tokens@, B as nat));
        }
        let mut j: usize = 0;
        while j < found.len()
            invariant
                j <= found.len(),
                self.wf(),
                found@ == self@.found(B as nat, tokens@, tokens::keys_of(tokens@, B as nat)),
                forall|k: int| 0 <= k < found@.len() ==> self@.slab.has(#[trigger] found@[k]),
                forall|k: int|
                    #![trigger found@[k]]
                    0 <= k < j ==> self@.slab.rc[found@[k].0 as int] < u32::MAX,
            decreases found.len() - j,
        {
            if self.slab.references(found[j]) == u32::MAX {
                return false;
            }
            j = j + 1;
        }
        true
    }

    /// The number of bytes per token.
    pub fn element_stride(&self) -> (stride: usize)
        ensures
            stride == self@.slab.stride,
    {
        self.slab.element_stride()
    }

    /// Whether no counter stands in the way of a fork of `tokens`.
    pub fn can_fork(&self, tokens: &[TokenId]) -> (can: bool)
        requires
            0 < B,
            self.wf(),
        ensures
            can == self@.can_fork(B as nat, tokens@, tokens::keys_of(tokens@, B as nat)),
    {
        self.trie.can_fork(tokens)
    }

    /// The number of free blocks.
    pub fn free_count(&self) -> (n: usize)
        ensures
            n == self@.slab.free.len(),
    {
        self.slab.free_count()
    }

    /// The number of blocks.
    pub fn capacity(&self) -> (n: usize)
        ensures
            n == self@.slab.capacity,
    {
        self.slab.capacity()
    }
}

impl CacheView {
    /// A change of the trie that keeps its shape keeps the cache well formed.
    pub proof fn lemma_same_shape_wf(self, other: CacheView, b: nat)
        requires
            self.wf(b),
            self.slab == other.slab,
            self.trie.same_shape(other.trie),
        ensures
            other.wf(b),
    {
        self.trie.lemma_same_shape_wf(other.trie);
        assert forall|i: int| other.trie.live(i) implies other.slab.has(
            #[trigger] other.trie.arena[i]->Some_0.block_id,
        ) by {
            assert(self.trie.live(i));
        }
    }

    /// A lookup finds blocks of the slab.
    pub proof fn lemma_found_has(self, b: nat, tokens: Seq<TokenId>, keys: Seq<u64>)
        requires
            self.wf(b),
        ensures
            forall|j: int|
                0 <= j < self.found(b, tokens, keys).len() ==> self.slab.has(
                    #[trigger] self.found(b, tokens, keys)[j],
                ),
            self.found(b, tokens, keys).len() <= tokens::block_count(tokens, b),
    {
        let blocks = tokens::blocks_of(tokens, b);
        let path = self.trie.walk(keys, blocks);
        self.trie.lemma_walk_levels(None, keys, blocks, 0);
        assert forall|j: int| 0 <= j < self.found(b, tokens, keys).len() implies self.slab.has(
            #[trigger] self.found(b, tokens, keys)[j],
        ) by {
            assert(self.trie.arena[path[j] as int] is Some);
        }
    }
}

} // verus!
