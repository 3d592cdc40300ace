//! The token trie: which token blocks are cached, and in which slab blocks.

use crate::kv::tokens;
use crate::kv::trie_model::{NodeView, TrieView};
use crate::kv::BlockId;
use crate::kv::TokenId;
use std::collections::HashMap;
use vstd::prelude::*;

verus! {

/// What a lookup found: the slab blocks of the longest cached prefix.
#[derive(Debug)]
pub struct LookupResult {
    pub matched_tokens: usize,
    pub block_ids: Vec<BlockId>,
}

struct TrieNode {
    block_id: BlockId,
    tokens: Vec<TokenId>,
    children: HashMap<u64, usize>,
    parent: Option<usize>,
    parent_key: u64,
    rc: u32,
    last_used: u64,
    depth: Ghost<nat>,
}

/// A trie over blocks of `B` tokens, with a reference count and a time of last
/// use on each node.
pub struct DualRadixTrie<const B: usize> {
    arena: Vec<Option<TrieNode>>,
    free_slots: Vec<usize>,
    root_children: HashMap<u64, usize>,
    clock: u64,
    block_to_node: HashMap<usize, usize>,
}

impl View for TrieNode {
    type V = NodeView;

    closed spec fn view(&self) -> NodeView {
        NodeView {
            block_id: self.block_id,
            tokens: self.tokens@,
            children: self.children@,
            parent: self.parent,
            parent_key: self.parent_key,
            rc: self.rc,
            last_used: self.last_used,
            depth: self.depth@,
        }
    }
}

impl<const B: usize> View for DualRadixTrie<B> {
    type V = TrieView;

    closed spec fn view(&self) -> TrieView {
        TrieView {
            arena: Seq::new(
                self.arena@.len(),
                |i: int|
                    match self.arena@[i] {
                        Some(n) => Some(n@),
                        None => None,
                    },
            ),
            free: self.free_slots@,
            root: self.root_children@,
            clock: self.clock,
            by_block: self.block_to_node@,
        }
    }
}

impl<const B: usize> DualRadixTrie<B> {
    /// The empty trie.
    pub fn new() -> (trie: Self)
        ensures
            trie@ == TrieView::empty(),
            trie@.wf(),
    {
        let trie = DualRadixTrie {
            arena: Vec::new(),
            free_slots: Vec::new(),
            root_children: HashMap::new(),
            clock: 0,
            block_to_node: HashMap::new(),
        };
        assert(trie@ =~= TrieView::empty());
        trie
    }

    /// The child of `parent` that holds `block`, looked for under `key`.
    fn find_child(&self, parent: Option<usize>, key: u64, block: &[TokenId]) -> (child: Option<
        usize,
    >)
        requires
            self@.wf(),
            self@.known(parent),
        ensures
            child == self@.step(parent, key, block@),
    {
        let found = match parent {
            Some(p) => match &self.arena[p] {
                Some(node) => node.children.get(&key),
                None => None,
            },
            None => self.root_children.get(&key),
        };
        match found {
            Some(c) => {
                let c: usize = *c;
                assert(self@.child(parent, key) == Some(c));
                match &self.arena[c] {
                    Some(node) => if tokens::same_tokens(node.tokens.as_slice(), block) {
                        Some(c)
                    } else {
                        None
                    },
                    None => None,
                }
            },
            None => None,
        }
    }

    /// The slots of the longest prefix of `tokens` that the trie holds.
    fn find_path(&self, tokens: &[TokenId], keys: &[u64]) -> (path: Vec<usize>)
        requires
            0 < B,
            self@.wf(),
            keys@.len() == tokens::block_count(tokens@, B as nat),
        ensures
            path@ == self@.walk(keys@, tokens::blocks_of(tokens@, B as nat)),
            path@.len() <= keys@.len(),
            forall|j: int|
                #![trigger path@[j]]
                0 <= j < path@.len() ==> self@.live(path@[j] as int),
    {
        let ghost blocks = tokens::blocks_of(tokens@, B as nat);
        let n: usize = keys.len();
        let mut path: Vec<usize> = Vec::new();
        let mut parent: Option<usize> = None;
        let mut i: usize = 0;
        assert(path@ + self@.walk_from(None, keys@, blocks, 0) =~= self@.walk(keys@, blocks));
        while i < n
            invariant
                0 < B,
                self@.wf(),
                n == keys@.len(),
                n == blocks.len(),
                n == tokens::block_count(tokens@, B as nat),
                blocks == tokens::blocks_of(tokens@, B as nat),
                i <= n,
                path@.len() == i,
                self@.known(parent),
                forall|j: int|
                    #![trigger path@[j]]
                    0 <= j < path@.len() ==> self@.live(path@[j] as int),
                self@.walk(keys@, blocks) == path@ + self@.walk_from(
                    parent,
                    keys@,
                    blocks,
                    i as int,
                ),
            decreases n - i,
        {
            let block = tokens::block_slice::<B>(tokens, i);
            match self.find_child(parent, keys[i], block) {
                Some(c) => {
                    let ghost before = path@;
                    path.push(c);
                    assert(self@.child(parent, keys@[i as int]) == Some(c));
                    assert(before + self@.walk_from(parent, keys@, blocks, i as int) =~= path@
                        + self@.walk_from(Some(c), keys@, blocks, i + 1));
                    parent = Some(c);
                    i = i + 1;
                },
                None => {
                    assert(self@.walk(keys@, blocks) =~= path@);
                    return path;
                },
            }
        }
        assert(self@.walk(keys@, blocks) =~= path@);
        path
    }

    /// Looks `tokens` up, whose blocks have the keys `keys`.
    ///
    /// The longest cached prefix is found, and its nodes are marked as used now.
    pub fn lookup_keyed(&mut self, tokens: &[TokenId], keys: &[u64]) -> (found: LookupResult)
        requires
            0 < B,
            old(self)@.wf(),
            keys@.len() == tokens::block_count(tokens@, B as nat),
        ensures
            final(self)@.wf(),
            final(self)@ == old(self)@.after_lookup(
                keys@,
                tokens::blocks_of(tokens@, B as nat),
            ),
            found.block_ids@ == old(self)@.found(keys@, tokens::blocks_of(tokens@, B as nat)),
            found.matched_tokens == found.block_ids@.len() * B,
            found.matched_tokens <= tokens@.len(),
    {
        let path = self.find_path(tokens, keys);
        self.clock = self.clock.wrapping_add(1);
        let clock: u64 = self.clock;
        let ghost start = old(self)@.ticked();
        let mut block_ids: Vec<BlockId> = Vec::new();
        let mut j: usize = 0;
        proof {
            assert(self@ =~= start);
            assert(self@ =~= start.touched(path@.take(0)));
            old(self)@.lemma_same_shape_wf(start);
        }
        while j < path.len()
            invariant
                j <= path.len(),
                clock == start.clock,
                start == old(self)@.ticked(),
                start.wf(),
                self@ =~= start.touched(path@.take(j as int)),
                block_ids@ =~= start.ids(path@.take(j as int)),
                forall|k: int|
                    #![trigger path@[k]]
                    0 <= k < path@.len() ==> start.live(path@[k] as int),
            decreases path.len() - j,
        {
            let slot: usize = path[j];
            let ghost prev = self@;
            assert(start.live(slot as int));
            assert(prev.arena.len() == start.arena.len());
            assert(prev.arena[slot as int] is Some);
            match &mut self.arena[slot] {
                Some(node) => {
                    node.last_used = clock;
                    block_ids.push(node.block_id);
                },
                None => {},
            }
            proof {
                lemma_take_contains(path@, j as int);
                let next = start.touched(path@.take(j + 1));
                assert forall|i: int| 0 <= i < start.arena.len() implies self@.arena[i]
                    == #[trigger] next.arena[i] by {
                    if i != slot {
                        assert(self@.arena[i] == prev.arena[i]);
                    }
                }
                assert(self@ =~= next);
            }
            j = j + 1;
        }
        assert(path@.take(j as int) =~= path@);
        proof {
            assert(start.same_shape(self@));
            start.lemma_same_shape_wf(self@);
        }
        let n: usize = path.len();
        let len: usize = tokens.len();
        assert(n * B <= len) by (nonlinear_arith)
            requires
                0 < B,
                n <= len / B,
        ;
        LookupResult { matched_tokens: n * B, block_ids }
    }

    /// Forks `tokens`, whose blocks have the keys `keys`: the longest cached
    /// prefix is found, and its nodes are held once more and marked as used now.
    pub fn fork_keyed(&mut self, tokens: &[TokenId], keys: &[u64]) -> (block_ids: Vec<BlockId>)
        requires
            0 < B,
            old(self)@.wf(),
            keys@.len() == tokens::block_count(tokens@, B as nat),
            old(self)@.can_fork(keys@, tokens::blocks_of(tokens@, B as nat)),
        ensures
            final(self)@.wf(),
            final(self)@ == old(self)@.after_fork(keys@, tokens::blocks_of(tokens@, B as nat)),
            block_ids@ == old(self)@.found(keys@, tokens::blocks_of(tokens@, B as nat)),
    {
        let path = self.find_path(tokens, keys);
        self.clock = self.clock.wrapping_add(1);
        let clock: u64 = self.clock;
        let ghost start = old(self)@.ticked();
        let mut block_ids: Vec<BlockId> = Vec::new();
        let mut j: usize = 0;
        proof {
            assert(self@ =~= start);
            assert(self@ =~= start.held(path@.take(0)));
            old(self)@.lemma_same_shape_wf(start);
            old(self)@.lemma_walk_distinct(keys@, tokens::blocks_of(tokens@, B as nat));
        }
        while j < path.len()
            invariant
                j <= path.len(),
                clock == start.clock,
                start == old(self)@.ticked(),
                start.wf(),
                path@.no_duplicates(),
                self@ =~= start.held(path@.take(j as int)),
                block_ids@ =~= start.ids(path@.take(j as int)),
                forall|k: int|
                    #![trigger path@[k]]
                    0 <= k < path@.len() ==> start.live(path@[k] as int) && start.node(
                        path@[k] as int,
                    ).rc < u32::MAX,
            decreases path.len() - j,
        {
            let slot: usize = path[j];
            let ghost prev = self@;
            assert(start.live(slot as int));
            assert(prev.arena.len() == start.arena.len());
            assert(!path@.take(j as int).contains(slot));
            assert(prev.arena[slot as int] == start.arena[slot as int]);
            match &mut self.arena[slot] {
                Some(node) => {
                    node.rc = node.rc + 1;
                    node.last_used = clock;
                    block_ids.push(node.block_id);
                },
                None => {},
            }
            proof {
                lemma_take_contains(path@, j as int);
                let next = start.held(path@.take(j + 1));
                assert forall|i: int| 0 <= i < start.arena.len() implies self@.arena[i]
                    == #[trigger] next.arena[i] by {
                    if i != slot {
                        assert(self@.arena[i] == prev.arena[i]);
                    }
                }
                assert(self@ =~= next);
            }
            j = j + 1;
        }
        assert(path@.take(j as int) =~= path@);
        proof {
            assert(start.same_shape(self@));
            start.lemma_same_shape_wf(self@);
        }
        block_ids
    }

    /// Adds a node for `block` under `parent`, in a free slot.
    fn add_node(&mut self, parent: Option<usize>, key: u64, block: &[TokenId], id: BlockId) -> (slot:
        usize)
        requires
            old(self)@.wf(),
            old(self)@.known(parent),
        ensures
            final(self)@.wf(),
            final(self)@ == old(self)@.add_node(parent, key, block@, id),
            slot == old(self)@.next_slot(),
            final(self)@.known(Some(slot)),
    {
        let ghost start = self@;
        let node = TrieNode {
            block_id: id,
            tokens: vstd::slice::slice_to_vec(block),
            children: HashMap::new(),
            parent,
            parent_key: key,
            rc: 0,
            last_used: self.clock,
            depth: Ghost(start.depth_of(parent) + 1),
        };
        let slot: usize = match self.free_slots.pop() {
            Some(s) => {
                assert(s == start.free.last());
                assert(start.arena[start.free[start.free.len() - 1] as int] is None);
                self.arena[s] = Some(node);
                s
            },
            None => {
                let s: usize = self.arena.len();
                self.arena.push(Some(node));
                s
            },
        };
        assert(self.arena.len() == self.arena@.len());
        match parent {
            Some(p) => {
                assert(p != slot);
                match &mut self.arena[p] {
                    Some(n) => {
                        n.children.insert(key, slot);
                    },
                    None => {},
                }
            },
            None => {
                self.root_children.insert(key, slot);
            },
        }
        self.block_to_node.insert(id.0, slot);
        proof {
            start.lemma_add_node_wf(parent, key, block@, id);
            assert(self@ =~= start.add_node(parent, key, block@, id));
        }
        slot
    }

    /// Inserts `tokens`, whose blocks have the keys `keys`, standing for the slab
    /// blocks `block_ids`.
    ///
    /// Blocks that are cached already keep the slab blocks they have. Where a key
    /// is taken by other tokens, the new block takes it over.
    pub fn insert_keyed(&mut self, tokens: &[TokenId], block_ids: &[BlockId], keys: &[u64])
        requires
            0 < B,
            old(self)@.wf(),
            tokens@.len() % (B as nat) == 0,
            tokens@.len() / (B as nat) == block_ids@.len(),
            keys@.len() == tokens::block_count(tokens@, B as nat),
        ensures
            final(self)@.wf(),
            final(self)@ == old(self)@.after_insert(
                keys@,
                tokens::blocks_of(tokens@, B as nat),
                block_ids@,
            ),
    {
        let ghost blocks = tokens::blocks_of(tokens@, B as nat);
        let path = self.find_path(tokens, keys);
        self.clock = self.clock.wrapping_add(1);
        let ghost start = old(self)@.ticked();
        assert(self@ =~= start);
        proof {
            old(self)@.lemma_same_shape_wf(start);
        }
        let n: usize = keys.len();
        let mut i: usize = path.len();
        let mut parent: Option<usize> = if i > 0 {
            Some(path[i - 1])
        } else {
            None
        };
        while i < n
            invariant
                0 < B,
                i <= n,
                n == keys@.len(),
                n == block_ids@.len(),
                n == tokens::block_count(tokens@, B as nat),
                blocks == tokens::blocks_of(tokens@, B as nat),
                self@.wf(),
                self@.known(parent),
                self@.add_chain(parent, keys@, blocks, block_ids@, i as int)
                    == old(self)@.after_insert(keys@, blocks, block_ids@),
            decreases n - i,
        {
            let block = tokens::block_slice::<B>(tokens, i);
            let slot: usize = self.add_node(parent, keys[i], block, block_ids[i]);
            parent = Some(slot);
            i = i + 1;
        }
    }

    /// Looks `tokens` up: finds the longest cached prefix of whole blocks and
    /// marks its nodes as used now.
    pub fn lookup(&mut self, tokens: &[TokenId]) -> (found: LookupResult)
        requires
            0 < B,
            old(self)@.wf(),
        ensures
            final(self)@.wf(),
            final(self)@ == old(self)@.after_lookup(
                tokens::keys_of(tokens@, B as nat),
                tokens::blocks_of(tokens@, B as nat),
            ),
            found.block_ids@ == old(self)@.found(
                tokens::keys_of(tokens@, B as nat),
                tokens::blocks_of(tokens@, B as nat),
            ),
            found.matched_tokens == found.block_ids@.len() * B,
            found.matched_tokens <= tokens@.len(),
    {
        let keys = tokens::block_keys::<B>(tokens);
        self.lookup_keyed(tokens, keys.as_slice())
    }

    /// Inserts `tokens`, whole blocks of them, standing for the slab blocks
    /// `block_ids`.
    pub fn insert(&mut self, tokens: &[TokenId], block_ids: &[BlockId])
        requires
            0 < B,
            old(self)@.wf(),
            tokens@.len() % (B as nat) == 0,
            tokens@.len() / (B as nat) == block_ids@.len(),
        ensures
            final(self)@.wf(),
            final(self)@ == old(self)@.after_insert(
                tokens::keys_of(tokens@, B as nat),
                tokens::blocks_of(tokens@, B as nat),
                block_ids@,
            ),
    {
        let keys = tokens::block_keys::<B>(tokens);
        self.insert_keyed(tokens, block_ids, keys.as_slice());
    }

    /// Forks `tokens`: the longest cached prefix of whole blocks is found, and
    /// its nodes are held once more and marked as used now.
    pub fn fork(&mut self, tokens: &[TokenId]) -> (block_ids: Vec<BlockId>)
        requires
            0 < B,
            old(self)@.wf(),
            old(self)@.can_fork(
                tokens::keys_of(tokens@, B as nat),
                tokens::blocks_of(tokens@, B as nat),
            ),
        ensures
            final(self)@.wf(),
            final(self)@ == old(self)@.after_fork(
                tokens::keys_of(tokens@, B as nat),
                tokens::blocks_of(tokens@, B as nat),
            ),
            block_ids@ == old(self)@.found(
                tokens::keys_of(tokens@, B as nat),
                tokens::blocks_of(tokens@, B as nat),
            ),
    {
        let keys = tokens::block_keys::<B>(tokens);
        self.fork_keyed(tokens, keys.as_slice())
    }

    /// The number of blocks of the longest cached prefix of `tokens`, whose blocks
    /// have the keys `keys`.
    pub fn cached_blocks_keyed(&self, tokens: &[TokenId], keys: &[u64]) -> (n: usize)
        requires
            0 < B,
            self@.wf(),
            keys@.len() == tokens::block_count(tokens@, B as nat),
        ensures
            n == self@.found(keys@, tokens::blocks_of(tokens@, B as nat)).len(),
    {
        self.find_path(tokens, keys).len()
    }

    /// The slab blocks of the longest cached prefix of `tokens`. Nothing is marked as
    /// used.
    pub fn peek(&self, tokens: &[TokenId]) -> (block_ids: Vec<BlockId>)
        requires
            0 < B,
            self@.wf(),
        ensures
            block_ids@ == self@.found(
                tokens::keys_of(tokens@, B as nat),
                tokens::blocks_of(tokens@, B as nat),
            ),
    {
        let keys = tokens::block_keys::<B>(tokens);
        let path = self.find_path(tokens, keys.as_slice());
        let mut ids: Vec<BlockId> = Vec::new();
        let mut j: usize = 0;
        while j < path.len()
            invariant
                j <= path.len(),
                ids@ =~= self@.ids(path@.take(j as int)),
                forall|k: int|
                    #![trigger path@[k]]
                    0 <= k < path@.len() ==> self@.live(path@[k] as int),
            decreases path.len() - j,
        {
            let slot: usize = path[j];
            assert(self@.live(slot as int));
            match &self.arena[slot] {
                Some(node) => {
                    ids.push(node.block_id);
                },
                None => {},
            }
            j = j + 1;
        }
        assert(path@.take(j as int) =~= path@);
        ids
    }

    /// Holds the node on file for slab block `id` once more, if there is one.
    fn retain_one(&mut self, id: BlockId)
        requires
            old(self)@.wf(),
            old(self)@.can_retain(seq![id]),
        ensures
            final(self)@ == old(self)@.retained(id),
    {
        let ghost start = self@;
        match self.block_to_node.get(&id.0) {
            Some(s) => {
                let slot: usize = *s;
                assert(start.by_block[id.0] == slot);
                assert(seq![id][0] == id);
                match &mut self.arena[slot] {
                    Some(node) => {
                        node.rc = node.rc + 1;
                    },
                    None => {},
                }
                assert(self@ =~= start.retained(id));
            },
            None => {},
        }
    }

    /// Holds the nodes on file for `block_ids` once more. Blocks that the trie does
    /// not know are passed over.
    pub fn retain(&mut self, block_ids: &[BlockId])
        requires
            old(self)@.wf(),
            block_ids@.no_duplicates(),
            old(self)@.can_retain(block_ids@),
        ensures
            final(self)@.wf(),
            final(self)@ == old(self)@.retained_all(block_ids@),
    {
        let ghost start = self@;
        let mut j: usize = 0;
        while j < block_ids.len()
            invariant
                j <= block_ids.len(),
                start.wf(),
                block_ids@.no_duplicates(),
                start.can_retain(block_ids@),
                self@.wf(),
                self@ == start.retained_all(block_ids@.take(j as int)),
            decreases block_ids.len() - j,
        {
            let id = block_ids[j];
            proof {
                let front = block_ids@.take(j as int);
                assert forall|k: int|
                    0 <= k < front.len() && start.by_block.contains_key(
                        #[trigger] front[k].0,
                    ) implies start.node(start.by_block[front[k].0] as int).rc < u32::MAX by {
                    assert(front[k] == block_ids@[k]);
                }
                start.lemma_retained_all(front);
                if start.by_block.contains_key(id.0) {
                    let x = start.by_block[id.0] as int;
                    assert(start.live(x));
                    assert(self@.arena[x] is Some);
                    assert(start.node(x).block_id == id);
                    assert(!front.contains(id));
                }
                assert(self@.can_retain(seq![id]));
                let more = block_ids@.take(j + 1);
                assert(more.drop_last() =~= front);
                assert forall|k: int|
                    0 <= k < more.len() && start.by_block.contains_key(
                        #[trigger] more[k].0,
                    ) implies start.node(start.by_block[more[k].0] as int).rc < u32::MAX by {
                    assert(more[k] == block_ids@[k]);
                }
                start.lemma_retained_all(more);
            }
            self.retain_one(id);
            j = j + 1;
        }
        assert(block_ids@.take(j as int) =~= block_ids@);
    }

    /// Whether no counter stands in the way of a fork of `tokens`.
    pub fn can_fork(&self, tokens: &[TokenId]) -> (can: bool)
        requires
            0 < B,
            self@.wf(),
        ensures
            can == self@.can_fork(
                tokens::keys_of(tokens@, B as nat),
                tokens::blocks_of(tokens@, B as nat),
            ),
    {
        let keys = tokens::block_keys::<B>(tokens);
        let path = self.find_path(tokens, keys.as_slice());
        let mut j: usize = 0;
        while j < path.len()
            invariant
                j <= path.len(),
                forall|k: int|
                    #![trigger path@[k]]
                    0 <= k < path@.len() ==> self@.live(path@[k] as int),
                forall|k: int|
                    #![trigger path@[k]]
                    0 <= k < j ==> self@.node(path@[k] as int).rc < u32::MAX,
                path@ == self@.walk(
                    tokens::keys_of(tokens@, B as nat),
                    tokens::blocks_of(tokens@, B as nat),
                ),
            decreases path.len() - j,
        {
            let slot: usize = path[j];
            assert(self@.live(slot as int));
            let full = match &self.arena[slot] {
                Some(node) => node.rc == u32::MAX,
                None => false,
            };
            if full {
                return false;
            }
            j = j + 1;
        }
        true
    }

    /// Takes the node in `slot` out of the trie.
    fn remove_node(&mut self, slot: usize)
        requires
            old(self)@.wf(),
            old(self)@.live(slot as int),
        ensures
            final(self)@.wf(),
            final(self)@ == old(self)@.without(slot as int),
    {
        let ghost start = self@;
        proof {
            start.lemma_without_wf(slot as int);
        }
        let taken = self.arena[slot].take();
        match taken {
            Some(node) => {
                assert(node@ == start.node(slot as int));
                let key: u64 = node.parent_key;
                match node.parent {
                    Some(p) => {
                        assert(start.arena[slot as int]->Some_0.parent == Some(p));
                        assert(start.linked(slot as int) ==> start.child(Some(p), key) == Some(
                            slot,
                        ));
                        match &mut self.arena[p] {
                            Some(parent) => {
                                let is_child = match parent.children.get(&key) {
                                    Some(c) => *c == slot,
                                    None => false,
                                };
                                if is_child {
                                    parent.children.remove(&key);
                                }
                            },
                            None => {},
                        }
                    },
                    None => {
                        let is_child = match self.root_children.get(&key) {
                            Some(c) => *c == slot,
                            None => false,
                        };
                        if is_child {
                            self.root_children.remove(&key);
                        }
                    },
                }
                self.free_slots.push(slot);
                self.block_to_node.remove(&node.block_id.0);
            },
            None => {},
        }
        assert(self@ =~= start.without(slot as int));
    }

    /// Whether `slot` holds a leaf that nobody holds.
    fn is_evictable(&self, slot: usize) -> (evictable: bool)
        requires
            slot < self@.arena.len(),
        ensures
            evictable == self@.evictable(slot as int),
    {
        match &self.arena[slot] {
            Some(node) => {
                assert(self@.node(slot as int).children.dom() =~= node.children@.dom());
                node.rc == 0 && node.children.is_empty()
            },
            None => false,
        }
    }

    /// Releases slab block `id`: its node is held once less, and leaves the trie
    /// if it is then a leaf that nobody holds.
    fn release_one(&mut self, id: BlockId)
        requires
            old(self)@.wf(),
        ensures
            final(self)@.wf(),
            final(self)@ == old(self)@.released(id),
    {
        let ghost start = self@;
        match self.block_to_node.get(&id.0) {
            Some(s) => {
                let slot: usize = *s;
                assert(start.by_block[id.0] == slot);
                match &mut self.arena[slot] {
                    Some(node) => {
                        if node.rc > 0 {
                            node.rc = node.rc - 1;
                        }
                    },
                    None => {},
                }
                proof {
                    start.lemma_unheld_wf(slot as int);
                    assert(self@ =~= start.unheld(slot as int));
                }
                if self.is_evictable(slot) {
                    self.remove_node(slot);
                }
            },
            None => {},
        }
    }

    /// Releases `block_ids`, from the last to the first. Blocks that the trie does
    /// not know are passed over.
    pub fn release(&mut self, block_ids: &[BlockId])
        requires
            old(self)@.wf(),
        ensures
            final(self)@.wf(),
            final(self)@ == old(self)@.released_all(block_ids@),
    {
        let mut i: usize = block_ids.len();
        assert(block_ids@.take(i as int) =~= block_ids@);
        while i > 0
            invariant
                i <= block_ids.len(),
                self@.wf(),
                self@.released_all(block_ids@.take(i as int)) == old(self)@.released_all(
                    block_ids@,
                ),
            decreases i,
        {
            i = i - 1;
            assert(block_ids@.take(i + 1).drop_last() =~= block_ids@.take(i as int));
            self.release_one(block_ids[i]);
        }
    }

    /// When the node in `slot` was last used.
    fn last_used(&self, slot: usize) -> (stamp: u64)
        requires
            self@.live(slot as int),
        ensures
            stamp == self@.node(slot as int).last_used,
    {
        match &self.arena[slot] {
            Some(node) => node.last_used,
            None => 0,
        }
    }

    /// The evictable slots, longest unused first.
    fn eviction_order(&self) -> (order: Vec<usize>)
        requires
            self@.wf(),
        ensures
            self@.lru_order(order@),
    {
        let mut order: Vec<usize> = Vec::new();
        let n: usize = self.arena.len();
        let mut i: usize = 0;
        while i < n
            invariant
                n == self@.arena.len(),
                i <= n,
                order@.no_duplicates(),
                forall|s: usize| #[trigger]
                    order@.contains(s) <==> s < i && self@.evictable(s as int),
                forall|a: int, b: int|
                    0 <= a <= b < order@.len() ==> self@.node(
                        #[trigger] order@[a] as int,
                    ).last_used <= self@.node(#[trigger] order@[b] as int).last_used,
            decreases n - i,
        {
            if self.is_evictable(i) {
                let stamp: u64 = self.last_used(i);
                let mut at: usize = 0;
                let mut scanning = true;
                while scanning && at < order.len()
                    invariant
                        at <= order.len(),
                        forall|s: usize| #[trigger]
                            order@.contains(s) <==> s < i && self@.evictable(s as int),
                        forall|a: int|
                            0 <= a < at ==> self@.node(#[trigger] order@[a] as int).last_used
                                <= stamp,
                        !scanning ==> at < order.len() && stamp < self@.node(
                            order@[at as int] as int,
                        ).last_used,
                    decreases order.len() - at, if scanning {
                        1int
                    } else {
                        0
                    },
                {
                    let s: usize = order[at];
                    assert(order@.contains(s));
                    if self.last_used(s) <= stamp {
                        at = at + 1;
                    } else {
                        scanning = false;
                    }
                }
                let ghost before = order@;
                order.insert(at, i);
                proof {
                    lemma_insert_contains(before, at as int, i);
                    assert(!before.contains(i));
                    assert forall|a: int, b: int| 0 <= a <= b < order@.len() implies self@.node(
                        #[trigger] order@[a] as int,
                    ).last_used <= self@.node(#[trigger] order@[b] as int).last_used by {
                        if a < at {
                            assert(order@[a] == before[a]);
                        } else if a > at {
                            assert(order@[a] == before[a - 1]);
                        }
                        if b < at {
                            assert(order@[b] == before[b]);
                        } else if b > at {
                            assert(order@[b] == before[b - 1]);
                        }
                    }
                }
            }
            i = i + 1;
        }
        order
    }

    /// Evicts up to `target` leaves that nobody holds, longest unused first, and
    /// returns the slab blocks they stood for.
    pub fn evict_lru(&mut self, target: usize) -> (evicted: Vec<BlockId>)
        requires
            old(self)@.wf(),
        ensures
            final(self)@.wf(),
            exists|order: Seq<usize>| #[trigger]
                old(self)@.lru_order(order) && {
                    let k = if target <= order.len() {
                        target as int
                    } else {
                        order.len() as int
                    };
                    &&& evicted@ == old(self)@.ids(order.take(k))
                    &&& final(self)@ == old(self)@.without_all(order.take(k))
                },
    {
        let order = self.eviction_order();
        let ghost start = self@;
        let n: usize = if target <= order.len() {
            target
        } else {
            order.len()
        };
        let mut evicted: Vec<BlockId> = Vec::new();
        let mut j: usize = 0;
        assert(self@ =~= start.without_all(order@.take(0)));
        while j < n
            invariant
                j <= n <= order@.len(),
                start.wf(),
                start.lru_order(order@),
                self@.wf(),
                self@ == start.without_all(order@.take(j as int)),
                evicted@ =~= start.ids(order@.take(j as int)),
            decreases n - j,
        {
            let slot: usize = order[j];
            proof {
                assert(order@.contains(slot));
                let front = order@.take(j as int);
                assert forall|k: int| 0 <= k < front.len() implies start.live(
                    #[trigger] front[k] as int,
                ) by {
                    assert(order@.contains(order@[k]));
                }
                start.lemma_without_all_wf(front);
                assert(!front.contains(slot));
                assert(self@.arena[slot as int] is Some);
                assert(order@.take(j + 1).drop_last() =~= front);
                assert(order@.take(j + 1).last() == slot);
            }
            match &self.arena[slot] {
                Some(node) => {
                    evicted.push(node.block_id);
                },
                None => {},
            }
            self.remove_node(slot);
            j = j + 1;
        }
        evicted
    }
}

impl<const B: usize> Default for DualRadixTrie<B> {
    fn default() -> (trie: Self)
        ensures
            trie@ == TrieView::empty(),
            trie@.wf(),
    {
        Self::new()
    }
}

/// The elements of a sequence after an insertion.
proof fn lemma_insert_contains(before: Seq<usize>, at: int, x: usize)
    requires
        0 <= at <= before.len(),
    ensures
        forall|s: usize|
            #![trigger before.insert(at, x).contains(s)]
            before.insert(at, x).contains(s) <==> before.contains(s) || s == x,
{
    let after = before.insert(at, x);
    assert forall|s: usize| before.contains(s) || s == x implies #[trigger] after.contains(s) by {
        if s == x {
            assert(after[at] == x);
        } else {
            let k = choose|k: int| 0 <= k < before.len() && before[k] == s;
            if k < at {
                assert(after[k] == s);
            } else {
                assert(after[k + 1] == s);
            }
        }
    }
    assert forall|s: usize| #[trigger] after.contains(s) implies before.contains(s) || s == x by {
        let k = choose|k: int| 0 <= k < after.len() && after[k] == s;
        if k < at {
            assert(before[k] == s);
        } else if k > at {
            assert(before[k - 1] == s);
        }
    }
}

/// The elements of a longer prefix.
proof fn lemma_take_contains(path: Seq<usize>, j: int)
    requires
        0 <= j < path.len(),
    ensures
        forall|x: usize|
            #![trigger path.take(j + 1).contains(x)]
            path.take(j + 1).contains(x) <==> path.take(j).contains(x) || x == path[j],
{
    assert(path.take(j + 1) =~= path.take(j).push(path[j]));
    assert forall|x: usize| path.take(j).contains(x) || x == path[j] implies #[trigger] path.take(
        j + 1,
    ).contains(x) by {
        if x == path[j] {
            assert(path.take(j + 1)[j] == x);
        } else {
            let k = choose|k: int| 0 <= k < j && path.take(j)[k] == x;
            assert(path.take(j + 1)[k] == x);
        }
    }
}

} // verus!
