//! What a block trie is: a forest of token blocks kept in numbered slots.
//!
//! A node is filed under its parent by the key of its tokens. Keys are digests
//! and may collide, so a descent follows a key only where the tokens agree, and
//! a node whose key is taken over by another block stays in its slot without
//! being reachable from the root any more.

use crate::kv::BlockId;
use crate::kv::TokenId;
use vstd::prelude::*;

verus! {

/// One node: the block of the slab it stands for, and its place in the forest.
#[verifier::ext_equal]
pub struct NodeView {
    pub block_id: BlockId,
    pub tokens: Seq<TokenId>,
    pub children: Map<u64, usize>,
    pub parent: Option<usize>,
    pub parent_key: u64,
    pub rc: u32,
    pub last_used: u64,
    pub depth: nat,
}

/// The whole trie.
#[verifier::ext_equal]
pub struct TrieView {
    pub arena: Seq<Option<NodeView>>,
    pub free: Seq<usize>,
    pub root: Map<u64, usize>,
    pub clock: u64,
    pub by_block: Map<usize, usize>,
}

/// The clock reading after `clock`; the clock starts over at zero.
pub open spec fn next_tick(clock: u64) -> u64 {
    if clock == u64::MAX {
        0
    } else {
        (clock + 1) as u64
    }
}

impl TrieView {
    /// The trie without nodes.
    pub open spec fn empty() -> TrieView {
        TrieView {
            arena: Seq::empty(),
            free: Seq::empty(),
            root: Map::empty(),
            clock: 0,
            by_block: Map::empty(),
        }
    }

    /// Slot `i` holds a node.
    pub open spec fn live(self, i: int) -> bool {
        0 <= i < self.arena.len() && self.arena[i] is Some
    }

    /// The node in slot `i`.
    pub open spec fn node(self, i: int) -> NodeView {
        self.arena[i]->Some_0
    }

    /// `p` stands for the root or for a node of the trie.
    pub open spec fn known(self, p: Option<usize>) -> bool {
        match p {
            Some(i) => self.live(i as int),
            None => true,
        }
    }

    /// Distance of `p` from the root.
    pub open spec fn depth_of(self, p: Option<usize>) -> nat {
        match p {
            Some(i) => self.node(i as int).depth,
            None => 0,
        }
    }

    /// The children of `p` by key.
    pub open spec fn children_of(self, p: Option<usize>) -> Map<u64, usize> {
        match p {
            Some(i) => self.node(i as int).children,
            None => self.root,
        }
    }

    /// The child of `p` filed under `key`.
    pub open spec fn child(self, p: Option<usize>, key: u64) -> Option<usize> {
        if self.children_of(p).contains_key(key) {
            Some(self.children_of(p)[key])
        } else {
            None
        }
    }

    /// The child of `p` that holds `block`, looked for under `key`.
    pub open spec fn step(self, p: Option<usize>, key: u64, block: Seq<TokenId>) -> Option<usize> {
        match self.child(p, key) {
            Some(c) => if self.node(c as int).tokens == block {
                Some(c)
            } else {
                None
            },
            None => None,
        }
    }

    /// The slots met on the way down from `p` along `blocks[i..]`, as far as
    /// the trie holds them.
    pub open spec fn walk_from(
        self,
        p: Option<usize>,
        keys: Seq<u64>,
        blocks: Seq<Seq<TokenId>>,
        i: int,
    ) -> Seq<usize>
        decreases blocks.len() - i,
    {
        if i < 0 || blocks.len() <= i {
            Seq::empty()
        } else {
            match self.step(p, keys[i], blocks[i]) {
                Some(c) => seq![c] + self.walk_from(Some(c), keys, blocks, i + 1),
                None => Seq::empty(),
            }
        }
    }

    /// The slots of the longest prefix of `blocks` that the trie holds.
    pub open spec fn walk(self, keys: Seq<u64>, blocks: Seq<Seq<TokenId>>) -> Seq<usize> {
        self.walk_from(None, keys, blocks, 0)
    }

    /// The slab blocks that the nodes of a path stand for.
    pub open spec fn ids(self, path: Seq<usize>) -> Seq<BlockId> {
        Seq::new(path.len(), |j: int| self.node(path[j] as int).block_id)
    }

    /// The slab blocks of the longest prefix of `blocks` that the trie holds.
    pub open spec fn found(self, keys: Seq<u64>, blocks: Seq<Seq<TokenId>>) -> Seq<BlockId> {
        self.ids(self.walk(keys, blocks))
    }

    /// The trie with its clock advanced.
    pub open spec fn ticked(self) -> TrieView {
        TrieView { clock: next_tick(self.clock), ..self }
    }

    /// The trie with the nodes of `path` marked as used now.
    pub open spec fn touched(self, path: Seq<usize>) -> TrieView {
        TrieView {
            arena: Seq::new(
                self.arena.len(),
                |i: int|
                    if self.arena[i] is Some && path.contains(i as usize) {
                        Some(NodeView { last_used: self.clock, ..self.node(i) })
                    } else {
                        self.arena[i]
                    },
            ),
            ..self
        }
    }

    /// The trie with the nodes of `path` marked as used now and held once more.
    pub open spec fn held(self, path: Seq<usize>) -> TrieView {
        TrieView {
            arena: Seq::new(
                self.arena.len(),
                |i: int|
                    if self.arena[i] is Some && path.contains(i as usize) {
                        Some(
                            NodeView {
                                last_used: self.clock,
                                rc: (self.node(i).rc + 1) as u32,
                                ..self.node(i)
                            },
                        )
                    } else {
                        self.arena[i]
                    },
            ),
            ..self
        }
    }

    /// The trie after a lookup of `blocks`.
    pub open spec fn after_lookup(self, keys: Seq<u64>, blocks: Seq<Seq<TokenId>>) -> TrieView {
        self.ticked().touched(self.walk(keys, blocks))
    }

    /// The trie after a fork of `blocks`.
    pub open spec fn after_fork(self, keys: Seq<u64>, blocks: Seq<Seq<TokenId>>) -> TrieView {
        self.ticked().held(self.walk(keys, blocks))
    }

    /// No node on the longest held prefix of `blocks` is held as often as its
    /// counter can tell.
    pub open spec fn can_fork(self, keys: Seq<u64>, blocks: Seq<Seq<TokenId>>) -> bool {
        forall|j: int|
            0 <= j < self.walk(keys, blocks).len() ==> self.node(
                #[trigger] self.walk(keys, blocks)[j] as int,
            ).rc < u32::MAX
    }

    /// The slot that the next new node takes.
    pub open spec fn next_slot(self) -> usize {
        if self.free.len() > 0 {
            self.free.last()
        } else {
            self.arena.len() as usize
        }
    }

    /// The trie with a new node for `block` under `p`.
    pub open spec fn add_node(
        self,
        p: Option<usize>,
        key: u64,
        block: Seq<TokenId>,
        id: BlockId,
    ) -> TrieView {
        let slot = self.next_slot();
        let fresh = NodeView {
            block_id: id,
            tokens: block,
            children: Map::empty(),
            parent: p,
            parent_key: key,
            rc: 0,
            last_used: self.clock,
            depth: self.depth_of(p) + 1,
        };
        let placed = if self.free.len() > 0 {
            self.arena.update(slot as int, Some(fresh))
        } else {
            self.arena.push(Some(fresh))
        };
        TrieView {
            arena: match p {
                Some(q) => placed.update(
                    q as int,
                    Some(
                        NodeView {
                            children: self.node(q as int).children.insert(key, slot),
                            ..self.node(q as int)
                        },
                    ),
                ),
                None => placed,
            },
            free: if self.free.len() > 0 {
                self.free.drop_last()
            } else {
                self.free
            },
            root: match p {
                Some(_) => self.root,
                None => self.root.insert(key, slot),
            },
            by_block: self.by_block.insert(id.0, slot),
            ..self
        }
    }

    /// The trie with a chain of new nodes for `blocks[i..]` under `p`.
    pub open spec fn add_chain(
        self,
        p: Option<usize>,
        keys: Seq<u64>,
        blocks: Seq<Seq<TokenId>>,
        ids: Seq<BlockId>,
        i: int,
    ) -> TrieView
        decreases blocks.len() - i,
    {
        if i < 0 || blocks.len() <= i {
            self
        } else {
            self.add_node(p, keys[i], blocks[i], ids[i]).add_chain(
                Some(self.next_slot()),
                keys,
                blocks,
                ids,
                i + 1,
            )
        }
    }

    /// The end of a path from the root.
    pub open spec fn end_of(path: Seq<usize>) -> Option<usize> {
        if path.len() > 0 {
            Some(path.last())
        } else {
            None
        }
    }

    /// The trie after an insertion of `blocks` standing for the slab blocks
    /// `ids`: what it already holds stays, the rest becomes a chain of new nodes.
    pub open spec fn after_insert(
        self,
        keys: Seq<u64>,
        blocks: Seq<Seq<TokenId>>,
        ids: Seq<BlockId>,
    ) -> TrieView {
        let path = self.walk(keys, blocks);
        self.ticked().add_chain(Self::end_of(path), keys, blocks, ids, path.len() as int)
    }

    /// Slot `i` holds a leaf that nobody holds.
    pub open spec fn evictable(self, i: int) -> bool {
        self.live(i) && self.node(i).rc == 0 && self.node(i).children.dom() == Set::<u64>::empty()
    }

    /// The node in slot `i` is the one its parent files under its key.
    pub open spec fn linked(self, i: int) -> bool {
        self.known(self.node(i).parent) && self.child(self.node(i).parent, self.node(i).parent_key)
            == Some(i as usize)
    }

    /// The trie without the node in slot `i`, its parent's link to it, and the
    /// entry of its slab block.
    pub open spec fn without(self, i: int) -> TrieView {
        let n = self.node(i);
        let vacated = self.arena.update(i, None);
        TrieView {
            arena: match n.parent {
                Some(q) => if self.linked(i) {
                    vacated.update(
                        q as int,
                        Some(
                            NodeView {
                                children: self.node(q as int).children.remove(n.parent_key),
                                ..self.node(q as int)
                            },
                        ),
                    )
                } else {
                    vacated
                },
                None => vacated,
            },
            free: self.free.push(i as usize),
            root: match n.parent {
                Some(_) => self.root,
                None => if self.linked(i) {
                    self.root.remove(n.parent_key)
                } else {
                    self.root
                },
            },
            by_block: self.by_block.remove(n.block_id.0),
            ..self
        }
    }

    /// The trie without the nodes in `slots`, taken out from left to right.
    pub open spec fn without_all(self, slots: Seq<usize>) -> TrieView
        decreases slots.len(),
    {
        if slots.len() == 0 {
            self
        } else {
            self.without_all(slots.drop_last()).without(slots.last() as int)
        }
    }

    /// `order` lists the evictable slots, each once, longest unused first.
    pub open spec fn lru_order(self, order: Seq<usize>) -> bool {
        &&& order.no_duplicates()
        &&& forall|i: usize| #[trigger] order.contains(i) <==> self.evictable(i as int)
        &&& forall|a: int, b: int|
            0 <= a <= b < order.len() ==> self.node(#[trigger] order[a] as int).last_used
                <= self.node(#[trigger] order[b] as int).last_used
    }

    /// The trie with the node in slot `i` held once less, if it was held.
    pub open spec fn unheld(self, i: int) -> TrieView {
        let n = self.node(i);
        TrieView {
            arena: self.arena.update(
                i,
                Some(
                    NodeView {
                        rc: if n.rc > 0 {
                            (n.rc - 1) as u32
                        } else {
                            0
                        },
                        ..n
                    },
                ),
            ),
            ..self
        }
    }

    /// The trie with the node on file for slab block `id` held once more, if there is
    /// one.
    pub open spec fn retained(self, id: BlockId) -> TrieView {
        if self.by_block.contains_key(id.0) {
            let i = self.by_block[id.0] as int;
            let n = self.node(i);
            TrieView {
                arena: self.arena.update(i, Some(NodeView { rc: (n.rc + 1) as u32, ..n })),
                ..self
            }
        } else {
            self
        }
    }

    /// The trie with the nodes on file for `ids` held once more.
    pub open spec fn retained_all(self, ids: Seq<BlockId>) -> TrieView
        decreases ids.len(),
    {
        if ids.len() == 0 {
            self
        } else {
            self.retained_all(ids.drop_last()).retained(ids.last())
        }
    }

    /// Slot `i` holds the node on file for its slab block.
    pub open spec fn on_file(self, i: int) -> bool {
        let b = self.node(i).block_id.0;
        self.by_block.contains_key(b) && self.by_block[b] == i
    }

    /// No node on file for one of `ids` is held as often as its counter can tell.
    pub open spec fn can_retain(self, ids: Seq<BlockId>) -> bool {
        forall|j: int|
            #![trigger ids[j]]
            0 <= j < ids.len() && self.by_block.contains_key(ids[j].0) ==> self.node(
                self.by_block[ids[j].0] as int,
            ).rc < u32::MAX
    }

    /// The trie after slab block `id` is released: its node is held once less,
    /// and leaves the trie if it is then a leaf that nobody holds.
    pub open spec fn released(self, id: BlockId) -> TrieView {
        if self.by_block.contains_key(id.0) {
            let i = self.by_block[id.0] as int;
            if self.unheld(i).evictable(i) {
                self.unheld(i).without(i)
            } else {
                self.unheld(i)
            }
        } else {
            self
        }
    }

    /// The trie after `ids` are released, from the last to the first.
    pub open spec fn released_all(self, ids: Seq<BlockId>) -> TrieView
        decreases ids.len(),
    {
        if ids.len() == 0 {
            self
        } else {
            self.released(ids.last()).released_all(ids.drop_last())
        }
    }

    /// Every link from a parent leads to a node that names that parent and key.
    pub open spec fn links_wf(self) -> bool {
        forall|p: Option<usize>, key: u64|
            #![trigger self.child(p, key)]
            self.known(p) && self.child(p, key) is Some ==> {
                let c = self.child(p, key)->Some_0 as int;
                &&& self.live(c)
                &&& self.node(c).parent == p
                &&& self.node(c).parent_key == key
                &&& self.node(c).depth == self.depth_of(p) + 1
            }
    }

    /// Every node's parent number is that of a slot.
    pub open spec fn parents_wf(self) -> bool {
        forall|i: int|
            #![trigger self.arena[i]]
            self.live(i) ==> (self.node(i).parent matches Some(q) ==> q < self.arena.len())
    }

    /// The free slots are empty, and listed once.
    pub open spec fn free_wf(self) -> bool {
        &&& self.free.no_duplicates()
        &&& forall|j: int|
            #![trigger self.free[j]]
            0 <= j < self.free.len() ==> self.free[j] < self.arena.len()
                && self.arena[self.free[j] as int] is None
    }

    /// Every empty slot is free.
    pub open spec fn slots_wf(self) -> bool {
        forall|i: int|
            #![trigger self.arena[i]]
            0 <= i < self.arena.len() && self.arena[i] is None ==> self.free.contains(i as usize)
    }

    /// The slab blocks on file lead to nodes that stand for them.
    pub open spec fn by_block_wf(self) -> bool {
        forall|b: usize|
            #![trigger self.by_block[b]]
            self.by_block.contains_key(b) ==> self.live(self.by_block[b] as int) && self.node(
                self.by_block[b] as int,
            ).block_id.0 == b
    }

    /// The trie is well formed.
    pub open spec fn wf(self) -> bool {
        &&& self.arena.len() <= usize::MAX
        &&& self.links_wf()
        &&& self.parents_wf()
        &&& self.free_wf()
        &&& self.slots_wf()
        &&& self.by_block_wf()
    }

    /// `other` has the same nodes in the same places: only clocks, times of last
    /// use and reference counts may differ.
    pub open spec fn same_shape(self, other: TrieView) -> bool {
        &&& self.arena.len() == other.arena.len()
        &&& self.free == other.free
        &&& self.root == other.root
        &&& self.by_block == other.by_block
        &&& forall|i: int|
            #![trigger self.arena[i]]
            #![trigger other.arena[i]]
            0 <= i < self.arena.len() ==> {
                &&& self.arena[i] is Some <==> other.arena[i] is Some
                &&& self.arena[i] is Some ==> {
                    &&& self.node(i).block_id == other.node(i).block_id
                    &&& self.node(i).tokens == other.node(i).tokens
                    &&& self.node(i).children == other.node(i).children
                    &&& self.node(i).parent == other.node(i).parent
                    &&& self.node(i).parent_key == other.node(i).parent_key
                    &&& self.node(i).depth == other.node(i).depth
                }
            }
    }

    /// A change that keeps the shape keeps the trie well formed.
    pub proof fn lemma_same_shape_wf(self, other: TrieView)
        requires
            self.wf(),
            self.same_shape(other),
        ensures
            other.wf(),
    {
        assert forall|p: Option<usize>, key: u64|
            other.known(p) && #[trigger] other.child(p, key) is Some implies {
            let c = other.child(p, key)->Some_0 as int;
            &&& other.live(c)
            &&& other.node(c).parent == p
            &&& other.node(c).parent_key == key
            &&& other.node(c).depth == other.depth_of(p) + 1
        } by {
            assert(self.known(p));
            assert(self.child(p, key) == other.child(p, key));
        }
        assert forall|i: int| other.live(i) implies (#[trigger] other.arena[i]->Some_0.parent matches Some(q)
            ==> q < other.arena.len()) by {
            assert(self.live(i));
        }
        assert forall|b: usize| other.by_block.contains_key(b) implies other.live(
            #[trigger] other.by_block[b] as int,
        ) && other.node(other.by_block[b] as int).block_id.0 == b by {
            assert(self.live(self.by_block[b] as int));
        }
    }

    /// A change that keeps the shape keeps every descent.
    pub proof fn lemma_same_shape_walk(
        self,
        other: TrieView,
        p: Option<usize>,
        keys: Seq<u64>,
        blocks: Seq<Seq<TokenId>>,
        i: int,
    )
        requires
            self.wf(),
            self.same_shape(other),
            self.known(p),
        ensures
            self.walk_from(p, keys, blocks, i) == other.walk_from(p, keys, blocks, i),
        decreases blocks.len() - i,
    {
        if 0 <= i < blocks.len() {
            assert(self.child(p, keys[i]) == other.child(p, keys[i]));
            match self.step(p, keys[i], blocks[i]) {
                Some(c) => {
                    self.lemma_same_shape_walk(other, Some(c), keys, blocks, i + 1);
                },
                None => {},
            }
        }
    }

    /// A descent meets nodes of the trie, one level deeper at each step.
    pub proof fn lemma_walk_levels(
        self,
        p: Option<usize>,
        keys: Seq<u64>,
        blocks: Seq<Seq<TokenId>>,
        i: int,
    )
        requires
            self.wf(),
            self.known(p),
            0 <= i,
        ensures
            self.walk_from(p, keys, blocks, i).len() <= if i <= blocks.len() {
                blocks.len() - i
            } else {
                0
            },
            forall|j: int|
                #![trigger self.walk_from(p, keys, blocks, i)[j]]
                0 <= j < self.walk_from(p, keys, blocks, i).len() ==> {
                    let c = self.walk_from(p, keys, blocks, i)[j] as int;
                    &&& self.live(c)
                    &&& self.node(c).depth == self.depth_of(p) + 1 + j
                    &&& self.node(c).tokens == blocks[i + j]
                },
        decreases blocks.len() - i,
    {
        if i < blocks.len() {
            match self.step(p, keys[i], blocks[i]) {
                Some(c) => {
                    assert(self.child(p, keys[i]) == Some(c));
                    self.lemma_walk_levels(Some(c), keys, blocks, i + 1);
                    let rest = self.walk_from(Some(c), keys, blocks, i + 1);
                    let all = self.walk_from(p, keys, blocks, i);
                    assert(all =~= seq![c] + rest);
                    assert forall|j: int| 0 <= j < all.len() implies {
                        let d = #[trigger] all[j] as int;
                        &&& self.live(d)
                        &&& self.node(d).depth == self.depth_of(p) + 1 + j
                        &&& self.node(d).tokens == blocks[i + j]
                    } by {
                        if j > 0 {
                            assert(all[j] == rest[j - 1]);
                        }
                    }
                },
                None => {},
            }
        }
    }

    /// A descent meets no node twice.
    pub proof fn lemma_walk_distinct(self, keys: Seq<u64>, blocks: Seq<Seq<TokenId>>)
        requires
            self.wf(),
        ensures
            self.walk(keys, blocks).no_duplicates(),
    {
        self.lemma_walk_levels(None, keys, blocks, 0);
    }

    /// A new node keeps the trie well formed.
    pub proof fn lemma_add_node_wf(
        self,
        p: Option<usize>,
        key: u64,
        block: Seq<TokenId>,
        id: BlockId,
    )
        requires
            self.wf(),
            self.known(p),
            self.arena.len() < usize::MAX || self.free.len() > 0,
        ensures
            self.add_node(p, key, block, id).wf(),
            self.add_node(p, key, block, id).known(Some(self.next_slot())),
            !self.live(self.next_slot() as int),
            forall|i: int|
                self.live(i) ==> #[trigger] self.add_node(p, key, block, id).live(i),
    {
        let next = self.add_node(p, key, block, id);
        let slot = self.next_slot();
        assert(!self.live(slot as int)) by {
            if self.free.len() > 0 {
                assert(self.arena[self.free[self.free.len() - 1] as int] is None);
            }
        }
        assert forall|q: Option<usize>, k: u64|
            next.known(q) && #[trigger] next.child(q, k) is Some implies {
            let c = next.child(q, k)->Some_0 as int;
            &&& next.live(c)
            &&& next.node(c).parent == q
            &&& next.node(c).parent_key == k
            &&& next.node(c).depth == next.depth_of(q) + 1
        } by {
            if q == Some(slot) {
                assert(next.children_of(q) =~= Map::empty());
            } else if q == p && k == key {
                assert(next.child(q, k) == Some(slot));
            } else {
                assert(self.known(q));
                assert(next.child(q, k) == self.child(q, k));
            }
        }
        assert forall|i: int| next.live(i) implies (#[trigger] next.arena[i]->Some_0.parent matches Some(q)
            ==> q < next.arena.len()) by {
            if i != slot {
                assert(self.live(i));
            }
        }
        assert forall|j: int| 0 <= j < next.free.len() implies #[trigger] next.free[j]
            < next.arena.len() && next.arena[next.free[j] as int] is None by {
            assert(self.free[j] == next.free[j]);
            assert(self.arena[self.free[j] as int] is None);
        }
        assert forall|i: int|
            0 <= i < next.arena.len() && #[trigger] next.arena[i] is None implies next.free.contains(
            i as usize,
        ) by {
            assert(self.arena[i] is None);
            let j = choose|j: int| 0 <= j < self.free.len() && self.free[j] == i as usize;
            assert(next.free[j] == i as usize);
        }
        assert forall|b: usize| next.by_block.contains_key(b) implies next.live(
            #[trigger] next.by_block[b] as int,
        ) && next.node(next.by_block[b] as int).block_id.0 == b by {
            if b != id.0 {
                assert(self.live(self.by_block[b] as int));
            }
        }
    }

    /// Taking a node out keeps the trie well formed, and every other node in its
    /// slot, with all but its children as they were.
    pub proof fn lemma_without_wf(self, i: int)
        requires
            self.wf(),
            self.live(i),
        ensures
            self.without(i).wf(),
            self.without(i).arena.len() == self.arena.len(),
            !self.without(i).live(i),
            forall|j: int|
                #![trigger self.without(i).arena[j]]
                self.live(j) && j != i ==> {
                    &&& self.without(i).live(j)
                    &&& self.without(i).node(j) == (NodeView {
                        children: self.without(i).node(j).children,
                        ..self.node(j)
                    })
                    &&& self.without(i).node(j).children.submap_of(self.node(j).children)
                },
            forall|j: int| self.without(i).live(j) ==> #[trigger] self.live(j),
            forall|q: Option<usize>, k: u64|
                #![trigger self.without(i).child(q, k)]
                self.known(q) && q != Some(i as usize) ==> self.without(i).child(q, k) == (
                if self.child(q, k) == Some(i as usize) {
                    None
                } else {
                    self.child(q, k)
                }),
    {
        let next = self.without(i);
        let n = self.node(i);
        if self.linked(i) {
            assert(self.child(n.parent, n.parent_key) == Some(i as usize));
            assert(n.parent != Some(i as usize));
        }
        assert forall|q: Option<usize>, k: u64| self.known(q) && q != Some(i as usize) implies
            #[trigger] next.child(q, k) == (if self.child(q, k) == Some(i as usize) {
            None
        } else {
            self.child(q, k)
        }) by {
            if self.child(q, k) == Some(i as usize) {
                assert(n.parent == q && n.parent_key == k);
                assert(self.linked(i));
            }
        }
        assert forall|q: Option<usize>, k: u64|
            next.known(q) && #[trigger] next.child(q, k) is Some implies {
            let c = next.child(q, k)->Some_0 as int;
            &&& next.live(c)
            &&& next.node(c).parent == q
            &&& next.node(c).parent_key == k
            &&& next.node(c).depth == next.depth_of(q) + 1
        } by {
            assert(self.known(q));
            assert(next.children_of(q).submap_of(self.children_of(q)));
            assert(next.child(q, k) == self.child(q, k));
        }
        assert forall|j: int| next.live(j) implies (#[trigger] next.arena[j]->Some_0.parent matches Some(q)
            ==> q < next.arena.len()) by {
            assert(self.live(j));
            assert(self.arena[j]->Some_0.parent == next.arena[j]->Some_0.parent);
        }
        assert forall|j: int| 0 <= j < next.free.len() implies #[trigger] next.free[j]
            < next.arena.len() && next.arena[next.free[j] as int] is None by {
            if j < self.free.len() {
                assert(self.free[j] == next.free[j]);
                assert(self.arena[self.free[j] as int] is None);
            }
        }
        assert forall|j: int|
            0 <= j < next.arena.len() && #[trigger] next.arena[j] is None implies next.free.contains(
            j as usize,
        ) by {
            if j == i {
                assert(next.free[self.free.len() as int] == i as usize);
            } else {
                assert(self.arena[j] is None);
                let k = choose|k: int| 0 <= k < self.free.len() && self.free[k] == j as usize;
                assert(next.free[k] == j as usize);
            }
        }
        assert(next.free.no_duplicates()) by {
            assert forall|a: int, b: int|
                0 <= a < b < next.free.len() implies next.free[a] != next.free[b] by {
                assert(self.free[a] == next.free[a]);
                assert(self.arena[self.free[a] as int] is None);
            }
        }
        assert forall|b: usize| next.by_block.contains_key(b) implies next.live(
            #[trigger] next.by_block[b] as int,
        ) && next.node(next.by_block[b] as int).block_id.0 == b by {
            assert(self.live(self.by_block[b] as int));
        }
    }

    /// Holding a node once less keeps the trie well formed.
    pub proof fn lemma_unheld_wf(self, i: int)
        requires
            self.wf(),
            self.live(i),
        ensures
            self.unheld(i).wf(),
            self.same_shape(self.unheld(i)),
    {
        self.lemma_same_shape_wf(self.unheld(i));
    }

    /// Holding the nodes of distinct slab blocks changes their counters, and nothing
    /// else.
    pub proof fn lemma_retained_all(self, ids: Seq<BlockId>)
        requires
            self.wf(),
            ids.no_duplicates(),
            self.can_retain(ids),
        ensures
            self.retained_all(ids).wf(),
            self.same_shape(self.retained_all(ids)),
            self.retained_all(ids).clock == self.clock,
            forall|i: int|
                #![trigger self.retained_all(ids).arena[i]]
                self.live(i) ==> self.retained_all(ids).node(i) == (NodeView {
                    rc: (self.node(i).rc + if self.on_file(i) && ids.contains(
                        self.node(i).block_id,
                    ) {
                        1int
                    } else {
                        0int
                    }) as u32,
                    ..self.node(i)
                }),
        decreases ids.len(),
    {
        let end = self.retained_all(ids);
        if ids.len() > 0 {
            let front = ids.drop_last();
            let last = ids.last();
            let mid = self.retained_all(front);
            assert forall|j: int|
                0 <= j < front.len() && self.by_block.contains_key(#[trigger] front[j].0) implies
                self.node(self.by_block[front[j].0] as int).rc < u32::MAX by {
                assert(front[j] == ids[j]);
            }
            self.lemma_retained_all(front);
            assert(ids[ids.len() - 1] == last);
            assert(!front.contains(last)) by {
                if front.contains(last) {
                    let j = choose|j: int| 0 <= j < front.len() && front[j] == last;
                    assert(ids[j] == ids[ids.len() - 1]);
                }
            }
            if self.by_block.contains_key(last.0) {
                let x = self.by_block[last.0] as int;
                assert(self.live(x));
                assert(mid.arena[x] is Some);
                assert(self.node(x).block_id == last);
            }
            assert forall|i: int| self.live(i) implies #[trigger] end.arena[i] == Some(
                NodeView {
                    rc: (self.node(i).rc + if self.on_file(i) && ids.contains(
                        self.node(i).block_id,
                    ) {
                        1int
                    } else {
                        0int
                    }) as u32,
                    ..self.node(i)
                },
            ) by {
                let id = self.node(i).block_id;
                assert(mid.arena[i] is Some);
                if front.contains(id) {
                    let j = choose|j: int| 0 <= j < front.len() && front[j] == id;
                    assert(ids[j] == id);
                }
                if ids.contains(id) && !front.contains(id) {
                    let j = choose|j: int| 0 <= j < ids.len() && ids[j] == id;
                    if j < front.len() {
                        assert(front[j] == id);
                    }
                }
            }
            assert forall|i: int|
                0 <= i < self.arena.len() && #[trigger] self.arena[i] is None implies end.arena[i]
                is None by {
                assert(mid.arena[i] is None);
                if self.by_block.contains_key(last.0) {
                    assert(self.live(self.by_block[last.0] as int));
                }
            }
            assert forall|i: int|
                0 <= i < self.arena.len() && #[trigger] self.arena[i] is Some implies
                end.arena[i] is Some && end.node(i) == (NodeView {
                rc: end.node(i).rc,
                ..self.node(i)
            }) by {
                assert(self.live(i));
                assert(end.arena[i] is Some);
            }
            assert(self.same_shape(end));
            self.lemma_same_shape_wf(end);
        }
    }

    /// Taking out distinct nodes keeps the trie well formed, and every other node
    /// in its slot.
    pub proof fn lemma_without_all_wf(self, slots: Seq<usize>)
        requires
            self.wf(),
            slots.no_duplicates(),
            forall|j: int| 0 <= j < slots.len() ==> self.live(#[trigger] slots[j] as int),
        ensures
            self.without_all(slots).wf(),
            self.without_all(slots).arena.len() == self.arena.len(),
            forall|i: int|
                #![trigger self.without_all(slots).arena[i]]
                self.live(i) && !slots.contains(i as usize) ==> {
                    &&& self.without_all(slots).live(i)
                    &&& self.without_all(slots).node(i) == (NodeView {
                        children: self.without_all(slots).node(i).children,
                        ..self.node(i)
                    })
                    &&& self.without_all(slots).node(i).children.submap_of(self.node(i).children)
                },
            forall|j: int|
                0 <= j < slots.len() ==> !self.without_all(slots).live(#[trigger] slots[j] as int),
            forall|i: int| self.without_all(slots).live(i) ==> #[trigger] self.live(i),
            forall|q: Option<usize>, k: u64|
                #![trigger self.without_all(slots).child(q, k)]
                self.known(q) && (q matches Some(x) ==> !slots.contains(x))
                    ==> self.without_all(slots).child(q, k) == (match self.child(q, k) {
                    Some(c) => if slots.contains(c) {
                        None
                    } else {
                        Some(c)
                    },
                    None => None,
                }),
        decreases slots.len(),
    {
        if slots.len() > 0 {
            let front = slots.drop_last();
            let last = slots.last();
            assert forall|j: int| 0 <= j < front.len() implies self.live(
                #[trigger] front[j] as int,
            ) by {
                assert(front[j] == slots[j]);
            }
            self.lemma_without_all_wf(front);
            let mid = self.without_all(front);
            let end = self.without_all(slots);
            assert(self.live(slots[slots.len() - 1] as int));
            assert(!front.contains(last));
            assert(mid.arena[last as int] is Some);
            mid.lemma_without_wf(last as int);
            assert(end == mid.without(last as int));
            assert forall|i: int| self.live(i) && !slots.contains(i as usize) implies {
                &&& end.live(i)
                &&& end.node(i) == (NodeView {
                    children: end.node(i).children,
                    ..self.node(i)
                })
                &&& end.node(i).children.submap_of(self.node(i).children)
            } by {
                assert(!front.contains(i as usize)) by {
                    if front.contains(i as usize) {
                        let j = choose|j: int| 0 <= j < front.len() && front[j] == i as usize;
                        assert(slots[j] == i as usize);
                    }
                }
                assert(last != i) by {
                    assert(slots[slots.len() - 1] == last);
                }
                assert(mid.arena[i] is Some);
                assert(mid.live(i));
                assert(mid.without(last as int).arena[i] is Some);
                let (below, above) = (end.node(i).children, self.node(i).children);
                let between = mid.node(i).children;
                assert(below.submap_of(between));
                assert(between.submap_of(above));
                assert forall|k: u64| #[trigger] below.dom().contains(k) implies above.dom().contains(
                    k,
                ) && below[k] == above[k] by {
                    assert(between.dom().contains(k));
                }
                assert(end.node(i) == (NodeView { children: below, ..mid.node(i) }));
                assert(mid.node(i) == (NodeView { children: between, ..self.node(i) }));
            }
            assert forall|x: usize| #[trigger] slots.contains(x) implies front.contains(x) || x
                == last by {
                let j = choose|j: int| 0 <= j < slots.len() && slots[j] == x;
                if j < front.len() {
                    assert(front[j] == x);
                }
            }
            assert forall|x: usize| #[trigger] front.contains(x) || x == last implies slots.contains(
                x,
            ) by {
                if x == last {
                    assert(slots[slots.len() - 1] == x);
                } else {
                    let j = choose|j: int| 0 <= j < front.len() && front[j] == x;
                    assert(slots[j] == x);
                }
            }
            assert forall|q: Option<usize>, k: u64|
                self.known(q) && (q matches Some(x) ==> !slots.contains(x)) implies
                #[trigger] end.child(q, k) == (match self.child(q, k) {
                Some(c) => if slots.contains(c) {
                    None
                } else {
                    Some(c)
                },
                None => None,
            }) by {
                match q {
                    Some(x) => {
                        assert(!front.contains(x));
                        assert(x != last);
                        assert(mid.arena[x as int] is Some);
                    },
                    None => {},
                }
                assert(mid.known(q));
                assert(mid.without(last as int).child(q, k) == end.child(q, k));
                assert(mid.child(q, k) == (match self.child(q, k) {
                    Some(c) => if front.contains(c) {
                        None
                    } else {
                        Some(c)
                    },
                    None => None,
                }));
            }
            assert forall|j: int| 0 <= j < slots.len() implies !end.live(
                #[trigger] slots[j] as int,
            ) by {
                if j < front.len() {
                    assert(front[j] == slots[j]);
                    assert(!mid.live(front[j] as int));
                }
            }
        }
    }
}

} // verus!
