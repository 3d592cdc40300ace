//! Who owns which block. Every owner lists its blocks; a block is referenced once
//! for each list that it is on.

use crate::kv::block::BlockError;
use crate::kv::cache;
use crate::kv::cache::CacheView;
use crate::kv::cache_laws;
use crate::kv::tokens;
use crate::kv::trie_laws;
use crate::kv::trie_model::TrieView;
use crate::kv::BlockId;
use crate::kv::TokenId;
use vstd::prelude::*;

verus! {

/// Every node is the one on file for its slab block, which is referenced, by `rc`,
/// once more often than the node is held.
pub open spec fn counted(t: TrieView, rc: Seq<u32>) -> bool {
    forall|i: int|
        #![trigger t.arena[i]]
        t.live(i) ==> {
            &&& t.on_file(i)
            &&& t.node(i).block_id.0 < rc.len()
            &&& rc[t.node(i).block_id.0 as int] == t.node(i).rc + 1
        }
}

/// `list` names no block twice, and the nodes on file for its blocks lie one below
/// the other, the first of them `off` levels below the first level.
pub open spec fn list_wf(t: TrieView, list: Seq<BlockId>, off: int) -> bool {
    &&& list.no_duplicates()
    &&& forall|j: int|
        #![trigger list[j]]
        0 <= j < list.len() && t.by_block.contains_key(list[j].0) ==> {
            let x = t.by_block[list[j].0] as int;
            &&& t.node(x).depth == off + j + 1
            &&& t.linked(x) ==> (t.node(x).parent matches Some(p) ==> off + j > 0 && (j > 0
                ==> list[j - 1] == t.node(p as int).block_id))
        }
}

/// The owners whose lists name `id`.
pub open spec fn listed_by(lists: Map<u64, Seq<BlockId>>, id: BlockId) -> Set<u64> {
    lists.dom().filter(|x: u64| lists[x].contains(id))
}

/// The blocks that `x` lists; none if it has no list.
pub open spec fn list_of(lists: Map<u64, Seq<BlockId>>, x: u64) -> Seq<BlockId> {
    if lists.contains_key(x) {
        lists[x]
    } else {
        Seq::empty()
    }
}

/// How often `id` is named by the lists and the list in hand.
pub open spec fn named(lists: Map<u64, Seq<BlockId>>, hand: Seq<BlockId>, id: BlockId) -> int {
    listed_by(lists, id).len() + if hand.contains(id) {
        1int
    } else {
        0int
    }
}

/// The blocks of `list` are among the first `n`.
pub open spec fn in_range(list: Seq<BlockId>, n: nat) -> bool {
    forall|j: int| 0 <= j < list.len() ==> #[trigger] list[j].0 < n
}

/// Every block is referenced, by `rc`, once for each list that names it: one list
/// for each owner, and one in hand, which starts `off` levels down.
pub open spec fn balanced(
    t: TrieView,
    rc: Seq<u32>,
    lists: Map<u64, Seq<BlockId>>,
    hand: Seq<BlockId>,
    off: int,
) -> bool {
    &&& counted(t, rc)
    &&& lists.dom().finite()
    &&& 0 <= off
    &&& forall|x: u64|
        #![trigger lists[x]]
        lists.contains_key(x) ==> list_wf(t, lists[x], 0) && in_range(lists[x], rc.len())
    &&& list_wf(t, hand, off)
    &&& in_range(hand, rc.len())
    &&& forall|i: usize|
        #![trigger rc[i as int]]
        i < rc.len() ==> rc[i as int] == named(lists, hand, BlockId(i))
}

/// What is on file in `e`, but for `except`, is on file in `t` in the same place.
spec fn keeps(t: TrieView, e: TrieView, except: Seq<BlockId>) -> bool {
    forall|b: usize|
        #![trigger e.by_block[b]]
        e.by_block.contains_key(b) && !except.contains(BlockId(b)) ==> {
            let x = e.by_block[b] as int;
            &&& t.by_block.contains_key(b)
            &&& t.by_block[b] == x
            &&& e.node(x).depth == t.node(x).depth
            &&& e.node(x).parent == t.node(x).parent
            &&& e.linked(x) ==> t.linked(x) && (t.node(x).parent matches Some(p) ==> e.node(
                p as int,
            ).block_id == t.node(p as int).block_id)
        }
}

/// A list that names none of the blocks that changed is as well formed as before.
proof fn lemma_list_kept(
    t: TrieView,
    e: TrieView,
    except: Seq<BlockId>,
    list: Seq<BlockId>,
    off: int,
)
    requires
        keeps(t, e, except),
        list_wf(t, list, off),
        forall|j: int| 0 <= j < list.len() ==> !except.contains(#[trigger] list[j]),
    ensures
        list_wf(e, list, off),
{
    assert forall|j: int|
        0 <= j < list.len() && e.by_block.contains_key(#[trigger] list[j].0) implies {
        let x = e.by_block[list[j].0] as int;
        &&& e.node(x).depth == off + j + 1
        &&& e.linked(x) ==> (e.node(x).parent matches Some(p) ==> off + j > 0 && (j > 0 ==> list[j
            - 1] == e.node(p as int).block_id))
    } by {
        assert(BlockId(list[j].0) == list[j]);
        assert(t.by_block[list[j].0] == e.by_block[list[j].0]);
    }
}

/// A part of a well formed list is well formed, as far down as it starts.
pub proof fn lemma_part(t: TrieView, list: Seq<BlockId>, off: int, i: int, k: int)
    requires
        list_wf(t, list, off),
        0 <= i <= k <= list.len(),
    ensures
        list_wf(t, list.subrange(i, k), off + i),
{
    let part = list.subrange(i, k);
    assert forall|j: int|
        0 <= j < part.len() && t.by_block.contains_key(#[trigger] part[j].0) implies {
        let x = t.by_block[part[j].0] as int;
        &&& t.node(x).depth == off + i + j + 1
        &&& t.linked(x) ==> (t.node(x).parent matches Some(p) ==> off + i + j > 0 && (j > 0
            ==> part[j - 1] == t.node(p as int).block_id))
    } by {
        assert(part[j] == list[i + j]);
        if j > 0 {
            assert(part[j - 1] == list[i + j - 1]);
        }
    }
}

/// `list` names none of `ids[i..]`.
spec fn avoids(list: Seq<BlockId>, ids: Seq<BlockId>, i: int) -> bool {
    forall|j: int, k: int|
        #![trigger list[j], ids[k]]
        0 <= j < list.len() && i <= k < ids.len() ==> list[j] != ids[k]
}

/// A node for a block that is referenced once and not on file keeps the count, and
/// every list.
proof fn lemma_node_counted(
    t: TrieView,
    rc: Seq<u32>,
    p: Option<usize>,
    key: u64,
    block: Seq<TokenId>,
    id: BlockId,
)
    requires
        t.wf(),
        t.known(p),
        t.arena.len() < usize::MAX || t.free.len() > 0,
        counted(t, rc),
        !t.by_block.contains_key(id.0),
        id.0 < rc.len(),
        rc[id.0 as int] == 1,
    ensures
        counted(t.add_node(p, key, block, id), rc),
        keeps(t, t.add_node(p, key, block, id), seq![id]),
{
    let next = t.add_node(p, key, block, id);
    let slot = t.next_slot();
    t.lemma_add_node_wf(p, key, block, id);
    assert forall|i: int| next.live(i) implies next.on_file(i)
        && #[trigger] next.arena[i]->Some_0.block_id.0 < rc.len() && rc[next.node(i).block_id.0 as int]
        == next.node(i).rc + 1 by {
        if i != slot {
            assert(t.arena[i] is Some);
            assert(t.live(i));
        }
    }
    assert forall|b: usize|
        next.by_block.contains_key(b) && !seq![id].contains(BlockId(b)) implies {
        let x = #[trigger] next.by_block[b] as int;
        &&& t.by_block.contains_key(b)
        &&& t.by_block[b] == x
        &&& next.node(x).depth == t.node(x).depth
        &&& next.node(x).parent == t.node(x).parent
        &&& next.linked(x) ==> t.linked(x) && (t.node(x).parent matches Some(q) ==> next.node(
            q as int,
        ).block_id == t.node(q as int).block_id)
    } by {
        assert(seq![id][0] == id);
        assert(b != id.0);
        let x = t.by_block[b] as int;
        assert(t.live(x));
        assert(x != slot);
        if next.linked(x) {
            let q = next.node(x).parent;
            let k = next.node(x).parent_key;
            assert(next.child(q, k) == Some(x as usize));
            assert(q != Some(slot)) by {
                if q == Some(slot) {
                    assert(next.children_of(q) =~= Map::empty());
                }
            }
            assert(!(q == p && k == key));
            assert(t.child(q, k) == next.child(q, k));
        }
    }
}

/// Where every node is on file for a block of its own and one block is not on file,
/// there are fewer slots than blocks, if all are taken.
proof fn lemma_slots(t: TrieView, rc: Seq<u32>, id: BlockId)
    requires
        t.wf(),
        counted(t, rc),
        t.free.len() == 0,
        !t.by_block.contains_key(id.0),
        id.0 < rc.len(),
    ensures
        t.arena.len() < rc.len(),
{
    let taken = Seq::new(t.arena.len(), |i: int| t.node(i).block_id.0 as int);
    let all = taken.push(id.0 as int);
    let range = vstd::set_lib::set_int_range(0, rc.len() as int);
    assert forall|i: int| 0 <= i < t.arena.len() implies #[trigger] t.live(i) by {
        if t.arena[i] is None {
            assert(t.free.contains(i as usize));
        }
    }
    assert forall|i: int, j: int| 0 <= i < j < all.len() implies all[i] != all[j] by {
        assert(t.live(i));
        assert(t.arena[i] is Some);
        if j < t.arena.len() {
            assert(t.live(j));
            assert(t.arena[j] is Some);
        }
    }
    all.unique_seq_to_set();
    vstd::set_lib::lemma_int_range(0, rc.len() as int);
    assert forall|n: int| #[trigger] all.to_set().contains(n) implies range.contains(n) by {
        let i = choose|i: int| 0 <= i < all.len() && all[i] == n;
        if i < t.arena.len() {
            assert(t.live(i));
            assert(t.arena[i] is Some);
        }
    }
    vstd::set_lib::lemma_len_subset(all.to_set(), range);
}

/// A chain of nodes for distinct blocks that are referenced once and not on file
/// keeps the count, and every list that names none of them.
proof fn lemma_chain_counted(
    t: TrieView,
    rc: Seq<u32>,
    p: Option<usize>,
    keys: Seq<u64>,
    blocks: Seq<Seq<TokenId>>,
    ids: Seq<BlockId>,
    i: int,
)
    requires
        t.wf(),
        t.known(p),
        0 <= i <= blocks.len(),
        ids.len() == blocks.len(),
        rc.len() <= usize::MAX,
        counted(t, rc),
        forall|j: int, k: int| i <= j < k < ids.len() ==> ids[j] != ids[k],
        forall|j: int|
            #![trigger ids[j]]
            i <= j < ids.len() ==> !t.by_block.contains_key(ids[j].0) && ids[j].0 < rc.len()
                && rc[ids[j].0 as int] == 1,
    ensures
        t.add_chain(p, keys, blocks, ids, i).arena.len() <= usize::MAX,
        counted(t.add_chain(p, keys, blocks, ids, i), rc),
        forall|list: Seq<BlockId>, off: int|
            list_wf(t, list, off) && avoids(list, ids, i) ==> #[trigger] list_wf(
                t.add_chain(p, keys, blocks, ids, i),
                list,
                off,
            ),
    decreases blocks.len() - i,
{
    if i < blocks.len() {
        let slot = t.next_slot();
        let mid = t.add_node(p, keys[i], blocks[i], ids[i]);
        if t.free.len() == 0 {
            lemma_slots(t, rc, ids[i]);
        }
        t.lemma_add_node_wf(p, keys[i], blocks[i], ids[i]);
        lemma_node_counted(t, rc, p, keys[i], blocks[i], ids[i]);
        assert forall|j: int| i + 1 <= j < ids.len() implies !mid.by_block.contains_key(
            #[trigger] ids[j].0,
        ) && ids[j].0 < rc.len() && rc[ids[j].0 as int] == 1 by {
            assert(ids[i] != ids[j]);
        }
        lemma_chain_counted(mid, rc, Some(slot), keys, blocks, ids, i + 1);
        assert forall|list: Seq<BlockId>, off: int|
            list_wf(t, list, off) && avoids(list, ids, i) implies #[trigger] list_wf(
            t.add_chain(p, keys, blocks, ids, i),
            list,
            off,
        ) by {
            assert forall|j: int| 0 <= j < list.len() implies !seq![ids[i]].contains(
                #[trigger] list[j],
            ) by {
                assert(list[j] != ids[i]);
            }
            lemma_list_kept(t, mid, seq![ids[i]], list, off);
            assert(avoids(list, ids, i + 1));
        }
    }
}

/// Taking nodes out keeps the count of the others, where `less` counts them as `rc`
/// does.
pub proof fn lemma_without_counted(
    t: TrieView,
    rc: Seq<u32>,
    slots: Seq<usize>,
    less: Seq<u32>,
)
    requires
        t.wf(),
        counted(t, rc),
        slots.no_duplicates(),
        less.len() == rc.len(),
        forall|j: int| 0 <= j < slots.len() ==> t.live(#[trigger] slots[j] as int),
        forall|i: int|
            #![trigger t.arena[i]]
            t.live(i) && !slots.contains(i as usize) ==> less[t.node(i).block_id.0 as int]
                == rc[t.node(i).block_id.0 as int],
    ensures
        counted(t.without_all(slots), less),
{
    let e = t.without_all(slots);
    t.lemma_without_all_wf(slots);
    lemma_without_on_file(t, slots);
    assert forall|i: int| e.live(i) implies e.on_file(i) && #[trigger] e.arena[i]->Some_0.block_id.0
        < less.len() && less[e.node(i).block_id.0 as int] == e.node(i).rc + 1 by {
        assert(t.live(i));
        assert(t.arena[i] is Some);
        if slots.contains(i as usize) {
            let j = choose|j: int| 0 <= j < slots.len() && slots[j] == i as usize;
            assert(!e.live(slots[j] as int));
        }
    }
}

/// Taking nodes out leaves the others on file.
proof fn lemma_without_on_file(t: TrieView, slots: Seq<usize>)
    requires
        t.wf(),
        slots.no_duplicates(),
        forall|j: int| 0 <= j < slots.len() ==> t.live(#[trigger] slots[j] as int),
        forall|i: int|
            #![trigger t.arena[i]]
            t.live(i) ==> t.on_file(i),
    ensures
        forall|i: int|
            #![trigger t.without_all(slots).arena[i]]
            t.without_all(slots).live(i) ==> t.without_all(slots).on_file(i),
    decreases slots.len(),
{
    if slots.len() > 0 {
        let front = slots.drop_last();
        let x = slots.last() as int;
        assert forall|j: int| 0 <= j < front.len() implies t.live(#[trigger] front[j] as int) by {
            assert(front[j] == slots[j]);
        }
        lemma_without_on_file(t, front);
        t.lemma_without_all_wf(front);
        let mid = t.without_all(front);
        let e = t.without_all(slots);
        assert(slots[slots.len() - 1] == slots.last());
        assert(!front.contains(slots.last())) by {
            if front.contains(slots.last()) {
                let j = choose|j: int| 0 <= j < front.len() && front[j] == slots.last();
                assert(slots[j] == slots[slots.len() - 1]);
            }
        }
        assert(t.live(x));
        assert(mid.arena[x] is Some);
        mid.lemma_without_wf(x);
        assert(e == mid.without(x));
        assert forall|i: int| e.live(i) implies #[trigger] e.arena[i] is Some && e.on_file(i) by {
            assert(mid.live(i));
            assert(mid.arena[i] is Some);
            assert(i != x);
            assert(mid.on_file(i) && mid.on_file(x));
        }
    }
}

/// Releasing the last block in hand keeps the count. Its node leaves the trie if
/// nobody else lists it: it has no children by then, since whoever lists a child lists
/// its parent before it.
proof fn lemma_release_one(
    t: TrieView,
    rc: Seq<u32>,
    lists: Map<u64, Seq<BlockId>>,
    hand: Seq<BlockId>,
    off: int,
)
    requires
        t.wf(),
        balanced(t, rc, lists, hand, off),
        hand.len() > 0,
    ensures
        t.released(hand.last()).wf(),
        rc[hand.last().0 as int] > 0,
        balanced(
            t.released(hand.last()),
            rc.update(hand.last().0 as int, (rc[hand.last().0 as int] - 1) as u32),
            lists,
            hand.drop_last(),
            off,
        ),
{
    let id = hand.last();
    let front = hand.drop_last();
    let m = hand.len() - 1;
    let e = t.released(id);
    let less = rc.update(id.0 as int, (rc[id.0 as int] - 1) as u32);
    assert(hand[m] == id);
    assert(hand.contains(id));
    assert(BlockId(id.0) == id);
    assert(rc[id.0 as int] == named(lists, hand, id));
    assert(!front.contains(id)) by {
        if front.contains(id) {
            let j = choose|j: int| 0 <= j < front.len() && front[j] == id;
            assert(hand[j] == hand[m]);
        }
    }
    if t.by_block.contains_key(id.0) {
        let x = t.by_block[id.0] as int;
        let n = t.node(x);
        assert(t.live(x));
        assert(t.arena[x] is Some);
        assert(n.block_id == id);
        t.lemma_unheld_wf(x);
        let held = t.unheld(x);
        if n.rc == 0 {
            lemma_leaf(t, rc, lists, hand, off);
            assert(held.evictable(x));
        }
        if held.evictable(x) {
            held.lemma_without_wf(x);
        }
        assert(e.wf());
        assert forall|i: int| e.live(i) implies e.on_file(i)
            && #[trigger] e.arena[i]->Some_0.block_id.0 < less.len() && less[e.node(i).block_id.0 as int]
            == e.node(i).rc + 1 by {
            assert(held.live(i));
            assert(t.arena[i] is Some);
            assert(t.live(i));
            if i != x {
                assert(t.node(i).block_id != id);
                assert(t.node(i).block_id.0 != id.0);
            }
        }
        assert(keeps(t, e, Seq::empty())) by {
            assert forall|b: usize| e.by_block.contains_key(b) implies {
                let y = #[trigger] e.by_block[b] as int;
                &&& t.by_block.contains_key(b)
                &&& t.by_block[b] == y
                &&& e.node(y).depth == t.node(y).depth
                &&& e.node(y).parent == t.node(y).parent
                &&& e.linked(y) ==> t.linked(y) && (t.node(y).parent matches Some(q) ==> e.node(
                    q as int,
                ).block_id == t.node(q as int).block_id)
            } by {
                let y = e.by_block[b] as int;
                assert(e.live(y));
                assert(held.live(y));
                assert(e.arena[y] is Some);
                assert(t.arena[y] is Some);
                if e.linked(y) {
                    let q = e.node(y).parent;
                    let k = e.node(y).parent_key;
                    assert(e.child(q, k) == Some(y as usize));
                    match q {
                        Some(z) => {
                            assert(e.live(z as int));
                            assert(held.live(z as int));
                            assert(e.arena[z as int] is Some);
                            assert(t.arena[z as int] is Some);
                        },
                        None => {},
                    }
                    assert(held.child(q, k) == t.child(q, k));
                    if held.evictable(x) {
                        assert(held.without(x).child(q, k) == e.child(q, k));
                    }
                }
            }
        }
    } else {
        assert forall|i: int| e.live(i) implies e.on_file(i)
            && #[trigger] e.arena[i]->Some_0.block_id.0 < less.len() && less[e.node(i).block_id.0 as int]
            == e.node(i).rc + 1 by {
            assert(t.arena[i] is Some);
            assert(t.node(i).block_id.0 != id.0);
        }
        assert(keeps(t, e, Seq::empty()));
    }
    lemma_part(t, hand, off, 0, m);
    assert(hand.subrange(0, m) =~= front);
    lemma_list_kept(t, e, Seq::empty(), front, off);
    assert forall|x: u64| lists.contains_key(x) implies list_wf(e, #[trigger] lists[x], 0)
        && in_range(lists[x], less.len()) by {
        lemma_list_kept(t, e, Seq::empty(), lists[x], 0);
    }
    assert forall|j: int| 0 <= j < front.len() implies #[trigger] front[j].0 < less.len() by {
        assert(front[j] == hand[j]);
    }
    assert forall|i: usize| i < less.len() implies #[trigger] less[i as int] == named(
        lists,
        front,
        BlockId(i),
    ) by {
        assert(rc[i as int] == named(lists, hand, BlockId(i)));
        if front.contains(BlockId(i)) {
            let j = choose|j: int| 0 <= j < front.len() && front[j] == BlockId(i);
            assert(hand[j] == BlockId(i));
        }
        if hand.contains(BlockId(i)) && i != id.0 {
            let j = choose|j: int| 0 <= j < hand.len() && hand[j] == BlockId(i);
            assert(front[j] == BlockId(i));
        }
    }
}

/// The node of the last block on `hand` has no children if nobody holds it.
proof fn lemma_leaf(
    t: TrieView,
    rc: Seq<u32>,
    lists: Map<u64, Seq<BlockId>>,
    hand: Seq<BlockId>,
    off: int,
)
    requires
        t.wf(),
        balanced(t, rc, lists, hand, off),
        hand.len() > 0,
        t.by_block.contains_key(hand.last().0),
        t.node(t.by_block[hand.last().0] as int).rc == 0,
    ensures
        t.node(t.by_block[hand.last().0] as int).children.dom() == Set::<u64>::empty(),
{
    let id = hand.last();
    let m = hand.len() - 1;
    let x = t.by_block[id.0];
    let kids = t.node(x as int).children;
    assert(hand[m] == id);
    assert(t.live(x as int));
    assert(t.arena[x as int] is Some);
    assert(t.node(x as int).block_id == id);
    assert(BlockId(id.0) == id);
    assert(rc[id.0 as int] == named(lists, hand, id));
    assert(hand.contains(id));
    assert(listed_by(lists, id).len() == 0);
    assert forall|k: u64| !kids.dom().contains(k) by {
        if kids.dom().contains(k) {
            let c = t.child(Some(x), k)->Some_0;
            assert(t.child(Some(x), k) == Some(c));
            assert(t.live(c as int));
            assert(t.arena[c as int] is Some);
            assert(t.linked(c as int));
            let cb = t.node(c as int).block_id;
            assert(BlockId(cb.0) == cb);
            assert(t.by_block[cb.0] == c);
            assert(rc[cb.0 as int] >= 1);
            assert(rc[cb.0 as int] == named(lists, hand, cb));
            if hand.contains(cb) {
                let j = choose|j: int| 0 <= j < hand.len() && hand[j] == cb;
                assert(t.node(c as int).depth == off + j + 1);
                assert(t.node(x as int).depth == off + m + 1);
            } else {
                let owners = listed_by(lists, cb);
                assert(owners.len() > 0);
                let y = owners.choose();
                assert(owners.contains(y));
                let j = choose|j: int| 0 <= j < lists[y].len() && lists[y][j] == cb;
                assert(list_wf(t, lists[y], 0));
                assert(t.by_block.contains_key(lists[y][j].0));
                assert(j > 0);
                assert(lists[y][j - 1] == id);
                assert(lists[y].contains(id));
                assert(listed_by(lists, id).contains(y));
                vstd::set_lib::lemma_set_empty_equivalency_len(listed_by(lists, id));
            }
        }
    }
    assert(kids.dom() =~= Set::empty());
}

/// Releasing all of the hand, from its end, keeps the count: `less` counts each of
/// its blocks once less.
proof fn lemma_release_all(
    t: TrieView,
    rc: Seq<u32>,
    lists: Map<u64, Seq<BlockId>>,
    hand: Seq<BlockId>,
    off: int,
    less: Seq<u32>,
)
    requires
        t.wf(),
        balanced(t, rc, lists, hand, off),
        less.len() == rc.len(),
        rc.len() <= usize::MAX,
        forall|i: usize|
            #![trigger less[i as int]]
            i < rc.len() ==> less[i as int] == rc[i as int] - if hand.contains(BlockId(i)) {
                1int
            } else {
                0int
            },
    ensures
        t.released_all(hand).wf(),
        balanced(t.released_all(hand), less, lists, Seq::empty(), 0),
    decreases hand.len(),
{
    if hand.len() == 0 {
        assert(hand =~= Seq::empty());
        assert forall|i: int| 0 <= i < rc.len() implies less[i] == rc[i] by {
            assert(less[(i as usize) as int] == rc[i]);
        }
        assert(less =~= rc);
    } else {
        let id = hand.last();
        let front = hand.drop_last();
        let m = hand.len() - 1;
        assert(hand[m] == id);
        lemma_release_one(t, rc, lists, hand, off);
        let mid = rc.update(id.0 as int, (rc[id.0 as int] - 1) as u32);
        assert forall|i: usize| i < mid.len() implies #[trigger] less[i as int] == mid[i as int]
            - if front.contains(BlockId(i)) {
            1int
        } else {
            0int
        } by {
            assert(BlockId(id.0) == id);
            if front.contains(BlockId(i)) {
                let j = choose|j: int| 0 <= j < front.len() && front[j] == BlockId(i);
                assert(hand[j] == BlockId(i));
                assert(hand[j] != hand[m]);
            }
            if hand.contains(BlockId(i)) {
                let j = choose|j: int| 0 <= j < hand.len() && hand[j] == BlockId(i);
                if j < m {
                    assert(front[j] == BlockId(i));
                }
            }
        }
        lemma_release_all(t.released(id), mid, lists, front, off, less);
    }
}

/// One owner takes what is in hand for what it lists: from the first `m` blocks on,
/// which both have in common, the lists trade places.
pub proof fn lemma_trade(
    t: TrieView,
    rc: Seq<u32>,
    lists: Map<u64, Seq<BlockId>>,
    x: u64,
    list: Seq<BlockId>,
    m: int,
)
    requires
        balanced(t, rc, lists, list.skip(m), m),
        list_wf(t, list, 0),
        ({
            let had = list_of(lists, x);
            &&& 0 <= m <= list.len()
            &&& m <= had.len()
            &&& list.take(m) == had.take(m)
        }),
    ensures
        ({
            let had = list_of(lists, x);
            balanced(t, rc, lists.insert(x, list), had.skip(m), m)
        }),
{
    let had = list_of(lists, x);
    let hand = list.skip(m);
    let rest = had.skip(m);
    let next = lists.insert(x, list);
    assert(list_wf(t, had, 0));
    lemma_part(t, had, 0, m, had.len() as int);
    assert(had.subrange(m, had.len() as int) =~= rest);
    assert forall|j: int| 0 <= j < rest.len() implies #[trigger] rest[j].0 < rc.len() by {
        assert(rest[j] == had[m + j]);
        assert(in_range(lists[x], rc.len()));
    }
    assert forall|j: int| 0 <= j < list.len() implies #[trigger] list[j].0 < rc.len() by {
        if j < m {
            assert(list.take(m)[j] == had.take(m)[j]);
            assert(in_range(lists[x], rc.len()));
            assert(had[j].0 < rc.len());
        } else {
            assert(hand[j - m] == list[j]);
        }
    }
    assert forall|y: u64| next.contains_key(y) implies list_wf(t, #[trigger] next[y], 0)
        && in_range(next[y], rc.len()) by {
        if y != x {
            assert(lists.contains_key(y));
            assert(list_wf(t, lists[y], 0));
        }
    }
    assert forall|i: usize| i < rc.len() implies #[trigger] rc[i as int] == named(
        next,
        rest,
        BlockId(i),
    ) by {
        let id = BlockId(i);
        assert(rc[i as int] == named(lists, hand, id));
        lemma_halves(had, m, id);
        lemma_halves(list, m, id);
        let before = listed_by(lists, id);
        let after = listed_by(next, id);
        if list.contains(id) {
            assert(after =~= before.insert(x));
        } else {
            assert(after =~= before.remove(x));
        }
        assert(before.contains(x) <==> had.contains(id));
    }
}

/// A block on a list without repetition is among its first `m` or among the rest.
proof fn lemma_halves(list: Seq<BlockId>, m: int, id: BlockId)
    requires
        list.no_duplicates(),
        0 <= m <= list.len(),
    ensures
        list.contains(id) <==> list.take(m).contains(id) || list.skip(m).contains(id),
        !(list.take(m).contains(id) && list.skip(m).contains(id)),
{
    if list.take(m).contains(id) {
        let j = choose|j: int| 0 <= j < m && list.take(m)[j] == id;
        assert(list[j] == id);
    }
    if list.skip(m).contains(id) {
        let j = choose|j: int| 0 <= j < list.len() - m && list.skip(m)[j] == id;
        assert(list[j + m] == id);
    }
    if list.contains(id) {
        let j = choose|j: int| 0 <= j < list.len() && list[j] == id;
        if j < m {
            assert(list.take(m)[j] == id);
        } else {
            assert(list.skip(m)[j - m] == id);
        }
    }
}

/// Every reference of the cache is accounted for: each block is referenced once for
/// each list that names it, and once more if it is in hand.
pub open spec fn accounted(
    c: CacheView,
    lists: Map<u64, Seq<BlockId>>,
    hand: Seq<BlockId>,
    off: int,
) -> bool {
    c.tidy() && balanced(c.trie, c.slab.rc, lists, hand, off)
}

/// A change of clocks keeps the count, and every list.
proof fn lemma_same_counted(t: TrieView, e: TrieView, rc: Seq<u32>)
    requires
        t.wf(),
        counted(t, rc),
        t.same_shape(e),
        forall|i: int|
            #![trigger e.arena[i]]
            t.live(i) ==> e.node(i).rc == t.node(i).rc,
    ensures
        counted(e, rc),
        keeps(t, e, Seq::empty()),
{
    lemma_same_kept(t, e);
    assert forall|i: int| e.live(i) implies e.on_file(i) && #[trigger] e.arena[i]->Some_0.block_id.0
        < rc.len() && rc[e.node(i).block_id.0 as int] == e.node(i).rc + 1 by {
        assert(t.arena[i] is Some);
        assert(t.live(i));
    }
}

/// A change of clocks and counters keeps every list.
proof fn lemma_same_kept(t: TrieView, e: TrieView)
    requires
        t.wf(),
        t.same_shape(e),
    ensures
        keeps(t, e, Seq::empty()),
{
    assert forall|b: usize| e.by_block.contains_key(b) implies {
        let x = #[trigger] e.by_block[b] as int;
        &&& t.by_block.contains_key(b)
        &&& t.by_block[b] == x
        &&& e.node(x).depth == t.node(x).depth
        &&& e.node(x).parent == t.node(x).parent
        &&& e.linked(x) ==> t.linked(x) && (t.node(x).parent matches Some(q) ==> e.node(
            q as int,
        ).block_id == t.node(q as int).block_id)
    } by {
        let x = t.by_block[b] as int;
        assert(t.live(x));
        assert(t.arena[x] is Some);
        if e.linked(x) {
            match e.node(x).parent {
                Some(q) => {
                    assert(e.live(q as int));
                    assert(t.arena[q as int] is Some);
                },
                None => {},
            }
        }
    }
}

/// What is kept by one change of the trie, kept for all lists and the count.
proof fn lemma_balanced_kept(
    t: TrieView,
    e: TrieView,
    rc: Seq<u32>,
    lists: Map<u64, Seq<BlockId>>,
    hand: Seq<BlockId>,
    off: int,
)
    requires
        balanced(t, rc, lists, hand, off),
        counted(e, rc),
        keeps(t, e, Seq::empty()),
    ensures
        balanced(e, rc, lists, hand, off),
{
    lemma_list_kept(t, e, Seq::empty(), hand, off);
    assert forall|x: u64| lists.contains_key(x) implies list_wf(e, #[trigger] lists[x], 0)
        && in_range(lists[x], rc.len()) by {
        lemma_list_kept(t, e, Seq::empty(), lists[x], 0);
    }
}

/// A lookup keeps the accounts.
pub proof fn lemma_looked(
    c: CacheView,
    b: nat,
    tokens: Seq<TokenId>,
    keys: Seq<u64>,
    lists: Map<u64, Seq<BlockId>>,
    hand: Seq<BlockId>,
    off: int,
)
    requires
        c.wf(b),
        accounted(c, lists, hand, off),
    ensures
        c.after_lookup(b, tokens, keys).wf(b),
        accounted(c.after_lookup(b, tokens, keys), lists, hand, off),
{
    let next = c.after_lookup(b, tokens, keys);
    assert(c.trie.same_shape(next.trie));
    c.lemma_same_shape_wf(next, b);
    lemma_same_counted(c.trie, next.trie, c.slab.rc);
    lemma_balanced_kept(c.trie, next.trie, c.slab.rc, lists, hand, off);
}

/// A lookup keeps the cache tidy.
pub proof fn lemma_looked_tidy(c: CacheView, b: nat, tokens: Seq<TokenId>, keys: Seq<u64>)
    requires
        c.wf(b),
        c.tidy(),
    ensures
        c.after_lookup(b, tokens, keys).wf(b),
        c.after_lookup(b, tokens, keys).tidy(),
        c.after_lookup(b, tokens, keys).found(b, tokens, keys) == c.found(b, tokens, keys),
{
    let next = c.after_lookup(b, tokens, keys);
    let blocks = tokens::blocks_of(tokens, b);
    assert(c.trie.same_shape(next.trie));
    c.lemma_same_shape_wf(next, b);
    lemma_same_counted(c.trie, next.trie, c.slab.rc);
    trie_laws::law_lookup_and_fork_keep(c.trie, keys, blocks, keys, blocks);
}

/// What a lookup finds is a well formed list of blocks in use.
pub proof fn lemma_found_list(c: CacheView, b: nat, tokens: Seq<TokenId>, keys: Seq<u64>)
    requires
        c.wf(b),
        c.tidy(),
    ensures
        list_wf(c.trie, c.found(b, tokens, keys), 0),
        in_range(c.found(b, tokens, keys), c.slab.rc.len()),
        forall|j: int|
            #![trigger c.found(b, tokens, keys)[j]]
            0 <= j < c.found(b, tokens, keys).len() ==> {
                let id = c.found(b, tokens, keys)[j];
                &&& c.slab.has(id)
                &&& c.trie.by_block.contains_key(id.0)
                &&& c.trie.by_block[id.0] == c.trie.walk(keys, tokens::blocks_of(tokens, b))[j]
                &&& c.slab.rc[id.0 as int] == c.trie.node(c.trie.by_block[id.0] as int).rc + 1
            },
{
    let t = c.trie;
    let blocks = tokens::blocks_of(tokens, b);
    let path = t.walk(keys, blocks);
    let found = c.found(b, tokens, keys);
    t.lemma_walk_levels(None, keys, blocks, 0);
    t.lemma_walk_distinct(keys, blocks);
    c.lemma_found_has(b, tokens, keys);
    assert forall|j: int| 0 <= j < found.len() implies {
        let id = #[trigger] found[j];
        &&& c.trie.by_block.contains_key(id.0)
        &&& c.trie.by_block[id.0] == path[j]
        &&& c.slab.rc[id.0 as int] == c.trie.node(path[j] as int).rc + 1
    } by {
        assert(t.live(path[j] as int));
        assert(t.arena[path[j] as int] is Some);
    }
    assert forall|j: int, k: int| 0 <= j < k < found.len() implies found[j] != found[k] by {
        assert(path[j] != path[k]);
        assert(t.by_block[found[j].0] == path[j]);
        assert(t.by_block[found[k].0] == path[k]);
    }
    assert forall|j: int| 0 <= j < found.len() && t.by_block.contains_key(#[trigger] found[j].0) implies {
        let x = t.by_block[found[j].0] as int;
        &&& t.node(x).depth == j + 1
        &&& t.linked(x) ==> (t.node(x).parent matches Some(p) ==> j > 0 && (j > 0 ==> found[j - 1]
            == t.node(p as int).block_id))
    } by {
        assert(t.live(path[j] as int));
        trie_laws::lemma_walk_parent(t, None, keys, blocks, 0, j);
        if j > 0 {
            assert(found[j - 1] == t.node(path[j - 1] as int).block_id);
        }
    }
    assert forall|j: int| 0 <= j < found.len() implies #[trigger] found[j].0 < c.slab.rc.len() by {
        assert(c.slab.has(found[j]));
    }
}

/// A successful insertion keeps the cache tidy, and every list that names only
/// blocks in use. The new blocks are referenced once each.
pub proof fn lemma_insert_tidy(
    c: CacheView,
    b: nat,
    tokens: Seq<TokenId>,
    data: Seq<Seq<u8>>,
    keys: Seq<u64>,
)
    requires
        0 < b,
        c.wf(b),
        c.tidy(),
        c.after_insert(b, tokens, data, keys).1 is Ok,
    ensures
        ({
            let end = c.after_insert(b, tokens, data, keys).0;
            &&& end.trie.arena.len() <= usize::MAX
            &&& end.wf(b)
            &&& end.tidy()
            &&& forall|list: Seq<BlockId>, off: int|
                list_wf(c.trie, list, off) && (forall|j: int|
                    #![trigger list[j]]
                    0 <= j < list.len() ==> c.slab.has(list[j]) && c.slab.rc[list[j].0 as int] > 0)
                    ==> #[trigger] list_wf(end.trie, list, off)
        }),
{
    let blocks = tokens::blocks_of(tokens, b);
    let cached = c.found(b, tokens, keys);
    let k = cached.len() as int;
    let end = c.after_insert(b, tokens, data, keys).0;
    let looked = c.after_lookup(b, tokens, keys);
    lemma_looked_tidy(c, b, tokens, keys);
    c.lemma_found_has(b, tokens, keys);
    cache_laws::lemma_filled(c, b, tokens, data, keys);
    let fresh = cache::fill(c.slab, b, data, k, Seq::empty()).1->Ok_0;
    let all = cached + fresh;
    let t = looked.trie;
    let s = t.ticked();
    let path = t.walk(keys, blocks);
    t.lemma_walk_levels(None, keys, blocks, 0);
    trie_laws::lemma_walk_end(t, None, keys, blocks, 0);
    trie_laws::law_lookup_and_fork_keep(c.trie, keys, blocks, keys, blocks);
    t.lemma_same_shape_wf(s);
    let rc = end.slab.rc;
    assert(counted(s, rc)) by {
        assert forall|i: int| s.live(i) implies s.on_file(i) && #[trigger] s.arena[i]->Some_0.block_id.0
            < rc.len() && rc[s.node(i).block_id.0 as int] == s.node(i).rc + 1 by {
            assert(t.arena[i] is Some);
            let id = s.node(i).block_id;
            assert(c.slab.rc[id.0 as int] > 0);
            assert(BlockId(id.0) == id);
            if fresh.contains(id) {
                let j = choose|j: int| 0 <= j < fresh.len() && fresh[j] == id;
                assert(c.slab.rc[fresh[j].0 as int] == 0);
            }
            assert(rc[id.0 as int] == c.slab.rc[id.0 as int]);
        }
    }
    assert forall|j: int| k <= j < all.len() implies !s.by_block.contains_key(#[trigger] all[j].0)
        && all[j].0 < rc.len() && rc[all[j].0 as int] == 1 by {
        assert(fresh[j - k] == all[j]);
        if s.by_block.contains_key(all[j].0) {
            let x = s.by_block[all[j].0] as int;
            assert(t.by_block[all[j].0] == x);
            assert(t.live(x));
            assert(t.arena[x] is Some);
        }
    }
    assert forall|i: int, j: int| k <= i < j < all.len() implies all[i] != all[j] by {
        assert(fresh[i - k] == all[i]);
        assert(fresh[j - k] == all[j]);
    }
    lemma_chain_counted(s, rc, TrieView::end_of(path), keys, blocks, all, k);
    cache_laws::lemma_fill_wf(c, b, tokens, data, keys);
    cache_laws::law_insert_then_lookup(c, b, tokens, data, keys);
    let found = end.found(b, tokens, keys);
    trie_laws::law_insert_then_lookup(t, keys, blocks, all);
    assert(all.skip(k) =~= fresh);
    assert(found == cached + fresh);
    assert forall|list: Seq<BlockId>, off: int|
        list_wf(c.trie, list, off) && (forall|j: int|
            #![trigger list[j]]
            0 <= j < list.len() ==> c.slab.has(list[j]) && c.slab.rc[list[j].0 as int]
                > 0) implies #[trigger] list_wf(end.trie, list, off) by {
        lemma_same_kept(c.trie, s);
        lemma_list_kept(c.trie, s, Seq::empty(), list, off);
        assert(avoids(list, all, k)) by {
            assert forall|j: int, h: int|
                #![trigger list[j], all[h]]
                0 <= j < list.len() && k <= h < all.len() implies list[j] != all[h] by {
                assert(fresh[h - k] == all[h]);
            }
        }
    }
    assert forall|i: int| 0 <= i < end.slab.capacity && end.slab.rc[i] > 0 implies
        #[trigger] end.slab.committed[i] by {
        let id = BlockId(i as usize);
        if fresh.contains(id) {
            let j = choose|j: int| 0 <= j < fresh.len() && fresh[j] == id;
            assert(found[j + k] == id);
            assert(end.slab.read(found[j + k]) == Ok::<Seq<u8>, BlockError>(data[j + k]));
        } else {
            assert(end.slab.rc[(i as usize) as int] == c.slab.rc[i]);
            assert(c.slab.committed[i]);
            assert(end.slab.read(id) == c.slab.read(id));
        }
    }
}

/// A block that is on a list or in hand is in use.
pub proof fn lemma_listed_in_use(
    c: CacheView,
    lists: Map<u64, Seq<BlockId>>,
    hand: Seq<BlockId>,
    off: int,
    b: nat,
)
    requires
        c.wf(b),
        accounted(c, lists, hand, off),
    ensures
        forall|x: u64, j: int|
            #![trigger lists[x][j]]
            lists.contains_key(x) && 0 <= j < lists[x].len() ==> c.slab.has(lists[x][j])
                && c.slab.rc[lists[x][j].0 as int] > 0,
        forall|j: int|
            #![trigger hand[j]]
            0 <= j < hand.len() ==> c.slab.has(hand[j]) && c.slab.rc[hand[j].0 as int] > 0,
{
    assert forall|x: u64, j: int|
        #![trigger lists[x][j]]
        lists.contains_key(x) && 0 <= j < lists[x].len() implies c.slab.has(lists[x][j])
        && c.slab.rc[lists[x][j].0 as int] > 0 by {
        let id = lists[x][j];
        assert(in_range(lists[x], c.slab.rc.len()));
        assert(BlockId(id.0) == id);
        assert(c.slab.rc[id.0 as int] == named(lists, hand, id));
        assert(lists[x].contains(id));
        assert(listed_by(lists, id).contains(x));
        vstd::set_lib::lemma_set_empty_equivalency_len(listed_by(lists, id));
    }
    assert forall|j: int| 0 <= j < hand.len() implies c.slab.has(#[trigger] hand[j])
        && c.slab.rc[hand[j].0 as int] > 0 by {
        let id = hand[j];
        assert(BlockId(id.0) == id);
        assert(c.slab.rc[id.0 as int] == named(lists, hand, id));
        assert(hand.contains(id));
    }
}

/// After a successful insertion the blocks that were not cached before are in hand.
proof fn lemma_insert_accounted(
    c: CacheView,
    b: nat,
    tokens: Seq<TokenId>,
    data: Seq<Seq<u8>>,
    keys: Seq<u64>,
    lists: Map<u64, Seq<BlockId>>,
)
    requires
        0 < b,
        c.wf(b),
        accounted(c, lists, Seq::empty(), 0),
        c.after_insert(b, tokens, data, keys).1 is Ok,
    ensures
        ({
            let end = c.after_insert(b, tokens, data, keys).0;
            let k = c.found(b, tokens, keys).len() as int;
            &&& end.wf(b)
            &&& accounted(end, lists, end.found(b, tokens, keys).skip(k), k)
        }),
{
    let end = c.after_insert(b, tokens, data, keys).0;
    let k = c.found(b, tokens, keys).len() as int;
    lemma_insert_tidy(c, b, tokens, data, keys);
    cache_laws::law_insert_then_lookup(c, b, tokens, data, keys);
    let found = end.found(b, tokens, keys);
    let fresh = found.skip(k);
    lemma_found_list(end, b, tokens, keys);
    lemma_part(end.trie, found, 0, k, found.len() as int);
    assert(found.subrange(k, found.len() as int) =~= fresh);
    lemma_listed_in_use(c, lists, Seq::empty(), 0, b);
    let rc = end.slab.rc;
    assert forall|x: u64| lists.contains_key(x) implies list_wf(end.trie, #[trigger] lists[x], 0)
        && in_range(lists[x], rc.len()) by {
        assert(list_wf(c.trie, lists[x], 0));
        assert(in_range(lists[x], c.slab.rc.len()));
        assert forall|j: int| 0 <= j < lists[x].len() implies c.slab.has(#[trigger] lists[x][j])
            && c.slab.rc[lists[x][j].0 as int] > 0 by {}
    }
    assert forall|j: int| 0 <= j < fresh.len() implies #[trigger] fresh[j].0 < rc.len() by {
        assert(fresh[j] == found[k + j]);
    }
    assert forall|i: usize| i < rc.len() implies #[trigger] rc[i as int] == named(
        lists,
        fresh,
        BlockId(i),
    ) by {
        let id = BlockId(i);
        assert(c.slab.rc[i as int] == named(lists, Seq::empty(), id));
        assert(!Seq::<BlockId>::empty().contains(id));
        if fresh.contains(id) {
            let j = choose|j: int| 0 <= j < fresh.len() && fresh[j] == id;
            assert(c.slab.rc[fresh[j].0 as int] == 0);
            assert(rc[fresh[j].0 as int] == 1);
        }
    }
}

/// A failed insertion keeps the accounts.
proof fn lemma_insert_failed(
    c: CacheView,
    b: nat,
    tokens: Seq<TokenId>,
    data: Seq<Seq<u8>>,
    keys: Seq<u64>,
    lists: Map<u64, Seq<BlockId>>,
)
    requires
        0 < b,
        c.wf(b),
        accounted(c, lists, Seq::empty(), 0),
        c.after_insert(b, tokens, data, keys).1 is Err,
    ensures
        c.after_insert(b, tokens, data, keys).0.wf(b),
        accounted(c.after_insert(b, tokens, data, keys).0, lists, Seq::empty(), 0),
{
    let end = c.after_insert(b, tokens, data, keys).0;
    cache_laws::law_failed_insert_keeps(c, b, tokens, data, keys, tokens, keys);
    if CacheView::fits(b, tokens, data) {
        lemma_looked(c, b, tokens, keys, lists, Seq::empty(), 0);
        cache_laws::lemma_failed_fill_wf(c, b, tokens, data, keys);
        let rc = end.slab.rc;
        assert forall|i: int| 0 <= i < c.slab.capacity implies rc[i] == c.slab.rc[i] by {
            assert(!Seq::<BlockId>::empty().contains(BlockId(i as usize)));
            assert(rc[(i as usize) as int] == c.slab.rc[i]);
        }
        assert(rc =~= c.slab.rc);
        assert forall|i: int| 0 <= i < end.slab.capacity && end.slab.rc[i] > 0 implies
            #[trigger] end.slab.committed[i] by {
            let id = BlockId(i as usize);
            assert(c.slab.committed[i]);
            assert(end.slab.read(id) == c.slab.read(id));
        }
    }
}

/// Holding blocks in use, distinct and not in hand, puts them in hand, before what
/// is there.
proof fn lemma_retain_accounted(
    c: CacheView,
    b: nat,
    ids: Seq<BlockId>,
    lists: Map<u64, Seq<BlockId>>,
    hand: Seq<BlockId>,
    off: int,
    start: int,
)
    requires
        c.wf(b),
        accounted(c, lists, hand, off),
        0 <= start,
        list_wf(c.trie, ids + hand, start),
        forall|j: int|
            #![trigger ids[j]]
            0 <= j < ids.len() ==> c.slab.has(ids[j]) && 0 < c.slab.rc[ids[j].0 as int] < u32::MAX,
    ensures
        c.trie.can_retain(ids),
        ids.no_duplicates(),
        c.after_retain(ids).wf(b),
        accounted(c.after_retain(ids), lists, ids + hand, start),
        forall|id: BlockId| #[trigger]
            c.after_retain(ids).slab.read(id) == c.slab.read(id),
{
    let end = c.after_retain(ids);
    let all = ids + hand;
    let t = c.trie;
    let e = end.trie;
    let rc = end.slab.rc;
    assert forall|j: int, k: int| 0 <= j < k < ids.len() implies ids[j] != ids[k] by {
        assert(all[j] == ids[j] && all[k] == ids[k]);
    }
    lemma_can_retain(c, b, ids);
    t.lemma_retained_all(ids);
    cache_laws::lemma_incref_all(c.slab, b, ids);
    assert forall|i: int| e.live(i) implies e.on_file(i) && #[trigger] e.arena[i]->Some_0.block_id.0
        < rc.len() && rc[e.node(i).block_id.0 as int] == e.node(i).rc + 1 by {
        assert(t.arena[i] is Some);
        assert(t.live(i));
        let id = t.node(i).block_id;
        assert(BlockId(id.0) == id);
        if ids.contains(id) {
            let j = choose|j: int| 0 <= j < ids.len() && ids[j] == id;
            assert(rc[ids[j].0 as int] == c.slab.rc[ids[j].0 as int] + 1);
        } else {
            assert(rc[id.0 as int] == c.slab.rc[id.0 as int]);
        }
    }
    lemma_same_kept(t, e);
    lemma_list_kept(t, e, Seq::empty(), all, start);
    assert forall|x: u64| lists.contains_key(x) implies list_wf(e, #[trigger] lists[x], 0)
        && in_range(lists[x], rc.len()) by {
        lemma_list_kept(t, e, Seq::empty(), lists[x], 0);
    }
    assert forall|j: int| 0 <= j < all.len() implies #[trigger] all[j].0 < rc.len() by {
        if j < ids.len() {
            assert(all[j] == ids[j]);
        } else {
            assert(all[j] == hand[j - ids.len()]);
        }
    }
    assert forall|i: usize| i < rc.len() implies #[trigger] rc[i as int] == named(
        lists,
        all,
        BlockId(i),
    ) by {
        let id = BlockId(i);
        assert(c.slab.rc[i as int] == named(lists, hand, id));
        lemma_halves(all, ids.len() as int, id);
        assert(all.take(ids.len() as int) =~= ids);
        assert(all.skip(ids.len() as int) =~= hand);
        if ids.contains(id) {
            let j = choose|j: int| 0 <= j < ids.len() && ids[j] == id;
            assert(rc[ids[j].0 as int] == c.slab.rc[ids[j].0 as int] + 1);
        }
    }
    assert(end.slab.sound()) by {
        assert forall|i: usize| i < end.slab.capacity implies (#[trigger] end.slab.rc[i as int] == 0
            <==> end.slab.free.contains(BlockId(i))) by {
            assert(c.slab.rc[i as int] == 0 <==> c.slab.free.contains(BlockId(i)));
            if ids.contains(BlockId(i)) {
                let j = choose|j: int| 0 <= j < ids.len() && ids[j] == BlockId(i);
                assert(rc[ids[j].0 as int] == c.slab.rc[ids[j].0 as int] + 1);
            }
        }
        assert forall|i: int| 0 <= i < end.slab.capacity && end.slab.rc[i] == 0 implies
            !#[trigger] end.slab.committed[i] by {
            assert(end.slab.rc[(i as usize) as int] == 0);
            if ids.contains(BlockId(i as usize)) {
                let j = choose|j: int| 0 <= j < ids.len() && ids[j] == BlockId(i as usize);
                assert(rc[ids[j].0 as int] == c.slab.rc[ids[j].0 as int] + 1);
            }
            assert(!c.slab.committed[i]);
        }
    }
    assert forall|i: int| 0 <= i < end.slab.capacity && end.slab.rc[i] > 0 implies
        #[trigger] end.slab.committed[i] by {
        if !ids.contains(BlockId(i as usize)) {
            assert(end.slab.rc[(i as usize) as int] == c.slab.rc[i]);
        } else {
            let j = choose|j: int| 0 <= j < ids.len() && ids[j] == BlockId(i as usize);
            assert(c.slab.rc[ids[j].0 as int] > 0);
        }
        assert(c.slab.committed[i]);
    }
}

/// Where the counters of the slab have room, so have those of the trie.
pub proof fn lemma_can_retain(c: CacheView, b: nat, ids: Seq<BlockId>)
    requires
        c.wf(b),
        c.tidy(),
        forall|j: int|
            #![trigger ids[j]]
            0 <= j < ids.len() ==> c.slab.has(ids[j]) && c.slab.rc[ids[j].0 as int] < u32::MAX,
    ensures
        c.trie.can_retain(ids),
{
    assert forall|j: int|
        0 <= j < ids.len() && c.trie.by_block.contains_key(#[trigger] ids[j].0) implies c.trie.node(
        c.trie.by_block[ids[j].0] as int,
    ).rc < u32::MAX by {
        let x = c.trie.by_block[ids[j].0] as int;
        assert(c.trie.live(x));
        assert(c.trie.arena[x] is Some);
    }
}

/// Releasing all that is in hand settles the accounts. No block on another list
/// changes.
pub proof fn lemma_release_accounted(
    c: CacheView,
    b: nat,
    lists: Map<u64, Seq<BlockId>>,
    hand: Seq<BlockId>,
    off: int,
)
    requires
        c.wf(b),
        accounted(c, lists, hand, off),
    ensures
        c.after_release(hand).wf(b),
        accounted(c.after_release(hand), lists, Seq::empty(), 0),
        cache_laws::given_back(c.slab, c.after_release(hand).slab, hand),
        forall|x: u64, id: BlockId|
            #![trigger lists[x].contains(id)]
            lists.contains_key(x) && lists[x].contains(id) ==> c.after_release(hand).slab.read(id)
                == c.slab.read(id),
{
    let end = c.after_release(hand);
    let rc = end.slab.rc;
    lemma_listed_in_use(c, lists, hand, off, b);
    cache_laws::law_release(c, b, hand);
    cache_laws::lemma_release_wf(c, b, hand);
    assert forall|i: usize| i < c.slab.rc.len() implies #[trigger] rc[i as int] == c.slab.rc[i as int]
        - if hand.contains(BlockId(i)) {
        1int
    } else {
        0int
    } by {
        if hand.contains(BlockId(i)) {
            let j = choose|j: int| 0 <= j < hand.len() && hand[j] == BlockId(i);
            assert(rc[hand[j].0 as int] == c.slab.rc[hand[j].0 as int] - 1);
        }
    }
    lemma_release_all(c.trie, c.slab.rc, lists, hand, off, rc);
    assert forall|x: u64, id: BlockId|
        #![trigger lists[x].contains(id)]
        lists.contains_key(x) && lists[x].contains(id) implies end.slab.read(id) == c.slab.read(
        id,
    ) by {
        let k = choose|k: int| 0 <= k < lists[x].len() && lists[x][k] == id;
        assert(c.slab.has(lists[x][k]));
        if hand.contains(id) {
            let j = choose|j: int| 0 <= j < hand.len() && hand[j] == id;
            assert(BlockId(id.0) == id);
            assert(rc[id.0 as int] == named(lists, Seq::empty(), id));
            assert(listed_by(lists, id).contains(x));
            vstd::set_lib::lemma_set_empty_equivalency_len(listed_by(lists, id));
            assert(end.slab.read(hand[j]) == c.slab.read(hand[j]));
        }
    }
    assert forall|i: int| 0 <= i < end.slab.capacity && end.slab.rc[i] > 0 implies
        #[trigger] end.slab.committed[i] by {
        let id = BlockId(i as usize);
        assert(rc[(i as usize) as int] == rc[i]);
        assert(c.slab.committed[i]);
        if hand.contains(id) {
            let j = choose|j: int| 0 <= j < hand.len() && hand[j] == id;
            assert(end.slab.read(hand[j]) == c.slab.read(hand[j]));
        }
        assert(end.slab.read(id) == c.slab.read(id));
    }
}

/// A fork of blocks that can be counted once more puts them in hand. Nothing that
/// can be read changes.
pub proof fn lemma_fork_accounted(
    c: CacheView,
    b: nat,
    tokens: Seq<TokenId>,
    keys: Seq<u64>,
    lists: Map<u64, Seq<BlockId>>,
)
    requires
        c.wf(b),
        accounted(c, lists, Seq::empty(), 0),
        c.can_share(b, tokens, keys),
    ensures
        c.can_fork(b, tokens, keys),
        c.after_fork(b, tokens, keys).wf(b),
        accounted(c.after_fork(b, tokens, keys), lists, c.found(b, tokens, keys), 0),
        list_wf(c.after_fork(b, tokens, keys).trie, c.found(b, tokens, keys), 0),
        forall|id: BlockId| #[trigger]
            c.after_fork(b, tokens, keys).slab.read(id) == c.slab.read(id),
{
    let blocks = tokens::blocks_of(tokens, b);
    let ids = c.found(b, tokens, keys);
    let path = c.trie.walk(keys, blocks);
    let end = c.after_fork(b, tokens, keys);
    let mid = c.after_retain(ids);
    lemma_found_list(c, b, tokens, keys);
    assert(ids + Seq::<BlockId>::empty() =~= ids);
    assert forall|j: int| 0 <= j < ids.len() implies c.slab.has(#[trigger] ids[j]) && 0
        < c.slab.rc[ids[j].0 as int] < u32::MAX by {
        assert(c.found(b, tokens, keys)[j] == ids[j]);
    }
    lemma_retain_accounted(c, b, ids, lists, Seq::empty(), 0, 0);
    lemma_can_fork(c, b, tokens, keys);
    c.trie.lemma_retained_all(ids);
    c.trie.lemma_walk_levels(None, keys, blocks, 0);
    assert(mid.trie.same_shape(end.trie)) by {
        assert(c.trie.same_shape(end.trie));
    }
    assert forall|i: int| mid.trie.live(i) implies #[trigger] end.trie.arena[i]->Some_0.rc
        == mid.trie.node(i).rc by {
        assert(c.trie.arena[i] is Some);
        assert(c.trie.live(i));
        assert(mid.trie.arena[i] is Some);
        let id = c.trie.node(i).block_id;
        if path.contains(i as usize) {
            let j = choose|j: int| 0 <= j < path.len() && path[j] == i as usize;
            assert(ids[j] == id);
            assert(ids.contains(id));
        }
        if ids.contains(id) {
            let j = choose|j: int| 0 <= j < ids.len() && ids[j] == id;
            assert(c.trie.by_block[ids[j].0] == path[j]);
            assert(path.contains(path[j]));
        }
    }
    mid.lemma_same_shape_wf(end, b);
    lemma_same_counted(mid.trie, end.trie, mid.slab.rc);
    lemma_balanced_kept(mid.trie, end.trie, mid.slab.rc, lists, ids, 0);
}

/// Where the counters of the slab have room, a fork can be counted.
pub proof fn lemma_can_fork(c: CacheView, b: nat, tokens: Seq<TokenId>, keys: Seq<u64>)
    requires
        c.wf(b),
        c.tidy(),
        c.can_share(b, tokens, keys),
    ensures
        c.can_fork(b, tokens, keys),
{
    let blocks = tokens::blocks_of(tokens, b);
    let path = c.trie.walk(keys, blocks);
    lemma_found_list(c, b, tokens, keys);
    assert forall|j: int| 0 <= j < path.len() implies c.trie.node(
        #[trigger] c.trie.walk(keys, blocks)[j] as int,
    ).rc < u32::MAX by {
        let id = c.found(b, tokens, keys)[j];
        assert(c.trie.by_block[id.0] == path[j]);
    }
}

/// Two lists agree as far as their shared prefix goes, and no further.
pub proof fn lemma_shared_prefix(one: Seq<BlockId>, other: Seq<BlockId>)
    ensures
        cache::shared_prefix(one, other) <= one.len(),
        cache::shared_prefix(one, other) <= other.len(),
        ({
            let m = cache::shared_prefix(one, other) as int;
            &&& one.take(m) == other.take(m)
            &&& m < one.len() && m < other.len() ==> one[m] != other[m]
        }),
    decreases one.len(),
{
    let m = cache::shared_prefix(one, other) as int;
    if one.len() > 0 && other.len() > 0 && one[0] == other[0] {
        let (a, z) = (one.skip(1), other.skip(1));
        lemma_shared_prefix(a, z);
        assert forall|j: int| 0 <= j < m implies one[j] == other[j] by {
            if j > 0 {
                assert(a.take(m - 1)[j - 1] == z.take(m - 1)[j - 1]);
            }
        }
    }
    assert(one.take(m) =~= other.take(m));
}

/// What an owner that stores new tokens in place of its blocks keeps of them is
/// cached already: none of the blocks that were free before is among them.
pub proof fn lemma_kept_cached(
    c: CacheView,
    b: nat,
    tokens: Seq<TokenId>,
    data: Seq<Seq<u8>>,
    keys: Seq<u64>,
    owned: Seq<BlockId>,
)
    requires
        0 < b,
        c.wf(b),
        c.tidy(),
        c.after_insert(b, tokens, data, keys).1 is Ok,
        forall|j: int|
            #![trigger owned[j]]
            0 <= j < owned.len() ==> c.slab.has(owned[j]) && c.slab.rc[owned[j].0 as int] > 0,
    ensures
        cache::shared_prefix(
            c.after_insert(b, tokens, data, keys).0.found(b, tokens, keys),
            owned,
        ) <= c.found(b, tokens, keys).len(),
{
    let end = c.after_insert(b, tokens, data, keys).0;
    let k = c.found(b, tokens, keys).len() as int;
    let found = end.found(b, tokens, keys);
    let m = cache::shared_prefix(found, owned) as int;
    lemma_insert_tidy(c, b, tokens, data, keys);
    cache_laws::law_insert_then_lookup(c, b, tokens, data, keys);
    lemma_shared_prefix(found, owned);
    if m > k {
        assert(found.take(m)[k] == owned.take(m)[k]);
        assert(found.skip(k)[0] == owned[k]);
        assert(c.slab.rc[found.skip(k)[0].0 as int] == 0);
    }
}

/// What storing does: the owner `x` lists the blocks of its new tokens, and every
/// reference is still accounted for. The blocks that were cached hold what they
/// held, the others hold the data, and no block on another list changes. Where
/// storing fails, no list and no block on a list changes.
pub proof fn law_store(
    c: CacheView,
    b: nat,
    tokens: Seq<TokenId>,
    data: Seq<Seq<u8>>,
    keys: Seq<u64>,
    lists: Map<u64, Seq<BlockId>>,
    x: u64,
)
    requires
        0 < b,
        c.wf(b),
        accounted(c, lists, Seq::empty(), 0),
        c.can_share(b, tokens, keys),
    ensures
        ({
            let owned = list_of(lists, x);
            let cached = c.found(b, tokens, keys);
            let (end, result) = c.after_store(b, tokens, data, keys, owned);
            &&& end.wf(b)
            &&& match result {
                Ok(blocks) => {
                    &&& accounted(end, lists.insert(x, blocks), Seq::empty(), 0)
                    &&& blocks.len() == tokens::block_count(tokens, b)
                    &&& blocks.len() == data.len()
                    &&& cached.is_prefix_of(blocks)
                    &&& forall|j: int|
                        #![trigger blocks[j]]
                        0 <= j < blocks.len() ==> end.slab.read(blocks[j]) == if j < cached.len() {
                            c.slab.read(blocks[j])
                        } else {
                            Ok::<Seq<u8>, BlockError>(data[j])
                        }
                },
                Err(_) => accounted(end, lists, Seq::empty(), 0),
            }
            &&& forall|y: u64, id: BlockId|
                #![trigger lists[y].contains(id)]
                lists.contains_key(y) && lists[y].contains(id) && (y != x || result is Err)
                    ==> end.slab.read(id) == c.slab.read(id)
        }),
{
    let owned = list_of(lists, x);
    let cached = c.found(b, tokens, keys);
    let k = cached.len() as int;
    let (filled, inserted) = c.after_insert(b, tokens, data, keys);
    let (end, result) = c.after_store(b, tokens, data, keys, owned);
    lemma_listed_in_use(c, lists, Seq::empty(), 0, b);
    lemma_found_list(c, b, tokens, keys);
    match inserted {
        Err(_) => {
            lemma_insert_failed(c, b, tokens, data, keys, lists);
            cache_laws::law_failed_insert_keeps(c, b, tokens, data, keys, tokens, keys);
            assert forall|y: u64, id: BlockId|
                #![trigger lists[y].contains(id)]
                lists.contains_key(y) && lists[y].contains(id) implies end.slab.read(id)
                == c.slab.read(id) by {
                let j = choose|j: int| 0 <= j < lists[y].len() && lists[y][j] == id;
                assert(c.slab.has(lists[y][j]));
            }
        },
        Ok(_) => {
            lemma_insert_accounted(c, b, tokens, data, keys, lists);
            cache_laws::law_insert_then_lookup(c, b, tokens, data, keys);
            let blocks = filled.found(b, tokens, keys);
            let fresh = blocks.skip(k);
            let m = cache::shared_prefix(blocks, owned) as int;
            assert forall|j: int| 0 <= j < owned.len() implies c.slab.has(#[trigger] owned[j])
                && c.slab.rc[owned[j].0 as int] > 0 by {
                assert(c.slab.has(lists[x][j]));
            }
            lemma_kept_cached(c, b, tokens, data, keys, owned);
            lemma_shared_prefix(blocks, owned);
            lemma_looked(filled, b, tokens, keys, lists, fresh, k);
            let looked = filled.after_lookup(b, tokens, keys);
            lemma_looked_tidy(filled, b, tokens, keys);
            lemma_found_list(looked, b, tokens, keys);
            let held = blocks.subrange(m, k);
            let part = blocks.skip(m);
            lemma_part(looked.trie, blocks, 0, m, blocks.len() as int);
            assert(blocks.subrange(m, blocks.len() as int) =~= part);
            assert(held + fresh =~= part);
            assert forall|j: int| 0 <= j < held.len() implies looked.slab.has(#[trigger] held[j])
                && 0 < looked.slab.rc[held[j].0 as int] < u32::MAX by {
                let id = held[j];
                assert(cached =~= blocks.subrange(0, k));
                assert(id == cached[m + j]);
                assert(c.found(b, tokens, keys)[m + j] == id);
                assert(BlockId(id.0) == id);
                if fresh.contains(id) {
                    let h = choose|h: int| 0 <= h < fresh.len() && fresh[h] == id;
                    assert(c.slab.rc[fresh[h].0 as int] == 0);
                }
                assert(filled.slab.rc[id.0 as int] == c.slab.rc[id.0 as int]);
            }
            lemma_retain_accounted(looked, b, held, lists, fresh, k, m);
            let mid = looked.after_retain(held);
            looked.trie.lemma_retained_all(held);
            lemma_same_kept(looked.trie, mid.trie);
            lemma_list_kept(looked.trie, mid.trie, Seq::empty(), blocks, 0);
            lemma_trade(mid.trie, mid.slab.rc, lists, x, blocks, m);
            let next = lists.insert(x, blocks);
            let rest = owned.skip(m);
            lemma_release_accounted(mid, b, next, rest, m);
            assert(end == mid.after_release(rest));
            assert forall|j: int| 0 <= j < blocks.len() implies end.slab.read(#[trigger] blocks[j])
                == if j < k {
                c.slab.read(blocks[j])
            } else {
                Ok::<Seq<u8>, BlockError>(data[j])
            } by {
                assert(next[x].contains(blocks[j]));
                assert(end.slab.read(blocks[j]) == mid.slab.read(blocks[j]));
                assert(mid.slab.read(blocks[j]) == filled.slab.read(blocks[j]));
                if j < k {
                    assert(cached =~= blocks.subrange(0, k));
                    assert(c.found(b, tokens, keys)[j] == blocks[j]);
                }
            }
            assert forall|y: u64, id: BlockId|
                #![trigger lists[y].contains(id)]
                lists.contains_key(y) && lists[y].contains(id) && y != x implies end.slab.read(id)
                == c.slab.read(id) by {
                let j = choose|j: int| 0 <= j < lists[y].len() && lists[y][j] == id;
                assert(c.slab.has(lists[y][j]));
                assert(next[y].contains(id));
                assert(end.slab.read(id) == mid.slab.read(id));
                assert(mid.slab.read(id) == filled.slab.read(id));
                assert(filled.slab.read(id) == c.slab.read(id));
            }
        },
    }
}

/// An empty cache is accounted for by owners without blocks.
pub proof fn lemma_fresh_accounted(
    b: nat,
    capacity: usize,
    stride: usize,
    lists: Map<u64, Seq<BlockId>>,
)
    requires
        lists == Map::<u64, Seq<BlockId>>::empty(),
    ensures
        accounted(CacheView::fresh(b, capacity, stride), lists, Seq::empty(), 0),
{
    let c = CacheView::fresh(b, capacity, stride);
    assert(c.slab.sound()) by {
        assert forall|i: usize| i < capacity implies (#[trigger] c.slab.rc[i as int] == 0
            <==> c.slab.free.contains(BlockId(i))) by {
            assert(c.slab.free[i as int] == BlockId(i));
        }
    }
    assert forall|i: usize| i < c.slab.rc.len() implies #[trigger] c.slab.rc[i as int] == named(
        lists,
        Seq::empty(),
        BlockId(i),
    ) by {
        assert(listed_by(lists, BlockId(i)) =~= Set::empty());
    }
}

} // verus!
