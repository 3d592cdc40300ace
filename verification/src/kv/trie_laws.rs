//! What holds of the trie across its operations.

use crate::kv::trie_model::{NodeView, TrieView};
use crate::kv::BlockId;
use crate::kv::TokenId;
use vstd::prelude::*;

verus! {

/// Where a descent from `p` along `path` ends.
pub open spec fn end_from(p: Option<usize>, path: Seq<usize>) -> Option<usize> {
    if path.len() > 0 {
        Some(path.last())
    } else {
        p
    }
}

/// No block of one sequence has the key of a different block at the same place
/// of the other.
pub open spec fn no_collision(
    keys: Seq<u64>,
    blocks: Seq<Seq<TokenId>>,
    other_keys: Seq<u64>,
    other_blocks: Seq<Seq<TokenId>>,
) -> bool {
    forall|i: int|
        #![trigger blocks[i]]
        #![trigger other_blocks[i]]
        0 <= i < blocks.len() && i < other_blocks.len() && keys[i] == other_keys[i]
            ==> blocks[i] == other_blocks[i]
}

/// Every node of `t` is still in its slot in `e`, and so is every link but
/// perhaps the one from `p` under `key`.
spec fn extends(t: TrieView, e: TrieView, p: Option<usize>, key: u64) -> bool {
    &&& forall|x: int|
        #![trigger t.live(x)]
        t.live(x) ==> {
            &&& e.live(x)
            &&& e.node(x).tokens == t.node(x).tokens
            &&& e.node(x).block_id == t.node(x).block_id
            &&& e.node(x).depth == t.node(x).depth
        }
    &&& forall|q: Option<usize>, k: u64|
        #![trigger t.child(q, k)]
        #![trigger e.child(q, k)]
        t.known(q) && !(q == p && k == key) ==> e.child(q, k) == t.child(q, k)
}

/// A descent ends at a node of the trie, as deep as it is long, and goes no
/// further because the next block is not there.
pub proof fn lemma_walk_end(
    t: TrieView,
    p: Option<usize>,
    keys: Seq<u64>,
    blocks: Seq<Seq<TokenId>>,
    i: int,
)
    requires
        t.wf(),
        t.known(p),
        0 <= i,
    ensures
        ({
            let w = t.walk_from(p, keys, blocks, i);
            let k = i + w.len();
            &&& t.known(end_from(p, w))
            &&& t.depth_of(end_from(p, w)) == t.depth_of(p) + w.len()
            &&& k < blocks.len() ==> t.step(end_from(p, w), keys[k], blocks[k]) is None
        }),
    decreases blocks.len() - i,
{
    if i < blocks.len() {
        match t.step(p, keys[i], blocks[i]) {
            Some(c) => {
                assert(t.child(p, keys[i]) == Some(c));
                lemma_walk_end(t, Some(c), keys, blocks, i + 1);
                let rest = t.walk_from(Some(c), keys, blocks, i + 1);
                let w = t.walk_from(p, keys, blocks, i);
                assert(w =~= seq![c] + rest);
                if rest.len() > 0 {
                    assert(w.last() == rest.last());
                }
            },
            None => {},
        }
    }
}

/// Each node that a descent meets hangs from the one before it, by its key.
pub proof fn lemma_walk_parent(
    t: TrieView,
    p: Option<usize>,
    keys: Seq<u64>,
    blocks: Seq<Seq<TokenId>>,
    i: int,
    j: int,
)
    requires
        t.wf(),
        t.known(p),
        0 <= i,
        0 <= j < t.walk_from(p, keys, blocks, i).len(),
    ensures
        ({
            let w = t.walk_from(p, keys, blocks, i);
            let c = t.node(w[j] as int);
            &&& c.parent_key == keys[i + j]
            &&& c.parent == if j == 0 {
                p
            } else {
                Some(w[j - 1])
            }
        }),
    decreases blocks.len() - i,
{
    match t.step(p, keys[i], blocks[i]) {
        Some(c) => {
            assert(t.child(p, keys[i]) == Some(c));
            let rest = t.walk_from(Some(c), keys, blocks, i + 1);
            let w = t.walk_from(p, keys, blocks, i);
            assert(w =~= seq![c] + rest);
            if j > 0 {
                lemma_walk_parent(t, Some(c), keys, blocks, i + 1, j - 1);
                assert(w[j] == rest[j - 1]);
                if j > 1 {
                    assert(w[j - 1] == rest[j - 2]);
                }
            }
        },
        None => {},
    }
}

/// A descent that does not use the changed link goes on as before, and may go
/// further.
proof fn lemma_walk_extends(
    t: TrieView,
    e: TrieView,
    p: Option<usize>,
    key: u64,
    q: Option<usize>,
    keys: Seq<u64>,
    blocks: Seq<Seq<TokenId>>,
    i: int,
)
    requires
        t.wf(),
        t.known(q),
        extends(t, e, p, key),
        0 <= i,
        t.depth_of(q) == i,
        ({
            let d = t.depth_of(p) as int;
            d < blocks.len() && keys[d] == key ==> t.step(p, key, blocks[d]) is None
        }),
    ensures
        ({
            let w = t.walk_from(q, keys, blocks, i);
            e.walk_from(q, keys, blocks, i) == w + e.walk_from(
                end_from(q, w),
                keys,
                blocks,
                i + w.len(),
            )
        }),
    decreases blocks.len() - i,
{
    let w = t.walk_from(q, keys, blocks, i);
    if i < blocks.len() {
        match t.step(q, keys[i], blocks[i]) {
            Some(c) => {
                assert(t.child(q, keys[i]) == Some(c));
                assert(!(q == p && keys[i] == key));
                assert(e.child(q, keys[i]) == Some(c));
                assert(t.live(c as int));
                lemma_walk_extends(t, e, p, key, Some(c), keys, blocks, i + 1);
                let rest = t.walk_from(Some(c), keys, blocks, i + 1);
                assert(w =~= seq![c] + rest);
                assert(end_from(q, w) == end_from(Some(c), rest));
                assert(e.walk_from(q, keys, blocks, i) =~= w + e.walk_from(
                    end_from(q, w),
                    keys,
                    blocks,
                    i + w.len(),
                ));
            },
            None => {
                assert(w =~= Seq::empty());
                assert(e.walk_from(q, keys, blocks, i) =~= w + e.walk_from(q, keys, blocks, i));
            },
        }
    } else {
        assert(w =~= Seq::empty());
        assert(e.walk_from(q, keys, blocks, i) =~= w + e.walk_from(q, keys, blocks, i));
    }
}

/// Adding nodes never shrinks the arena.
proof fn lemma_chain_grows(
    t: TrieView,
    p: Option<usize>,
    keys: Seq<u64>,
    blocks: Seq<Seq<TokenId>>,
    ids: Seq<BlockId>,
    i: int,
)
    requires
        p matches Some(q) ==> q < t.arena.len(),
        forall|j: int| 0 <= j < t.free.len() ==> #[trigger] t.free[j] < t.arena.len(),
    ensures
        t.add_chain(p, keys, blocks, ids, i).arena.len() >= t.arena.len(),
        t.add_chain(p, keys, blocks, ids, i).clock == t.clock,
    decreases blocks.len() - i,
{
    if 0 <= i < blocks.len() {
        if t.free.len() > 0 {
            assert(t.next_slot() == t.free[t.free.len() - 1]);
        }
        lemma_chain_grows(
            t.add_node(p, keys[i], blocks[i], ids[i]),
            Some(t.next_slot()),
            keys,
            blocks,
            ids,
            i + 1,
        );
    }
}

/// A chain of new nodes is found by a descent, stands for the slab blocks it was
/// given, and changes no link but the one it hangs from.
proof fn lemma_chain(
    t: TrieView,
    p: Option<usize>,
    keys: Seq<u64>,
    blocks: Seq<Seq<TokenId>>,
    ids: Seq<BlockId>,
    i: int,
)
    requires
        t.wf(),
        t.known(p),
        0 <= i < blocks.len(),
        t.add_chain(p, keys, blocks, ids, i).arena.len() <= usize::MAX,
    ensures
        ({
            let e = t.add_chain(p, keys, blocks, ids, i);
            let w = e.walk_from(p, keys, blocks, i);
            &&& e.wf()
            &&& extends(t, e, p, keys[i])
            &&& w.len() == blocks.len() - i
            &&& forall|j: int|
                #![trigger w[j]]
                0 <= j < w.len() ==> {
                    &&& !t.live(w[j] as int)
                    &&& e.live(w[j] as int)
                    &&& e.node(w[j] as int).block_id == ids[i + j]
                    &&& e.node(w[j] as int).rc == 0
                    &&& e.node(w[j] as int).last_used == t.clock
                }
            &&& forall|j: int, key: u64|
                #![trigger e.child(Some(w[j]), key)]
                0 <= j < w.len() && e.child(Some(w[j]), key) is Some ==> i + j + 1 < blocks.len()
                    && key == keys[i + j + 1]
            &&& forall|x: int|
                #![trigger t.live(x)]
                t.live(x) ==> e.node(x).rc == t.node(x).rc && e.node(x).last_used == t.node(
                    x,
                ).last_used
        }),
    decreases blocks.len() - i,
{
    let slot = t.next_slot();
    let mid = t.add_node(p, keys[i], blocks[i], ids[i]);
    let e = t.add_chain(p, keys, blocks, ids, i);
    if t.free.len() > 0 {
        assert(slot == t.free[t.free.len() - 1]);
    }
    lemma_chain_grows(mid, Some(slot), keys, blocks, ids, i + 1);
    t.lemma_add_node_wf(p, keys[i], blocks[i], ids[i]);
    assert(mid.child(p, keys[i]) == Some(slot));
    assert(mid.children_of(Some(slot)) =~= Map::empty());
    assert(e == mid.add_chain(Some(slot), keys, blocks, ids, i + 1));
    assert(extends(t, mid, p, keys[i]));
    if i + 1 < blocks.len() {
        lemma_chain(mid, Some(slot), keys, blocks, ids, i + 1);
        assert(mid.live(slot as int));
        assert forall|x: int| #[trigger] t.live(x) implies e.live(x) && e.node(x).tokens == t.node(
            x,
        ).tokens && e.node(x).block_id == t.node(x).block_id && e.node(x).depth == t.node(x).depth
            && e.node(x).rc == t.node(x).rc && e.node(x).last_used == t.node(x).last_used by {
            assert(mid.live(x));
        }
        assert forall|q: Option<usize>, k: u64| t.known(q) && !(q == p && k == keys[i]) implies
            #[trigger] e.child(q, k) == t.child(q, k) by {
            assert(mid.known(q));
            assert(q != Some(slot));
            assert(mid.child(q, k) == t.child(q, k));
        }
        assert(extends(t, e, p, keys[i]));
        assert(e.child(p, keys[i]) == Some(slot));
        let rest = e.walk_from(Some(slot), keys, blocks, i + 1);
        let w = e.walk_from(p, keys, blocks, i);
        assert(w =~= seq![slot] + rest);
        assert forall|j: int| 0 <= j < w.len() implies {
            &&& !t.live(#[trigger] w[j] as int)
            &&& e.live(w[j] as int)
            &&& e.node(w[j] as int).block_id == ids[i + j]
            &&& e.node(w[j] as int).rc == 0
            &&& e.node(w[j] as int).last_used == t.clock
        } by {
            if j > 0 {
                assert(w[j] == rest[j - 1]);
                assert(!mid.live(rest[j - 1] as int));
                assert(t.live(w[j] as int) ==> mid.live(w[j] as int));
            }
        }
        assert forall|j: int, key: u64|
            #![trigger e.child(Some(w[j]), key)]
            0 <= j < w.len() && e.child(Some(w[j]), key) is Some implies i + j + 1 < blocks.len()
            && key == keys[i + j + 1] by {
            if j > 0 {
                assert(w[j] == rest[j - 1]);
                assert(e.child(Some(rest[j - 1]), key) is Some);
            } else if key != keys[i + 1] {
                assert(mid.known(Some(slot)));
                assert(mid.child(Some(slot), key) is None);
            }
        }
    } else {
        assert(e == mid);
        assert(e.walk_from(Some(slot), keys, blocks, i + 1) =~= Seq::empty());
        assert(e.walk_from(p, keys, blocks, i) =~= seq![slot]);
        assert forall|key: u64| #[trigger] e.child(Some(slot), key) is None by {
            assert(!mid.children_of(Some(slot)).contains_key(key));
        }
    }
}

/// Inserted, then found: a lookup of what was inserted finds all of it. Blocks
/// that were cached before keep their slab blocks, the others have the ones they
/// were inserted with.
pub proof fn law_insert_then_lookup(
    t: TrieView,
    keys: Seq<u64>,
    blocks: Seq<Seq<TokenId>>,
    ids: Seq<BlockId>,
)
    requires
        t.wf(),
        ids.len() == blocks.len(),
        t.after_insert(keys, blocks, ids).arena.len() <= usize::MAX,
    ensures
        t.after_insert(keys, blocks, ids).wf(),
        t.after_insert(keys, blocks, ids).found(keys, blocks) == t.found(keys, blocks) + ids.skip(
            t.found(keys, blocks).len() as int,
        ),
        t.after_insert(keys, blocks, ids).found(keys, blocks).len() == blocks.len(),
{
    let path = t.walk(keys, blocks);
    let k = path.len() as int;
    let p = TrieView::end_of(path);
    let s = t.ticked();
    let e = t.after_insert(keys, blocks, ids);
    lemma_walk_end(t, None, keys, blocks, 0);
    t.lemma_walk_levels(None, keys, blocks, 0);
    t.lemma_same_shape_wf(s);
    t.lemma_same_shape_walk(s, None, keys, blocks, 0);
    assert(s.known(p));
    if k < blocks.len() {
        lemma_chain(s, p, keys, blocks, ids, k);
        assert(t.step(p, keys[k], blocks[k]) == s.step(p, keys[k], blocks[k]));
        lemma_walk_extends(s, e, p, keys[k], None, keys, blocks, 0);
        let rest = e.walk_from(p, keys, blocks, k);
        let w = e.walk(keys, blocks);
        assert(w == path + rest);
        assert forall|j: int| 0 <= j < w.len() implies #[trigger] e.node(w[j] as int).block_id
            == (t.found(keys, blocks) + ids.skip(k))[j] by {
            if j < k {
                assert(w[j] == path[j]);
                assert(s.live(path[j] as int));
            } else {
                assert(w[j] == rest[j - k]);
            }
        }
        assert(e.found(keys, blocks) =~= t.found(keys, blocks) + ids.skip(k));
    } else {
        assert(e == s);
        assert(e.found(keys, blocks) =~= t.found(keys, blocks) + ids.skip(k));
    }
}

/// What an insertion keeps: sequences whose keys do not collide with those of
/// the inserted one are found at least as far as before, in the same slab blocks.
proof fn lemma_insert_keeps(
    t: TrieView,
    keys: Seq<u64>,
    blocks: Seq<Seq<TokenId>>,
    ids: Seq<BlockId>,
    other_keys: Seq<u64>,
    other_blocks: Seq<Seq<TokenId>>,
)
    requires
        t.wf(),
        t.after_insert(keys, blocks, ids).arena.len() <= usize::MAX,
        no_collision(keys, blocks, other_keys, other_blocks),
    ensures
        t.found(other_keys, other_blocks).is_prefix_of(
            t.after_insert(keys, blocks, ids).found(other_keys, other_blocks),
        ),
{
    let path = t.walk(keys, blocks);
    let k = path.len() as int;
    let p = TrieView::end_of(path);
    let s = t.ticked();
    let e = t.after_insert(keys, blocks, ids);
    lemma_walk_end(t, None, keys, blocks, 0);
    t.lemma_walk_levels(None, keys, blocks, 0);
    t.lemma_walk_levels(None, other_keys, other_blocks, 0);
    t.lemma_same_shape_wf(s);
    t.lemma_same_shape_walk(s, None, other_keys, other_blocks, 0);
    assert(s.known(p));
    if k < blocks.len() {
        lemma_chain(s, p, keys, blocks, ids, k);
        assert(t.step(p, keys[k], blocks[k]) == s.step(p, keys[k], blocks[k]));
        assert(k < other_blocks.len() && other_keys[k] == keys[k] ==> other_blocks[k] == blocks[k]);
        lemma_walk_extends(s, e, p, keys[k], None, other_keys, other_blocks, 0);
        let w = t.walk(other_keys, other_blocks);
        let found = t.found(other_keys, other_blocks);
        let now = e.found(other_keys, other_blocks);
        assert forall|j: int| 0 <= j < w.len() implies found[j] == #[trigger] now[j] by {
            assert(e.walk(other_keys, other_blocks)[j] == w[j]);
            assert(s.live(w[j] as int));
        }
        assert(found =~= now.subrange(0, found.len() as int));
    } else {
        assert(e == s);
        assert(t.found(other_keys, other_blocks) =~= s.found(other_keys, other_blocks));
    }
}

/// The number of leading blocks, from block `i` on, in which two sequences agree, with
/// their keys.
pub open spec fn agreement(
    keys: Seq<u64>,
    blocks: Seq<Seq<TokenId>>,
    other_keys: Seq<u64>,
    other_blocks: Seq<Seq<TokenId>>,
    i: int,
) -> nat
    decreases blocks.len() - i,
{
    if i < 0 || blocks.len() <= i || other_blocks.len() <= i || keys[i] != other_keys[i]
        || blocks[i] != other_blocks[i] {
        0
    } else {
        1 + agreement(keys, blocks, other_keys, other_blocks, i + 1)
    }
}

/// Two sequences agree block by block as far as they agree, and no further.
proof fn lemma_agreement(
    keys: Seq<u64>,
    blocks: Seq<Seq<TokenId>>,
    other_keys: Seq<u64>,
    other_blocks: Seq<Seq<TokenId>>,
    i: int,
)
    requires
        0 <= i <= blocks.len(),
        i <= other_blocks.len(),
    ensures
        ({
            let m = i + agreement(keys, blocks, other_keys, other_blocks, i);
            &&& m <= blocks.len()
            &&& m <= other_blocks.len()
            &&& forall|j: int|
                #![trigger keys[j]]
                #![trigger blocks[j]]
                i <= j < m ==> keys[j] == other_keys[j] && blocks[j] == other_blocks[j]
            &&& m < blocks.len() && m < other_blocks.len() ==> keys[m] != other_keys[m]
                || blocks[m] != other_blocks[m]
        }),
    decreases blocks.len() - i,
{
    if i < blocks.len() && i < other_blocks.len() && keys[i] == other_keys[i] && blocks[i]
        == other_blocks[i] {
        lemma_agreement(keys, blocks, other_keys, other_blocks, i + 1);
    }
}

/// Descents along sequences that agree in their first `m` blocks go the same way as
/// far as that.
proof fn lemma_walk_agree(
    t: TrieView,
    keys: Seq<u64>,
    blocks: Seq<Seq<TokenId>>,
    other_keys: Seq<u64>,
    other_blocks: Seq<Seq<TokenId>>,
    m: int,
)
    requires
        keys.len() == blocks.len(),
        other_keys.len() == other_blocks.len(),
        0 <= m <= blocks.len(),
        m <= other_blocks.len(),
        forall|j: int|
            #![trigger keys[j]]
            #![trigger blocks[j]]
            0 <= j < m ==> keys[j] == other_keys[j] && blocks[j] == other_blocks[j],
    ensures
        ({
            let w = t.walk(keys, blocks);
            let v = t.walk(other_keys, other_blocks);
            w.take(
                if w.len() <= m {
                    w.len() as int
                } else {
                    m
                },
            ) == v.take(
                if v.len() <= m {
                    v.len() as int
                } else {
                    m
                },
            )
        }),
{
    assert(keys.take(m) =~= other_keys.take(m));
    assert(blocks.take(m) =~= other_blocks.take(m));
    lemma_walk_prefix(t, None, keys, blocks, m, 0);
    lemma_walk_prefix(t, None, other_keys, other_blocks, m, 0);
}

/// Descents that end at the same node go along the same blocks.
proof fn lemma_same_end(
    t: TrieView,
    keys: Seq<u64>,
    blocks: Seq<Seq<TokenId>>,
    other_keys: Seq<u64>,
    other_blocks: Seq<Seq<TokenId>>,
    j: int,
)
    requires
        t.wf(),
        0 <= j,
        t.walk(keys, blocks).len() == t.walk(other_keys, other_blocks).len(),
        j < t.walk(keys, blocks).len(),
        t.walk(keys, blocks).last() == t.walk(other_keys, other_blocks).last(),
    ensures
        t.walk(keys, blocks)[j] == t.walk(other_keys, other_blocks)[j],
        keys[j] == other_keys[j],
        blocks[j] == other_blocks[j],
    decreases t.walk(keys, blocks).len() - j,
{
    let w = t.walk(keys, blocks);
    let v = t.walk(other_keys, other_blocks);
    if j + 1 < w.len() {
        lemma_same_end(t, keys, blocks, other_keys, other_blocks, j + 1);
        lemma_walk_parent(t, None, keys, blocks, 0, j + 1);
        lemma_walk_parent(t, None, other_keys, other_blocks, 0, j + 1);
    }
    assert(w[j] == v[j]);
    lemma_walk_parent(t, None, keys, blocks, 0, j);
    lemma_walk_parent(t, None, other_keys, other_blocks, 0, j);
    t.lemma_walk_levels(None, keys, blocks, 0);
    t.lemma_walk_levels(None, other_keys, other_blocks, 0);
    assert(t.node(w[j] as int).tokens == blocks[0 + j]);
    assert(t.node(v[j] as int).tokens == other_blocks[0 + j]);
}

/// What an insertion changes for another sequence: one whose keys do not collide with
/// those of the inserted sequence is found as far as before, or as far as it agrees
/// with the inserted one if that is further. What was found stays where it was, and
/// what is new is what the inserted sequence is found in.
pub proof fn law_insert_elsewhere(
    t: TrieView,
    keys: Seq<u64>,
    blocks: Seq<Seq<TokenId>>,
    ids: Seq<BlockId>,
    other_keys: Seq<u64>,
    other_blocks: Seq<Seq<TokenId>>,
)
    requires
        t.wf(),
        ids.len() == blocks.len(),
        keys.len() == blocks.len(),
        other_keys.len() == other_blocks.len(),
        t.after_insert(keys, blocks, ids).arena.len() <= usize::MAX,
        no_collision(keys, blocks, other_keys, other_blocks),
    ensures
        ({
            let was = t.found(other_keys, other_blocks);
            let next = t.after_insert(keys, blocks, ids);
            let m = agreement(keys, blocks, other_keys, other_blocks, 0);
            next.found(other_keys, other_blocks) == if m <= was.len() {
                was
            } else {
                next.found(keys, blocks).take(m as int)
            }
        }),
{
    let path = t.walk(keys, blocks);
    let k = path.len() as int;
    let p = TrieView::end_of(path);
    let s = t.ticked();
    let e = t.after_insert(keys, blocks, ids);
    let v = t.walk(other_keys, other_blocks);
    let now = e.walk(other_keys, other_blocks);
    let all = e.walk(keys, blocks);
    let m = agreement(keys, blocks, other_keys, other_blocks, 0) as int;
    let n = v.len() as int;
    let q = end_from(None, v);
    lemma_agreement(keys, blocks, other_keys, other_blocks, 0);
    law_insert_then_lookup(t, keys, blocks, ids);
    lemma_insert_keeps(t, keys, blocks, ids, other_keys, other_blocks);
    lemma_walk_agree(t, keys, blocks, other_keys, other_blocks, m);
    lemma_walk_agree(e, keys, blocks, other_keys, other_blocks, m);
    lemma_walk_end(t, None, keys, blocks, 0);
    lemma_walk_end(t, None, other_keys, other_blocks, 0);
    t.lemma_walk_levels(None, keys, blocks, 0);
    t.lemma_walk_levels(None, other_keys, other_blocks, 0);
    e.lemma_walk_levels(None, other_keys, other_blocks, 0);
    t.lemma_same_shape_wf(s);
    t.lemma_same_shape_walk(s, None, keys, blocks, 0);
    t.lemma_same_shape_walk(s, None, other_keys, other_blocks, 0);
    assert(all.take(m).len() == m);
    assert(now.len() >= m);
    if k == blocks.len() {
        assert(e == s);
        assert(path.take(m) == v.take(
            if v.len() <= m {
                v.len() as int
            } else {
                m
            },
        ));
        assert(e.found(other_keys, other_blocks) =~= t.found(other_keys, other_blocks));
    } else {
        lemma_chain(s, p, keys, blocks, ids, k);
        assert(t.step(p, keys[k], blocks[k]) == s.step(p, keys[k], blocks[k]));
        assert(k < other_blocks.len() && other_keys[k] == keys[k] ==> other_blocks[k] == blocks[k]);
        lemma_walk_extends(s, e, p, keys[k], None, other_keys, other_blocks, 0);
        let rest = e.walk_from(q, other_keys, other_blocks, n);
        assert(now == v + rest);
        if m <= n {
            if n < other_blocks.len() {
                if q == p && other_keys[n] == keys[k] {
                    assert(n == k);
                    assert forall|j: int| 0 <= j < k implies #[trigger] keys[j] == other_keys[j]
                        && blocks[j] == other_blocks[j] by {
                        lemma_same_end(t, keys, blocks, other_keys, other_blocks, j);
                    }
                    assert(other_blocks[k] == blocks[k]);
                    assert(m <= k);
                    assert(false);
                }
                assert(s.known(q));
                assert(e.child(q, other_keys[n]) == s.child(q, other_keys[n]));
                match t.child(q, other_keys[n]) {
                    Some(c) => {
                        assert(s.child(q, other_keys[n]) == Some(c));
                        assert(s.live(c as int));
                        assert(t.step(q, other_keys[n], other_blocks[n]) is None);
                    },
                    None => {},
                }
                assert(e.step(q, other_keys[n], other_blocks[n]) is None);
            }
            assert(rest =~= Seq::empty());
            assert(now =~= v);
            assert forall|j: int| 0 <= j < n implies e.found(other_keys, other_blocks)[j]
                == #[trigger] t.found(other_keys, other_blocks)[j] by {
                assert(s.live(v[j] as int));
            }
            assert(e.found(other_keys, other_blocks) =~= t.found(other_keys, other_blocks));
        } else {
            assert(path.take(
                if k <= m {
                    k
                } else {
                    m
                },
            ) == v.take(n));
            assert(n == k);
            let chain = e.walk_from(p, keys, blocks, k);
            lemma_walk_extends(s, e, p, keys[k], None, keys, blocks, 0);
            assert(all == path + chain);
            let x = all[m - 1];
            assert(x == chain[m - 1 - k]);
            assert(now.take(m)[m - 1] == all.take(m)[m - 1]);
            if now.len() > m {
                lemma_walk_step(e, None, other_keys, other_blocks, 0, m);
                assert(e.child(Some(x), other_keys[m]) is Some);
                assert(e.child(Some(chain[m - 1 - k]), other_keys[m]) is Some);
                assert(other_keys[m] == keys[m]);
                assert(other_blocks[m] == blocks[m]);
            }
            assert(now =~= all.take(m));
            assert(e.found(other_keys, other_blocks) =~= e.found(keys, blocks).take(m));
        }
    }
}

/// Each step of a descent follows a link.
proof fn lemma_walk_step(
    t: TrieView,
    p: Option<usize>,
    keys: Seq<u64>,
    blocks: Seq<Seq<TokenId>>,
    i: int,
    j: int,
)
    requires
        0 <= i,
        0 < j < t.walk_from(p, keys, blocks, i).len(),
    ensures
        t.child(Some(t.walk_from(p, keys, blocks, i)[j - 1]), keys[i + j]) == Some(
            t.walk_from(p, keys, blocks, i)[j],
        ),
    decreases blocks.len() - i,
{
    match t.step(p, keys[i], blocks[i]) {
        Some(c) => {
            let rest = t.walk_from(Some(c), keys, blocks, i + 1);
            let w = t.walk_from(p, keys, blocks, i);
            assert(w =~= seq![c] + rest);
            if j > 1 {
                lemma_walk_step(t, Some(c), keys, blocks, i + 1, j - 1);
            } else {
                assert(rest.len() > 0);
                assert(rest[0] == w[1]);
            }
        },
        None => {},
    }
}

/// Inserting what is cached already changes nothing but the clock.
pub proof fn law_insert_again(
    t: TrieView,
    keys: Seq<u64>,
    blocks: Seq<Seq<TokenId>>,
    ids: Seq<BlockId>,
)
    requires
        t.wf(),
        t.found(keys, blocks).len() == blocks.len(),
    ensures
        t.after_insert(keys, blocks, ids) == t.ticked(),
{
}

/// Neither a lookup nor a fork changes what any lookup finds.
pub proof fn law_lookup_and_fork_keep(
    t: TrieView,
    keys: Seq<u64>,
    blocks: Seq<Seq<TokenId>>,
    other_keys: Seq<u64>,
    other_blocks: Seq<Seq<TokenId>>,
)
    requires
        t.wf(),
    ensures
        t.after_lookup(keys, blocks).found(other_keys, other_blocks) == t.found(
            other_keys,
            other_blocks,
        ),
        t.after_fork(keys, blocks).found(other_keys, other_blocks) == t.found(
            other_keys,
            other_blocks,
        ),
{
    let looked = t.after_lookup(keys, blocks);
    let forked = t.after_fork(keys, blocks);
    assert(t.same_shape(looked));
    assert(t.same_shape(forked));
    t.lemma_same_shape_walk(looked, None, other_keys, other_blocks, 0);
    t.lemma_same_shape_walk(forked, None, other_keys, other_blocks, 0);
    t.lemma_walk_levels(None, other_keys, other_blocks, 0);
    assert(looked.found(other_keys, other_blocks) =~= t.found(other_keys, other_blocks));
    assert(forked.found(other_keys, other_blocks) =~= t.found(other_keys, other_blocks));
}

/// A descent along fewer blocks is the beginning of the descent along all.
proof fn lemma_walk_prefix(
    t: TrieView,
    p: Option<usize>,
    keys: Seq<u64>,
    blocks: Seq<Seq<TokenId>>,
    m: int,
    i: int,
)
    requires
        0 <= i <= m <= blocks.len(),
        m <= keys.len(),
    ensures
        ({
            let w = t.walk_from(p, keys, blocks, i);
            t.walk_from(p, keys.take(m), blocks.take(m), i) == w.take(
                if w.len() <= m - i {
                    w.len() as int
                } else {
                    m - i
                },
            )
        }),
    decreases m - i,
{
    let w = t.walk_from(p, keys, blocks, i);
    if i < m {
        match t.step(p, keys[i], blocks[i]) {
            Some(c) => {
                lemma_walk_prefix(t, Some(c), keys, blocks, m, i + 1);
                let rest = t.walk_from(Some(c), keys, blocks, i + 1);
                assert(w =~= seq![c] + rest);
                let n = if rest.len() <= m - i - 1 {
                    rest.len() as int
                } else {
                    m - i - 1
                };
                assert(seq![c] + rest.take(n) =~= w.take(n + 1));
            },
            None => {
                assert(w.take(0) =~= Seq::empty());
            },
        }
    } else {
        assert(w.take(0) =~= Seq::empty());
    }
}

/// A lookup of fewer blocks finds the beginning of what a lookup of all finds.
pub proof fn law_lookup_prefix(
    t: TrieView,
    keys: Seq<u64>,
    blocks: Seq<Seq<TokenId>>,
    m: int,
)
    requires
        keys.len() == blocks.len(),
        0 <= m <= blocks.len(),
    ensures
        ({
            let found = t.found(keys, blocks);
            t.found(keys.take(m), blocks.take(m)) == found.take(
                if found.len() <= m {
                    found.len() as int
                } else {
                    m
                },
            )
        }),
{
    lemma_walk_prefix(t, None, keys, blocks, m, 0);
    let found = t.found(keys, blocks);
    let n = if found.len() <= m {
        found.len() as int
    } else {
        m
    };
    assert(t.found(keys.take(m), blocks.take(m)) =~= found.take(n));
}

/// A descent after leaves were taken out: it is the descent before, but for its
/// last step if that led to one of them.
proof fn lemma_walk_without(
    t: TrieView,
    gone: Seq<usize>,
    p: Option<usize>,
    keys: Seq<u64>,
    blocks: Seq<Seq<TokenId>>,
    i: int,
)
    requires
        t.wf(),
        gone.no_duplicates(),
        forall|j: int| 0 <= j < gone.len() ==> t.evictable(#[trigger] gone[j] as int),
        t.known(p),
        p matches Some(x) ==> !gone.contains(x),
        0 <= i,
    ensures
        ({
            let w = t.walk_from(p, keys, blocks, i);
            t.without_all(gone).walk_from(p, keys, blocks, i) == if w.len() > 0 && gone.contains(
                w.last(),
            ) {
                w.drop_last()
            } else {
                w
            }
        }),
    decreases blocks.len() - i,
{
    let e = t.without_all(gone);
    let w = t.walk_from(p, keys, blocks, i);
    assert forall|j: int| 0 <= j < gone.len() implies t.live(#[trigger] gone[j] as int) by {
        assert(t.evictable(gone[j] as int));
    }
    t.lemma_without_all_wf(gone);
    if i < blocks.len() {
        match t.step(p, keys[i], blocks[i]) {
            Some(c) => {
                assert(t.child(p, keys[i]) == Some(c));
                let rest = t.walk_from(Some(c), keys, blocks, i + 1);
                assert(w =~= seq![c] + rest);
                assert(e.child(p, keys[i]) == if gone.contains(c) {
                    None
                } else {
                    Some(c)
                });
                if gone.contains(c) {
                    let g = choose|g: int| 0 <= g < gone.len() && gone[g] == c;
                    assert(t.evictable(gone[g] as int));
                    assert(!t.children_of(Some(c)).dom().contains(keys[i + 1]));
                    assert(t.step(Some(c), keys[i + 1], blocks[i + 1]) is None);
                    assert(rest =~= Seq::empty());
                    assert(e.walk_from(p, keys, blocks, i) =~= w.drop_last());
                } else {
                    assert(t.live(c as int));
                    assert(e.arena[c as int] is Some);
                    lemma_walk_without(t, gone, Some(c), keys, blocks, i + 1);
                    let kept = e.walk_from(Some(c), keys, blocks, i + 1);
                    assert(e.walk_from(p, keys, blocks, i) =~= seq![c] + kept);
                    if rest.len() > 0 {
                        assert(w.last() == rest.last());
                        assert(w.drop_last() =~= seq![c] + rest.drop_last());
                    } else {
                        assert(w.last() == c);
                    }
                }
            },
            None => {
                assert(w =~= Seq::empty());
                assert(e.walk_from(p, keys, blocks, i) =~= Seq::empty());
            },
        }
    }
}

/// What an eviction of `k` nodes takes and what it keeps: only leaves that nobody
/// holds go, none of them used later than an evictable node that stays; every
/// other node stays, and every cached sequence is found as before, but for its
/// last block if that one went.
pub proof fn law_evict(
    t: TrieView,
    order: Seq<usize>,
    k: int,
    keys: Seq<u64>,
    blocks: Seq<Seq<TokenId>>,
)
    requires
        t.wf(),
        t.lru_order(order),
        0 <= k <= order.len(),
    ensures
        t.without_all(order.take(k)).wf(),
        forall|i: int|
            #![trigger t.live(i)]
            t.live(i) && !order.take(k).contains(i as usize) ==> t.without_all(
                order.take(k),
            ).live(i) && t.without_all(order.take(k)).node(i).rc == t.node(i).rc,
        forall|i: int|
            #![trigger t.live(i)]
            t.live(i) && (t.node(i).rc > 0 || t.node(i).children.dom() != Set::<u64>::empty())
                ==> t.without_all(order.take(k)).live(i),
        forall|a: int, b: int|
            0 <= a < k <= b < order.len() ==> t.node(#[trigger] order[a] as int).last_used
                <= t.node(#[trigger] order[b] as int).last_used,
        t.without_all(order.take(k)).found(keys, blocks) == ({
            let w = t.walk(keys, blocks);
            if w.len() > 0 && order.take(k).contains(w.last()) {
                t.found(keys, blocks).drop_last()
            } else {
                t.found(keys, blocks)
            }
        }),
{
    let gone = order.take(k);
    let e = t.without_all(gone);
    assert forall|j: int| 0 <= j < gone.len() implies t.evictable(#[trigger] gone[j] as int) by {
        assert(order.contains(order[j]));
    }
    assert forall|j: int| 0 <= j < gone.len() implies t.live(#[trigger] gone[j] as int) by {
        assert(t.evictable(gone[j] as int));
    }
    t.lemma_without_all_wf(gone);
    assert forall|i: int| #[trigger] t.live(i) && !gone.contains(i as usize) implies e.live(i)
        && e.node(i).rc == t.node(i).rc by {
        assert(e.arena[i] is Some);
    }
    assert forall|i: int|
        #[trigger] t.live(i) && (t.node(i).rc > 0 || t.node(i).children.dom()
            != Set::<u64>::empty()) implies e.live(i) by {
        if gone.contains(i as usize) {
            let g = choose|g: int| 0 <= g < gone.len() && gone[g] == i as usize;
            assert(t.evictable(gone[g] as int));
        }
        assert(e.arena[i] is Some);
    }
    lemma_walk_without(t, gone, None, keys, blocks, 0);
    t.lemma_walk_levels(None, keys, blocks, 0);
    let w = t.walk(keys, blocks);
    let kept = e.walk(keys, blocks);
    e.lemma_walk_levels(None, keys, blocks, 0);
    assert forall|j: int| 0 <= j < kept.len() implies e.node(
        #[trigger] kept[j] as int,
    ).block_id == t.node(w[j] as int).block_id by {
        assert(kept[j] == w[j]);
        assert(e.live(kept[j] as int));
        assert(t.live(w[j] as int));
        if gone.contains(w[j]) {
            let g = choose|g: int| 0 <= g < gone.len() && gone[g] == w[j];
            assert(!e.live(gone[g] as int));
        }
        assert(e.arena[w[j] as int] is Some);
    }
    if w.len() > 0 && gone.contains(w.last()) {
        assert(e.found(keys, blocks) =~= t.found(keys, blocks).drop_last());
    } else {
        assert(e.found(keys, blocks) =~= t.found(keys, blocks));
    }
}

/// Holding the first `m` nodes of a path and then releasing their slab blocks
/// changes nothing, if all of them are held otherwise and marked as used now.
proof fn lemma_hold_then_release(t: TrieView, path: Seq<usize>, m: int)
    requires
        t.arena.len() <= usize::MAX,
        path.no_duplicates(),
        0 <= m <= path.len(),
        forall|j: int|
            #![trigger path[j]]
            0 <= j < path.len() ==> {
                let x = path[j] as int;
                &&& t.live(x)
                &&& 0 < t.node(x).rc < u32::MAX
                &&& t.node(x).last_used == t.clock
                &&& t.by_block.contains_key(t.node(x).block_id.0)
                &&& t.by_block[t.node(x).block_id.0] == x
            },
    ensures
        t.held(path.take(m)).released_all(t.ids(path).take(m)) == t,
    decreases m,
{
    let ids = t.ids(path);
    if m == 0 {
        assert(t.held(path.take(0)) =~= t);
    } else {
        let u = t.held(path.take(m));
        let x = path[m - 1];
        assert(path.take(m)[m - 1] == x);
        assert(path.take(m).contains(x));
        assert(ids.take(m).last() == t.node(x as int).block_id);
        assert(ids.take(m).drop_last() =~= ids.take(m - 1));
        let fewer = path.take(m - 1);
        let v = t.held(fewer);
        assert forall|i: int| 0 <= i < t.arena.len() implies u.unheld(x as int).arena[i]
            == #[trigger] v.arena[i] by {
            let y = i as usize;
            if fewer.contains(y) {
                let g = choose|g: int| 0 <= g < fewer.len() && fewer[g] == y;
                assert(path[g] == y);
                assert(path.take(m)[g] == y);
            }
            if path.take(m).contains(y) {
                let g = choose|g: int| 0 <= g < m && path.take(m)[g] == y;
                if g < m - 1 {
                    assert(fewer[g] == y);
                }
            }
        }
        assert(u.unheld(x as int) =~= v);
        assert(u.released(t.node(x as int).block_id) == v);
        lemma_hold_then_release(t, path, m - 1);
    }
}

/// A release undoes a fork: where every node of the forked prefix is held by
/// somebody else and is the one on file for its slab block, releasing what the
/// fork returned leaves the trie as a lookup would have.
pub proof fn law_fork_then_release(t: TrieView, keys: Seq<u64>, blocks: Seq<Seq<TokenId>>)
    requires
        t.wf(),
        t.can_fork(keys, blocks),
        forall|j: int|
            #![trigger t.walk(keys, blocks)[j]]
            0 <= j < t.walk(keys, blocks).len() ==> {
                let x = t.walk(keys, blocks)[j] as int;
                &&& t.node(x).rc > 0
                &&& t.by_block.contains_key(t.node(x).block_id.0)
                &&& t.by_block[t.node(x).block_id.0] == x
            },
    ensures
        t.after_fork(keys, blocks).released_all(t.found(keys, blocks)) == t.after_lookup(
            keys,
            blocks,
        ),
{
    let path = t.walk(keys, blocks);
    let looked = t.after_lookup(keys, blocks);
    t.lemma_walk_levels(None, keys, blocks, 0);
    t.lemma_walk_distinct(keys, blocks);
    assert forall|j: int| 0 <= j < path.len() implies {
        let x = #[trigger] path[j] as int;
        &&& looked.live(x)
        &&& 0 < looked.node(x).rc < u32::MAX
        &&& looked.node(x).last_used == looked.clock
        &&& looked.by_block.contains_key(looked.node(x).block_id.0)
        &&& looked.by_block[looked.node(x).block_id.0] == x
    } by {
        assert(path.contains(path[j]));
    }
    lemma_hold_then_release(looked, path, path.len() as int);
    assert(path.take(path.len() as int) =~= path);
    assert(looked.ids(path).take(path.len() as int) =~= t.found(keys, blocks));
    assert(looked.held(path) =~= t.after_fork(keys, blocks));
}

/// The nodes of `path` hang from the root one below the other, with nothing else
/// below any of them; each is held once at most, and is the one on file for its
/// slab block.
pub open spec fn lone_chain(t: TrieView, path: Seq<usize>, keys: Seq<u64>) -> bool {
    forall|j: int|
        #![trigger path[j]]
        0 <= j < path.len() ==> {
            let n = t.node(path[j] as int);
            &&& t.live(path[j] as int)
            &&& n.rc <= 1
            &&& t.by_block.contains_key(n.block_id.0)
            &&& t.by_block[n.block_id.0] == path[j]
            &&& n.parent == TrieView::end_of(path.take(j))
            &&& n.parent_key == keys[j]
            &&& t.linked(path[j] as int)
            &&& n.children.dom() == if j + 1 < path.len() {
                set![keys[j + 1]]
            } else {
                Set::empty()
            }
        }
}

/// Releasing a lone chain takes it out, from its end to the root.
#[verifier::rlimit(40)]
proof fn lemma_release_chain(t: TrieView, path: Seq<usize>, keys: Seq<u64>)
    requires
        t.wf(),
        path.no_duplicates(),
        0 < path.len(),
        lone_chain(t, path, keys),
    ensures
        ({
            let end = t.released_all(t.ids(path));
            &&& forall|j: int| 0 <= j < path.len() ==> !end.live(#[trigger] path[j] as int)
            &&& end.child(None, keys[0]) is None
        }),
    decreases path.len(),
{
    let m = path.len() as int;
    let x = path[m - 1];
    let ids = t.ids(path);
    let front = path.drop_last();
    let held = t.unheld(x as int);
    let next = t.released(ids.last());
    assert(t.live(path[m - 1] as int));
    t.lemma_unheld_wf(x as int);
    assert(held.node(x as int).children.dom() =~= Set::<u64>::empty());
    assert(held.evictable(x as int));
    assert(next == held.without(x as int));
    held.lemma_without_wf(x as int);
    assert(ids.drop_last() =~= t.ids(front));
    assert forall|j: int| 0 <= j < m - 1 implies {
        &&& #[trigger] path[j] == front[j]
        &&& path[j] != x
        &&& next.live(path[j] as int)
        &&& next.node(path[j] as int).block_id == t.node(path[j] as int).block_id
    } by {
        assert(t.live(path[j] as int));
        assert(held.live(path[j] as int));
        assert(next.arena[path[j] as int] is Some);
    }
    assert(next.ids(front) =~= t.ids(front));
    lemma_release_rest(next, ids.drop_last());
    if m > 1 {
        assert forall|j: int| 0 <= j < front.len() implies {
            let n = next.node(#[trigger] front[j] as int);
            &&& next.live(front[j] as int)
            &&& n.rc <= 1
            &&& next.by_block.contains_key(n.block_id.0)
            &&& next.by_block[n.block_id.0] == front[j]
            &&& n.parent == TrieView::end_of(front.take(j))
            &&& n.parent_key == keys[j]
            &&& next.linked(front[j] as int)
            &&& n.children.dom() == if j + 1 < front.len() {
                set![keys[j + 1]]
            } else {
                Set::empty()
            }
        } by {
            let y = path[j];
            assert(y == front[j]);
            let was = t.node(y as int);
            let n = next.node(y as int);
            assert(next.arena[y as int] is Some);
            assert(held.node(y as int) == was);
            assert(was.block_id.0 != t.node(x as int).block_id.0) by {
                assert(t.by_block[was.block_id.0] == y);
                assert(t.by_block[t.node(path[m - 1] as int).block_id.0] == x);
            }
            assert(front.take(j) =~= path.take(j));
            assert(held.child(was.parent, keys[j]) == Some(y));
            if j > 0 {
                assert(path.take(j).last() == path[j - 1]);
                assert(next.live(path[j - 1] as int));
            }
            assert(next.child(was.parent, keys[j]) == Some(y));
            if j + 1 < front.len() {
                assert(path[j + 1] != x);
                assert(path.take(j + 1).last() == y);
                assert(t.node(path[j + 1] as int).parent == Some(y));
                assert(t.linked(path[j + 1] as int));
                assert(held.child(Some(y), keys[j + 1]) == Some(path[j + 1]));
                assert(next.child(Some(y), keys[j + 1]) == Some(path[j + 1]));
                assert(n.children.dom() =~= set![keys[j + 1]]);
            } else {
                assert(path.take(m - 1).last() == y);
                assert(t.node(path[m - 1] as int).parent == Some(y));
                assert(held.linked(x as int));
                assert(n.children.dom() =~= Set::<u64>::empty());
            }
        }
        assert(lone_chain(next, front, keys));
        lemma_release_chain(next, front, keys);
        let end = t.released_all(ids);
        assert(end == next.released_all(next.ids(front)));
        assert forall|j: int| 0 <= j < path.len() implies !end.live(#[trigger] path[j] as int) by {
            if j < m - 1 {
                assert(path[j] == front[j]);
            }
        }
    } else {
        assert(path.take(0) =~= Seq::empty());
        assert(t.linked(path[0] as int));
        assert(ids.drop_last() =~= Seq::empty());
        assert(t.released_all(ids) == next);
        assert(held.child(None, keys[0]) == Some(x));
    }
}

/// What was taken out stays out while more is released.
proof fn lemma_release_rest(t: TrieView, ids: Seq<BlockId>)
    requires
        t.wf(),
    ensures
        forall|i: int| !t.live(i) ==> !#[trigger] t.released_all(ids).live(i),
{
    lemma_released_all(t, ids);
    assert forall|i: int| !t.live(i) implies !#[trigger] t.released_all(ids).live(i) by {
        if t.released_all(ids).live(i) {
            assert(t.released_all(ids).arena[i] is Some);
        }
    }
}

/// Releasing the blocks of a sequence that nobody shares takes all of it out of
/// the trie in one call, since the deepest block goes first and leaves its parent a
/// leaf.
pub proof fn law_release_drains(t: TrieView, keys: Seq<u64>, blocks: Seq<Seq<TokenId>>)
    requires
        t.wf(),
        t.found(keys, blocks).len() > 0,
        lone_chain(t, t.walk(keys, blocks), keys),
    ensures
        t.released_all(t.found(keys, blocks)).found(keys, blocks) == Seq::<BlockId>::empty(),
        forall|j: int|
            0 <= j < t.walk(keys, blocks).len() ==> !t.released_all(t.found(keys, blocks)).live(
                #[trigger] t.walk(keys, blocks)[j] as int,
            ),
{
    t.lemma_walk_distinct(keys, blocks);
    lemma_release_chain(t, t.walk(keys, blocks), keys);
    let end = t.released_all(t.found(keys, blocks));
    assert(end.walk(keys, blocks) =~= Seq::empty());
    assert(end.found(keys, blocks) =~= Seq::empty());
}

/// Every node after an insertion is one from before, or stands for a slab block
/// of the inserted chain.
pub proof fn lemma_insert_ids(
    t: TrieView,
    keys: Seq<u64>,
    blocks: Seq<Seq<TokenId>>,
    ids: Seq<BlockId>,
    capacity: usize,
)
    requires
        t.wf(),
        ids.len() == blocks.len(),
        t.after_insert(keys, blocks, ids).arena.len() <= usize::MAX,
        forall|i: int|
            #![trigger t.arena[i]]
            t.live(i) ==> t.node(i).block_id.0 < capacity,
        forall|j: int| 0 <= j < ids.len() ==> #[trigger] ids[j].0 < capacity,
    ensures
        forall|i: int|
            #![trigger t.after_insert(keys, blocks, ids).arena[i]]
            t.after_insert(keys, blocks, ids).live(i) ==> t.after_insert(
                keys,
                blocks,
                ids,
            ).node(i).block_id.0 < capacity,
{
    let path = t.walk(keys, blocks);
    lemma_walk_end(t, None, keys, blocks, 0);
    t.lemma_walk_levels(None, keys, blocks, 0);
    t.lemma_same_shape_wf(t.ticked());
    lemma_chain_ids(
        t.ticked(),
        TrieView::end_of(path),
        keys,
        blocks,
        ids,
        path.len() as int,
        capacity,
    );
}

/// The same for a chain under `p`.
proof fn lemma_chain_ids(
    t: TrieView,
    p: Option<usize>,
    keys: Seq<u64>,
    blocks: Seq<Seq<TokenId>>,
    ids: Seq<BlockId>,
    i: int,
    capacity: usize,
)
    requires
        t.wf(),
        t.known(p),
        0 <= i <= blocks.len(),
        ids.len() == blocks.len(),
        t.add_chain(p, keys, blocks, ids, i).arena.len() <= usize::MAX,
        forall|x: int|
            #![trigger t.arena[x]]
            t.live(x) ==> t.node(x).block_id.0 < capacity,
        forall|j: int| 0 <= j < ids.len() ==> #[trigger] ids[j].0 < capacity,
    ensures
        forall|x: int|
            #![trigger t.add_chain(p, keys, blocks, ids, i).arena[x]]
            t.add_chain(p, keys, blocks, ids, i).live(x) ==> t.add_chain(
                p,
                keys,
                blocks,
                ids,
                i,
            ).node(x).block_id.0 < capacity,
    decreases blocks.len() - i,
{
    if i < blocks.len() {
        let slot = t.next_slot();
        let mid = t.add_node(p, keys[i], blocks[i], ids[i]);
        if t.free.len() > 0 {
            assert(slot == t.free[t.free.len() - 1]);
        }
        lemma_chain_grows(mid, Some(slot), keys, blocks, ids, i + 1);
        t.lemma_add_node_wf(p, keys[i], blocks[i], ids[i]);
        assert(ids[i].0 < capacity);
        assert forall|x: int| mid.live(x) implies #[trigger] mid.arena[x]->Some_0.block_id.0
            < capacity by {
            if x != slot {
                assert(t.arena[x] is Some);
                assert(t.live(x));
            }
        }
        lemma_chain_ids(mid, Some(slot), keys, blocks, ids, i + 1, capacity);
    }
}

/// A release keeps the trie well formed and adds no node.
pub proof fn lemma_released_all(t: TrieView, ids: Seq<BlockId>)
    requires
        t.wf(),
    ensures
        t.released_all(ids).wf(),
        forall|i: int|
            #![trigger t.released_all(ids).arena[i]]
            t.released_all(ids).live(i) ==> t.live(i) && t.released_all(ids).node(i).block_id
                == t.node(i).block_id,
    decreases ids.len(),
{
    if ids.len() > 0 {
        let id = ids.last();
        let mid = t.released(id);
        if t.by_block.contains_key(id.0) {
            let x = t.by_block[id.0] as int;
            assert(t.live(x));
            t.lemma_unheld_wf(x);
            if t.unheld(x).evictable(x) {
                t.unheld(x).lemma_without_wf(x);
            }
        }
        assert(mid.wf());
        assert forall|i: int| #[trigger] mid.live(i) implies t.live(i) && mid.node(i).block_id
            == t.node(i).block_id by {
            if t.by_block.contains_key(id.0) {
                let x = t.by_block[id.0] as int;
                assert(t.unheld(x).live(i));
                assert(mid.arena[i] is Some);
                assert(t.arena[i] is Some);
            }
        }
        lemma_released_all(mid, ids.drop_last());
        let end = t.released_all(ids);
        assert forall|i: int| end.live(i) implies t.live(i) && #[trigger] end.arena[i]->Some_0.block_id
            == t.node(i).block_id by {
            assert(mid.live(i));
        }
    }
}

/// The children of a place by key: those of the node in slot `p`, or those of the root.
pub open spec fn links_at(t: TrieView, p: Option<usize>) -> Map<u64, usize> {
    match p {
        Some(i) => t.arena[i as int]->Some_0.children,
        None => t.root,
    }
}

/// What a descent is: each of its nodes is filed under the key of its block below the
/// one before, the first below the root, and holds the tokens of its block. It goes on
/// as long as it can: below its last node no node with the tokens of the next block is
/// filed under the key of that block. What is found are the slab blocks of its nodes.
pub proof fn law_descent(t: TrieView, keys: Seq<u64>, blocks: Seq<Seq<TokenId>>, j: int)
    requires
        t.wf(),
    ensures
        ({
            let w = t.walk(keys, blocks);
            let n = w.len() as int;
            &&& n <= blocks.len()
            &&& t.found(keys, blocks).len() == n
            &&& 0 <= j < n ==> {
                let above = links_at(
                    t,
                    if j == 0 {
                        None
                    } else {
                        Some(w[j - 1])
                    },
                );
                &&& above.contains_key(keys[j]) && above[keys[j]] == w[j]
                &&& w[j] < t.arena.len() && t.arena[w[j] as int] is Some
                &&& t.arena[w[j] as int]->Some_0.tokens == blocks[j]
                &&& t.found(keys, blocks)[j] == t.arena[w[j] as int]->Some_0.block_id
            }
            &&& n < blocks.len() ==> {
                let below = links_at(
                    t,
                    if n == 0 {
                        None
                    } else {
                        Some(w[n - 1])
                    },
                );
                below.contains_key(keys[n]) ==> t.arena[below[keys[n]] as int]->Some_0.tokens
                    != blocks[n]
            }
        }),
{
    let w = t.walk(keys, blocks);
    t.lemma_walk_levels(None, keys, blocks, 0);
    lemma_walk_end(t, None, keys, blocks, 0);
    if 0 <= j < w.len() {
        assert(t.live(w[j] as int));
        if j > 0 {
            lemma_walk_step(t, None, keys, blocks, 0, j);
        } else {
            assert(t.step(None, keys[0], blocks[0]) is Some);
            assert(t.child(None, keys[0]) == Some(w[0]));
        }
    }
}

/// The reading of the clock after one more operation.
pub open spec fn follows(clock: u64, next: u64) -> bool {
    if clock < u64::MAX {
        next == clock + 1
    } else {
        next == 0
    }
}

/// A lookup marks every node of the cached path as used now, whether or not it is held,
/// and no other; nothing else changes but the clock, which goes on by one.
pub proof fn law_lookup_marks(t: TrieView, keys: Seq<u64>, blocks: Seq<Seq<TokenId>>, i: int)
    requires
        t.wf(),
        0 <= i < t.arena.len(),
    ensures
        ({
            let next = t.after_lookup(keys, blocks);
            let was = t.arena[i]->Some_0;
            let is = next.arena[i]->Some_0;
            &&& follows(t.clock, next.clock)
            &&& next.arena.len() == t.arena.len()
            &&& next.free == t.free
            &&& next.root == t.root
            &&& next.by_block == t.by_block
            &&& next.arena[i] is Some <==> t.arena[i] is Some
            &&& t.arena[i] is Some ==> {
                &&& is.last_used == if t.walk(keys, blocks).contains(i as usize) {
                    next.clock
                } else {
                    was.last_used
                }
                &&& is.rc == was.rc
                &&& same_place(was, is)
            }
        }),
{
}

/// Two states of a node at the same place: it stands for the same tokens and the same
/// slab block, under the same parent, with the same children.
pub open spec fn same_place(was: NodeView, is: NodeView) -> bool {
    &&& is.block_id == was.block_id
    &&& is.tokens == was.tokens
    &&& is.children == was.children
    &&& is.parent == was.parent
    &&& is.parent_key == was.parent_key
    &&& is.depth == was.depth
}

/// A fork marks every node of the cached path as used now and holds it once more, and
/// no other; nothing else changes but the clock, which goes on by one.
pub proof fn law_fork_marks(t: TrieView, keys: Seq<u64>, blocks: Seq<Seq<TokenId>>, i: int)
    requires
        t.wf(),
        0 <= i < t.arena.len(),
        t.arena[i] is Some && t.walk(keys, blocks).contains(i as usize)
            ==> t.arena[i]->Some_0.rc < u32::MAX,
    ensures
        ({
            let next = t.after_fork(keys, blocks);
            let was = t.arena[i]->Some_0;
            let is = next.arena[i]->Some_0;
            let on_path = t.walk(keys, blocks).contains(i as usize);
            &&& follows(t.clock, next.clock)
            &&& next.arena.len() == t.arena.len()
            &&& next.free == t.free
            &&& next.root == t.root
            &&& next.by_block == t.by_block
            &&& next.arena[i] is Some <==> t.arena[i] is Some
            &&& t.arena[i] is Some && on_path ==> is.rc == was.rc + 1 && is.last_used == next.clock
            &&& t.arena[i] is Some && !on_path ==> is.rc == was.rc && is.last_used == was.last_used
            &&& t.arena[i] is Some ==> same_place(was, is)
        }),
{
}

/// An insertion adds nodes for the blocks that are not cached, held by nobody and
/// marked as used now, in slots that were empty; every node that was there keeps its
/// place, its count and the time of its last use. The clock goes on by one.
pub proof fn law_insert_marks(
    t: TrieView,
    keys: Seq<u64>,
    blocks: Seq<Seq<TokenId>>,
    ids: Seq<BlockId>,
    x: int,
    j: int,
)
    requires
        t.wf(),
        ids.len() == blocks.len(),
        t.after_insert(keys, blocks, ids).arena.len() <= usize::MAX,
    ensures
        ({
            let next = t.after_insert(keys, blocks, ids);
            let path = next.walk(keys, blocks);
            let k = t.walk(keys, blocks).len();
            let was = t.arena[x]->Some_0;
            let is = next.arena[x]->Some_0;
            let new = next.arena[path[j] as int]->Some_0;
            &&& follows(t.clock, next.clock)
            &&& 0 <= x < t.arena.len() && t.arena[x] is Some ==> {
                &&& x < next.arena.len() && next.arena[x] is Some
                &&& is.rc == was.rc
                &&& is.last_used == was.last_used
                &&& is.tokens == was.tokens
                &&& is.block_id == was.block_id
                &&& is.depth == was.depth
            }
            &&& path.len() == blocks.len()
            &&& k <= j < path.len() ==> {
                &&& path[j] < next.arena.len() && next.arena[path[j] as int] is Some
                &&& path[j] < t.arena.len() ==> t.arena[path[j] as int] is None
                &&& new.rc == 0
                &&& new.last_used == next.clock
                &&& new.tokens == blocks[j]
                &&& new.block_id == ids[j]
            }
        }),
{
    let start = t.ticked();
    let path = t.walk(keys, blocks);
    let k = path.len() as int;
    let next = t.after_insert(keys, blocks, ids);
    t.lemma_same_shape_wf(start);
    t.lemma_same_shape_walk(start, None, keys, blocks, 0);
    lemma_walk_end(t, None, keys, blocks, 0);
    lemma_walk_end(start, None, keys, blocks, 0);
    t.lemma_walk_levels(None, keys, blocks, 0);
    let p = TrieView::end_of(path);
    assert(p == end_from(None, path));
    law_insert_then_lookup(t, keys, blocks, ids);
    assert(next.walk(keys, blocks).len() == next.found(keys, blocks).len());
    if 0 <= x < t.arena.len() && t.arena[x] is Some {
        assert(start.live(x));
    }
    lemma_chain_grows(start, p, keys, blocks, ids, k);
    if k < blocks.len() {
        lemma_chain(start, p, keys, blocks, ids, k);
        lemma_walk_extends(start, next, p, keys[k], None, keys, blocks, 0);
        let rest = next.walk_from(p, keys, blocks, k);
        assert(next.walk(keys, blocks) == path + rest);
        next.lemma_walk_levels(None, keys, blocks, 0);
        if k <= j < next.walk(keys, blocks).len() {
            assert(next.walk(keys, blocks)[j] == rest[j - k]);
            assert(!start.live(rest[j - k] as int));
            assert(next.live(rest[j - k] as int));
        }
    }
}

/// No node was used later than now.
pub open spec fn stamped(t: TrieView) -> bool {
    forall|i: int|
        #![trigger t.arena[i]]
        0 <= i < t.arena.len() && t.arena[i] is Some ==> t.arena[i]->Some_0.last_used <= t.clock
}

/// A trie without nodes has no time of use to be later than now, and no operation makes
/// one, as long as the clock does not start over.
pub proof fn law_stamped_kept(
    t: TrieView,
    keys: Seq<u64>,
    blocks: Seq<Seq<TokenId>>,
    ids: Seq<BlockId>,
)
    requires
        t.wf(),
        stamped(t),
        t.clock < u64::MAX,
        ids.len() == blocks.len(),
        t.after_insert(keys, blocks, ids).arena.len() <= usize::MAX,
    ensures
        stamped(TrieView::empty()),
        stamped(t.after_lookup(keys, blocks)),
        stamped(t.after_fork(keys, blocks)),
        stamped(t.after_insert(keys, blocks, ids)),
{
    let looked = t.after_lookup(keys, blocks);
    assert forall|i: int| 0 <= i < looked.arena.len() && #[trigger] looked.arena[i] is Some implies
        looked.arena[i]->Some_0.last_used <= looked.clock by {
        assert(t.arena[i] is Some);
    }
    let forked = t.after_fork(keys, blocks);
    assert forall|i: int| 0 <= i < forked.arena.len() && #[trigger] forked.arena[i] is Some implies
        forked.arena[i]->Some_0.last_used <= forked.clock by {
        assert(t.arena[i] is Some);
    }
    let start = t.ticked();
    let path = t.walk(keys, blocks);
    t.lemma_same_shape_wf(start);
    lemma_walk_end(t, None, keys, blocks, 0);
    t.lemma_walk_levels(None, keys, blocks, 0);
    assert(stamped(start)) by {
        assert forall|i: int| 0 <= i < start.arena.len() && #[trigger] start.arena[i] is Some implies
            start.arena[i]->Some_0.last_used <= start.clock by {
            assert(t.arena[i] is Some);
        }
    }
    lemma_chain_stamped(start, TrieView::end_of(path), keys, blocks, ids, path.len() as int);
}

/// New nodes are used now.
proof fn lemma_chain_stamped(
    t: TrieView,
    p: Option<usize>,
    keys: Seq<u64>,
    blocks: Seq<Seq<TokenId>>,
    ids: Seq<BlockId>,
    i: int,
)
    requires
        t.wf(),
        t.known(p),
        stamped(t),
        0 <= i,
        t.add_chain(p, keys, blocks, ids, i).arena.len() <= usize::MAX,
    ensures
        stamped(t.add_chain(p, keys, blocks, ids, i)),
    decreases blocks.len() - i,
{
    if i < blocks.len() {
        let mid = t.add_node(p, keys[i], blocks[i], ids[i]);
        let slot = t.next_slot();
        if t.free.len() > 0 {
            assert(t.free[t.free.len() - 1] < t.arena.len());
        }
        assert(mid.arena.len() <= t.add_chain(p, keys, blocks, ids, i).arena.len()) by {
            assert forall|j: int| 0 <= j < mid.free.len() implies #[trigger] mid.free[j]
                < mid.arena.len() by {
                assert(t.free[j] == mid.free[j]);
            }
            lemma_chain_grows(mid, Some(slot), keys, blocks, ids, i + 1);
        }
        t.lemma_add_node_wf(p, keys[i], blocks[i], ids[i]);
        assert(stamped(mid)) by {
            assert forall|x: int| 0 <= x < mid.arena.len() && #[trigger] mid.arena[x] is Some implies
                mid.arena[x]->Some_0.last_used <= mid.clock by {
                if x != slot {
                    assert(t.arena[x] is Some);
                }
            }
        }
        lemma_chain_stamped(mid, Some(slot), keys, blocks, ids, i + 1);
    }
}

/// Used now is used last: after a lookup every node of the cached path has been used
/// later than every other node, and later than it or any other was before, as long as the
/// clock does not start over.
pub proof fn law_lookup_is_latest(
    t: TrieView,
    keys: Seq<u64>,
    blocks: Seq<Seq<TokenId>>,
    x: usize,
    y: usize,
)
    requires
        t.wf(),
        stamped(t),
        t.clock < u64::MAX,
        t.walk(keys, blocks).contains(x),
        y < t.arena.len(),
        t.arena[y as int] is Some,
        !t.walk(keys, blocks).contains(y),
    ensures
        ({
            let next = t.after_lookup(keys, blocks);
            let now = next.arena[x as int]->Some_0.last_used;
            &&& now == next.clock
            &&& next.arena[y as int]->Some_0.last_used < now
            &&& t.arena[y as int]->Some_0.last_used < now
            &&& t.arena[x as int]->Some_0.last_used < now
        }),
{
    let w = t.walk(keys, blocks);
    t.lemma_walk_levels(None, keys, blocks, 0);
    let j = choose|j: int| 0 <= j < w.len() && w[j] == x;
    assert(t.live(w[j] as int));
    law_lookup_marks(t, keys, blocks, x as int);
    law_lookup_marks(t, keys, blocks, y as int);
}

/// What was just looked up is evicted last: an eviction takes no leaf of the sequence
/// that was looked up while an evictable leaf of another sequence stays, and that
/// sequence is found in full afterwards.
pub proof fn law_lookup_then_evict(
    t: TrieView,
    keys: Seq<u64>,
    blocks: Seq<Seq<TokenId>>,
    order: Seq<usize>,
    k: int,
    m: int,
)
    requires
        t.wf(),
        stamped(t),
        t.clock < u64::MAX,
        t.after_lookup(keys, blocks).lru_order(order),
        0 <= k <= m < order.len(),
        !t.walk(keys, blocks).contains(order[m]),
    ensures
        forall|a: int| 0 <= a < k ==> !t.walk(keys, blocks).contains(#[trigger] order[a]),
        t.after_lookup(keys, blocks).without_all(order.take(k)).found(keys, blocks) == t.found(
            keys,
            blocks,
        ),
{
    let looked = t.after_lookup(keys, blocks);
    let w = t.walk(keys, blocks);
    assert(order.contains(order[m]));
    assert(looked.evictable(order[m] as int));
    assert forall|a: int| 0 <= a < k implies !w.contains(#[trigger] order[a]) by {
        if w.contains(order[a]) {
            law_lookup_is_latest(t, keys, blocks, order[a], order[m]);
        }
    }
    t.lemma_same_shape_wf(looked);
    law_evict(looked, order, k, keys, blocks);
    law_lookup_and_fork_keep(t, keys, blocks, keys, blocks);
    t.lemma_same_shape_walk(looked, None, keys, blocks, 0);
    if w.len() > 0 && order.take(k).contains(w.last()) {
        let a = choose|a: int| 0 <= a < k && order.take(k)[a] == w.last();
        assert(order[a] == w[w.len() - 1]);
        assert(w.contains(order[a]));
    }
}

/// What can be evicted: exactly the nodes that nobody holds and that have no children,
/// each listed once, and none before one that was used earlier.
pub proof fn law_eviction_order(t: TrieView, order: Seq<usize>, i: usize, a: int, b: int)
    requires
        t.lru_order(order),
    ensures
        order.contains(i) <==> {
            &&& i < t.arena.len() && t.arena[i as int] is Some
            &&& t.arena[i as int]->Some_0.rc == 0
            &&& forall|key: u64| !#[trigger] t.arena[i as int]->Some_0.children.contains_key(key)
        },
        0 <= a < b < order.len() ==> order[a] != order[b]
            && t.arena[order[a] as int]->Some_0.last_used
            <= t.arena[order[b] as int]->Some_0.last_used,
{
    if i < t.arena.len() {
        let children = t.arena[i as int]->Some_0.children;
        if forall|key: u64| !#[trigger] children.contains_key(key) {
            assert(children.dom() =~= Set::<u64>::empty());
        }
    }
}

/// Releasing one slab block: its node is held once less if it was held, and leaves the
/// trie if it is then held by nobody and has no children. A slab block that is not on
/// file changes nothing. No other node changes, but that the parent of a node that
/// leaves may lose that child.
pub proof fn law_release_one(t: TrieView, id: BlockId, x: int)
    requires
        t.wf(),
        0 <= x < t.arena.len(),
    ensures
        ({
            let next = t.released(id);
            let i = t.by_block[id.0] as int;
            let n = t.arena[i]->Some_0;
            let was = t.arena[x]->Some_0;
            let is = next.arena[x]->Some_0;
            let leaf = forall|key: u64| !#[trigger] n.children.contains_key(key);
            &&& next.clock == t.clock
            &&& next.arena.len() == t.arena.len()
            &&& !t.by_block.contains_key(id.0) ==> next == t
            &&& t.by_block.contains_key(id.0) && n.rc <= 1 && leaf ==> {
                &&& next.arena[i] is None
                &&& !next.by_block.contains_key(id.0)
                &&& next.free == t.free.push(i as usize)
                &&& x != i && t.arena[x] is Some ==> {
                    &&& next.arena[x] is Some
                    &&& is.rc == was.rc
                    &&& is.last_used == was.last_used
                    &&& is.tokens == was.tokens
                    &&& is.block_id == was.block_id
                    &&& forall|key: u64|
                        #![trigger is.children.contains_key(key)]
                        #![trigger was.children.contains_key(key)]
                        (is.children.contains_key(key) ==> was.children.contains_key(key)
                            && is.children[key] == was.children[key]) && (
                        was.children.contains_key(key) && was.children[key] != i
                            ==> is.children.contains_key(key))
                }
            }
            &&& t.by_block.contains_key(id.0) && !(n.rc <= 1 && leaf) ==> {
                &&& next.arena[x] is Some <==> t.arena[x] is Some
                &&& next.by_block == t.by_block
                &&& next.free == t.free
                &&& next.root == t.root
                &&& t.arena[x] is Some ==> {
                    &&& same_place(was, is)
                    &&& is.last_used == was.last_used
                    &&& is.rc == if x == i && was.rc > 0 {
                        was.rc - 1
                    } else {
                        was.rc as int
                    }
                }
            }
        }),
{
    if t.by_block.contains_key(id.0) {
        let i = t.by_block[id.0] as int;
        assert(t.live(i));
        t.lemma_unheld_wf(i);
        let held = t.unheld(i);
        let n = t.arena[i]->Some_0;
        assert(held.node(i).children == n.children);
        if forall|key: u64| !#[trigger] n.children.contains_key(key) {
            assert(n.children.dom() =~= Set::<u64>::empty());
        }
        if held.evictable(i) {
            assert forall|key: u64| !#[trigger] n.children.contains_key(key) by {
                assert(!n.children.dom().contains(key));
            }
            held.lemma_without_wf(i);
            if x != i && t.arena[x] is Some {
                assert(held.live(x));
                assert(held.without(i).arena[x] is Some);
                let was = t.arena[x]->Some_0;
                let is = held.without(i).arena[x]->Some_0;
                assert forall|key: u64|
                    #![trigger is.children.contains_key(key)]
                    #![trigger was.children.contains_key(key)]
                    (is.children.contains_key(key) ==> was.children.contains_key(key)
                        && is.children[key] == was.children[key]) && (was.children.contains_key(key)
                        && was.children[key] != i ==> is.children.contains_key(key)) by {
                    assert(held.child(Some(x as usize), key) == t.child(Some(x as usize), key));
                    assert(held.without(i).child(Some(x as usize), key) == (if held.child(
                        Some(x as usize),
                        key,
                    ) == Some(i as usize) {
                        None
                    } else {
                        held.child(Some(x as usize), key)
                    }));
                }
            }
        }
    }
}

/// Retaining one slab block holds its node once more, and changes nothing else.
pub proof fn law_retain_one(t: TrieView, id: BlockId, x: int)
    requires
        t.wf(),
        0 <= x < t.arena.len(),
        t.by_block.contains_key(id.0) ==> t.arena[t.by_block[id.0] as int]->Some_0.rc < u32::MAX,
    ensures
        ({
            let next = t.retained(id);
            let was = t.arena[x]->Some_0;
            let is = next.arena[x]->Some_0;
            &&& next.clock == t.clock
            &&& next.arena.len() == t.arena.len()
            &&& next.free == t.free
            &&& next.root == t.root
            &&& next.by_block == t.by_block
            &&& next.arena[x] is Some <==> t.arena[x] is Some
            &&& t.arena[x] is Some ==> {
                &&& same_place(was, is)
                &&& is.last_used == was.last_used
                &&& is.rc == if t.by_block.contains_key(id.0) && t.by_block[id.0] == x {
                    was.rc + 1
                } else {
                    was.rc as int
                }
            }
        }),
{
    if t.by_block.contains_key(id.0) {
        assert(t.live(t.by_block[id.0] as int));
    }
}

/// Releasing several slab blocks is releasing the last of them first and then the
/// others in the same way; retaining several is retaining each.
pub proof fn law_release_backwards(t: TrieView, ids: Seq<BlockId>, id: BlockId)
    ensures
        t.released_all(Seq::empty()) == t,
        t.released_all(ids.push(id)) == t.released(id).released_all(ids),
        t.retained_all(Seq::empty()) == t,
        t.retained_all(ids.push(id)) == t.retained_all(ids).retained(id),
{
    assert(ids.push(id).drop_last() =~= ids);
}

/// An empty slot is used again before the trie grows.
pub proof fn law_slot_reused(
    t: TrieView,
    p: Option<usize>,
    key: u64,
    block: Seq<TokenId>,
    id: BlockId,
)
    requires
        t.wf(),
        t.known(p),
        t.arena.len() < usize::MAX || t.free.len() > 0,
    ensures
        t.add_node(p, key, block, id).arena.len() == if t.free.len() > 0 {
            t.arena.len()
        } else {
            t.arena.len() + 1
        },
        t.add_node(p, key, block, id).free.len() == if t.free.len() > 0 {
            t.free.len() - 1
        } else {
            0
        },
{
    if t.free.len() > 0 {
        assert(t.free[t.free.len() - 1] < t.arena.len());
    }
}

/// The slab blocks of some nodes are the ones they stand for, in their order.
pub proof fn law_ids(t: TrieView, path: Seq<usize>)
    ensures
        t.ids(path).len() == path.len(),
        forall|j: int|
            #![trigger t.ids(path)[j]]
            0 <= j < path.len() ==> t.ids(path)[j] == t.arena[path[j] as int]->Some_0.block_id,
{
}

/// A fork can be counted exactly if no node of the cached path is held as often as can be
/// counted.
pub proof fn law_can_fork(t: TrieView, keys: Seq<u64>, blocks: Seq<Seq<TokenId>>)
    ensures
        t.can_fork(keys, blocks) <==> !exists|j: int|
            0 <= j < t.walk(keys, blocks).len() && t.arena[(#[trigger] t.walk(
                keys,
                blocks,
            )[j]) as int]->Some_0.rc == u32::MAX,
{
    let w = t.walk(keys, blocks);
    if !t.can_fork(keys, blocks) {
        let j = choose|j: int|
            0 <= j < w.len() && !(t.node((#[trigger] w[j]) as int).rc < u32::MAX);
        assert(t.arena[w[j] as int]->Some_0.rc == u32::MAX);
    }
}

/// An eviction empties the slots of the nodes that go, which can be used again, and
/// leaves the others as they were, but for children that went. The clock stands still.
pub proof fn law_evict_outcome(t: TrieView, slots: Seq<usize>, i: int)
    requires
        t.wf(),
        slots.no_duplicates(),
        forall|j: int| 0 <= j < slots.len() ==> t.live(#[trigger] slots[j] as int),
        0 <= i < t.arena.len(),
    ensures
        ({
            let next = t.without_all(slots);
            let was = t.arena[i]->Some_0;
            let is = next.arena[i]->Some_0;
            &&& next.clock == t.clock
            &&& next.arena.len() == t.arena.len()
            &&& next.free == t.free + slots
            &&& next.arena[i] is Some <==> t.arena[i] is Some && !slots.contains(i as usize)
            &&& next.arena[i] is Some ==> {
                &&& is.rc == was.rc
                &&& is.last_used == was.last_used
                &&& is.tokens == was.tokens
                &&& is.block_id == was.block_id
                &&& is.parent == was.parent
                &&& is.parent_key == was.parent_key
            }
        }),
{
    t.lemma_without_all_wf(slots);
    lemma_without_free(t, slots);
    let next = t.without_all(slots);
    if t.arena[i] is Some && !slots.contains(i as usize) {
        assert(t.live(i));
        assert(next.arena[i] is Some);
    }
    if slots.contains(i as usize) {
        let j = choose|j: int| 0 <= j < slots.len() && slots[j] == i as usize;
        assert(!next.live(slots[j] as int));
    }
    if next.arena[i] is Some {
        assert(next.live(i));
        assert(t.live(i));
    }
}

/// The slots of nodes that are taken out are listed as free, in that order.
proof fn lemma_without_free(t: TrieView, slots: Seq<usize>)
    ensures
        t.without_all(slots).free == t.free + slots,
        t.without_all(slots).clock == t.clock,
    decreases slots.len(),
{
    if slots.len() > 0 {
        lemma_without_free(t, slots.drop_last());
        let mid = t.without_all(slots.drop_last());
        assert(mid.without(slots.last() as int).free =~= t.free + slots);
    } else {
        assert(t.free + slots =~= t.free);
    }
}

/// Neither releasing nor retaining a slab block nor taking nodes out makes a time of use
/// later than now.
pub proof fn law_stamped_stays(t: TrieView, id: BlockId, slots: Seq<usize>)
    requires
        t.wf(),
        stamped(t),
        slots.no_duplicates(),
        forall|j: int| 0 <= j < slots.len() ==> t.live(#[trigger] slots[j] as int),
        t.by_block.contains_key(id.0) ==> t.arena[t.by_block[id.0] as int]->Some_0.rc < u32::MAX,
    ensures
        stamped(t.released(id)),
        stamped(t.retained(id)),
        stamped(t.without_all(slots)),
{
    assert forall|i: int|
        0 <= i < t.released(id).arena.len() && #[trigger] t.released(id).arena[i] is Some implies
        t.released(id).arena[i]->Some_0.last_used <= t.released(id).clock by {
        lemma_released_all(t, seq![id]);
        assert(seq![id].drop_last() =~= Seq::empty());
        assert(t.released_all(seq![id]) == t.released(id).released_all(Seq::empty()));
        assert(t.released_all(seq![id]).live(i));
        assert(t.arena[i] is Some);
        law_release_one(t, id, i);
    }
    assert forall|i: int|
        0 <= i < t.retained(id).arena.len() && #[trigger] t.retained(id).arena[i] is Some implies
        t.retained(id).arena[i]->Some_0.last_used <= t.retained(id).clock by {
        law_retain_one(t, id, i);
        assert(t.arena[i] is Some);
    }
    assert forall|i: int|
        0 <= i < t.without_all(slots).arena.len() && #[trigger] t.without_all(slots).arena[i] is Some implies
        t.without_all(slots).arena[i]->Some_0.last_used <= t.without_all(slots).clock by {
        t.lemma_without_all_wf(slots);
        law_evict_outcome(t, slots, i);
        assert(t.arena[i] is Some);
    }
}

} // verus!
