//! The routing index: which artifact serves the longest prefix of a token
//! sequence.
//!
//! A route is filed block by block, under the key of each block and its tokens, so
//! blocks whose keys collide have routes of their own. Any number of artifacts may
//! be filed at the end of the same route; the one filed last comes first.

use crate::coherence::ArtifactId;
use crate::kv::tokens;
use crate::kv::TokenId;
use std::collections::HashMap;
use vstd::prelude::*;

verus! {

broadcast use vstd::std_specs::hash::group_hash_axioms;

/// The blocks of `tokens` along which an artifact is filed, each with its key.
pub open spec fn path_of(keys: Seq<u64>, tokens: Seq<TokenId>, b: nat) -> Seq<
    (u64, Seq<TokenId>),
> {
    Seq::new(
        tokens::block_count(tokens, b),
        |i: int| (keys[i], tokens::block_at(tokens, b, i)),
    )
}

/// The artifacts of `list` but `id`, in their order.
pub open spec fn minus(list: Seq<ArtifactId>, id: ArtifactId) -> Seq<ArtifactId>
    decreases list.len(),
{
    if list.len() == 0 {
        Seq::empty()
    } else if list.last() == id {
        minus(list.drop_last(), id)
    } else {
        minus(list.drop_last(), id).push(list.last())
    }
}

/// What is left of a list: all artifacts but one keep their order.
pub proof fn lemma_minus(list: Seq<ArtifactId>, id: ArtifactId)
    ensures
        forall|x: ArtifactId| #[trigger]
            minus(list, id).contains(x) <==> list.contains(x) && x != id,
        list.no_duplicates() ==> minus(list, id).no_duplicates(),
        !list.contains(id) ==> minus(list, id) == list,
    decreases list.len(),
{
    if list.len() > 0 {
        let front = list.drop_last();
        lemma_minus(front, id);
        let rest = minus(list, id);
        assert(list =~= front.push(list.last()));
        assert forall|x: ArtifactId| #[trigger] rest.contains(x) <==> list.contains(x) && x
            != id by {
            if front.contains(x) {
                let j = choose|j: int| 0 <= j < front.len() && front[j] == x;
                assert(list[j] == x);
            }
            if list.contains(x) {
                let j = choose|j: int| 0 <= j < list.len() && list[j] == x;
                if j < front.len() {
                    assert(front[j] == x);
                }
            }
            let kept = minus(front, id);
            if list.last() != id {
                assert(rest == kept.push(list.last()));
                assert(rest[kept.len() as int] == list.last());
                if kept.contains(x) {
                    let j = choose|j: int| 0 <= j < kept.len() && kept[j] == x;
                    assert(rest[j] == x);
                }
                if rest.contains(x) {
                    let j = choose|j: int| 0 <= j < rest.len() && rest[j] == x;
                    if j < kept.len() {
                        assert(kept[j] == x);
                    }
                }
            }
        }
        if list.no_duplicates() {
            let kept = minus(front, id);
            assert(!front.contains(list.last())) by {
                if front.contains(list.last()) {
                    let j = choose|j: int| 0 <= j < front.len() && front[j] == list.last();
                    assert(list[j] == list[list.len() - 1]);
                }
            }
            assert(!kept.contains(list.last()));
        }
        if !list.contains(id) {
            assert(list[list.len() - 1] != id);
            assert(!front.contains(id)) by {
                if front.contains(id) {
                    let j = choose|j: int| 0 <= j < front.len() && front[j] == id;
                    assert(list[j] == id);
                }
            }
        }
    }
}

/// An artifact that is listed once leaves a gap, and the others close up.
pub proof fn lemma_minus_one(list: Seq<ArtifactId>, id: ArtifactId, j: int)
    requires
        list.no_duplicates(),
        0 <= j < list.len(),
        list[j] == id,
    ensures
        minus(list, id) == list.remove(j),
    decreases list.len(),
{
    let front = list.drop_last();
    if j == front.len() {
        assert(!front.contains(id)) by {
            if front.contains(id) {
                let i = choose|i: int| 0 <= i < front.len() && front[i] == id;
                assert(list[i] == list[j]);
            }
        }
        lemma_minus(front, id);
        assert(list.remove(j) =~= front);
    } else {
        assert(front[j] == id);
        lemma_minus_one(front, id, j);
        assert(list.last() != id);
        assert(list.remove(j) =~= front.remove(j).push(list.last()));
    }
}

/// What the index is: the artifacts filed at the end of each route, the latest
/// last.
#[verifier::ext_equal]
pub struct RouteView {
    pub lists: Map<Seq<(u64, Seq<TokenId>)>, Seq<ArtifactId>>,
}

impl RouteView {
    /// The index without routes.
    pub open spec fn empty() -> RouteView {
        RouteView { lists: Map::empty() }
    }

    /// The artifacts filed at the end of `path`.
    pub open spec fn at(self, path: Seq<(u64, Seq<TokenId>)>) -> Seq<ArtifactId> {
        if self.lists.contains_key(path) {
            self.lists[path]
        } else {
            Seq::empty()
        }
    }

    /// Only routes that lead somewhere are there, and none to nowhere.
    pub open spec fn wf(self) -> bool {
        &&& !self.lists.contains_key(Seq::empty())
        &&& forall|path: Seq<(u64, Seq<TokenId>)>|
            #![trigger self.lists[path]]
            self.lists.contains_key(path) ==> self.lists[path].len() > 0
    }

    /// The index with `list` at the end of `path`.
    pub open spec fn put(
        self,
        path: Seq<(u64, Seq<TokenId>)>,
        list: Seq<ArtifactId>,
    ) -> RouteView {
        RouteView {
            lists: if path.len() == 0 {
                self.lists
            } else if list.len() == 0 {
                self.lists.remove(path)
            } else {
                self.lists.insert(path, list)
            },
        }
    }

    /// The index after `id` is filed at the end of `path`; it comes first there
    /// from then on. Nothing can be filed without a block.
    pub open spec fn with(self, path: Seq<(u64, Seq<TokenId>)>, id: ArtifactId) -> RouteView {
        self.put(path, minus(self.at(path), id).push(id))
    }

    /// The index after `id` is withdrawn from the end of `path`. Others that are
    /// filed there stay.
    pub open spec fn without(self, path: Seq<(u64, Seq<TokenId>)>, id: ArtifactId) -> RouteView {
        self.put(path, minus(self.at(path), id))
    }

    /// The index after all artifacts are withdrawn from the end of `path`.
    pub open spec fn cleared(self, path: Seq<(u64, Seq<TokenId>)>) -> RouteView {
        self.put(path, Seq::empty())
    }

    /// Some artifact is filed at the end of the first `d` blocks of `query`.
    pub open spec fn routed(self, query: Seq<(u64, Seq<TokenId>)>, d: int) -> bool {
        0 < d <= query.len() && self.at(query.take(d)).len() > 0
    }

    /// `best` is the artifact filed last at the deepest place on the way along
    /// `query`, with its depth.
    pub open spec fn is_longest(
        self,
        query: Seq<(u64, Seq<TokenId>)>,
        best: Option<(ArtifactId, int)>,
    ) -> bool {
        match best {
            Some((id, d)) => {
                &&& self.routed(query, d)
                &&& self.at(query.take(d)).last() == id
                &&& forall|e: int| #[trigger] self.routed(query, e) ==> e <= d
            },
            None => forall|e: int| !#[trigger] self.routed(query, e),
        }
    }
}

struct RoutingNode {
    tokens: Vec<TokenId>,
    artifacts: Vec<ArtifactId>,
    children: HashMap<u64, Vec<RoutingNode>>,
}

/// An index over blocks of `B` tokens.
pub struct RoutingIndex<const B: usize> {
    root: HashMap<u64, Vec<RoutingNode>>,
}

/// Where in `bucket`, from `i` on, the node for `tokens` is.
spec fn pick_from(bucket: Seq<RoutingNode>, tokens: Seq<TokenId>, i: int) -> Option<int>
    decreases bucket.len() - i,
{
    if i < 0 || bucket.len() <= i {
        None
    } else if bucket[i].tokens@ == tokens {
        Some(i)
    } else {
        pick_from(bucket, tokens, i + 1)
    }
}

/// Where in `bucket` the node for `tokens` is.
spec fn pick(bucket: Seq<RoutingNode>, tokens: Seq<TokenId>) -> Option<int> {
    pick_from(bucket, tokens, 0)
}

/// The node that `map` has for a block.
spec fn node_at(map: Map<u64, Vec<RoutingNode>>, head: (u64, Seq<TokenId>)) -> Option<
    RoutingNode,
> {
    if map.contains_key(head.0) {
        match pick(map[head.0]@, head.1) {
            Some(i) => Some(map[head.0]@[i]),
            None => None,
        }
    } else {
        None
    }
}

/// The artifacts filed at the end of `path`, starting from `map`.
spec fn find(map: Map<u64, Vec<RoutingNode>>, path: Seq<(u64, Seq<TokenId>)>) -> Seq<ArtifactId>
    decreases path.len(),
{
    if path.len() == 0 {
        Seq::empty()
    } else {
        match node_at(map, path[0]) {
            Some(node) => if path.len() == 1 {
                node.artifacts@
            } else {
                find(node.children@, path.skip(1))
            },
            None => Seq::empty(),
        }
    }
}

/// A node that is picked is in its place and holds the tokens.
proof fn lemma_pick(bucket: Seq<RoutingNode>, tokens: Seq<TokenId>, i: int)
    requires
        0 <= i,
    ensures
        match pick_from(bucket, tokens, i) {
            Some(k) => i <= k < bucket.len() && bucket[k].tokens@ == tokens,
            None => true,
        },
    decreases bucket.len() - i,
{
    if i < bucket.len() && bucket[i].tokens@ != tokens {
        lemma_pick(bucket, tokens, i + 1);
    }
}

/// Nodes that hold the same tokens are picked from the same places.
proof fn lemma_pick_same(
    bucket: Seq<RoutingNode>,
    other: Seq<RoutingNode>,
    tokens: Seq<TokenId>,
    i: int,
)
    requires
        0 <= i,
        bucket.len() == other.len(),
        forall|k: int|
            #![trigger bucket[k]]
            0 <= k < bucket.len() ==> bucket[k].tokens@ == other[k].tokens@,
    ensures
        pick_from(bucket, tokens, i) == pick_from(other, tokens, i),
    decreases bucket.len() - i,
{
    if i < bucket.len() {
        assert(bucket[i].tokens@ == other[i].tokens@);
        lemma_pick_same(bucket, other, tokens, i + 1);
    }
}

/// A node at the end is picked if no other is.
proof fn lemma_pick_push(bucket: Seq<RoutingNode>, node: RoutingNode, tokens: Seq<TokenId>, i: int)
    requires
        0 <= i <= bucket.len(),
    ensures
        pick_from(bucket.push(node), tokens, i) == match pick_from(bucket, tokens, i) {
            Some(k) => Some(k),
            None => if node.tokens@ == tokens {
                Some(bucket.len() as int)
            } else {
                None
            },
        },
    decreases bucket.len() - i,
{
    if i < bucket.len() {
        assert(bucket.push(node)[i] == bucket[i]);
        lemma_pick_push(bucket, node, tokens, i + 1);
    } else {
        assert(pick_from(bucket.push(node), tokens, i + 1) is None);
    }
}

/// What is left of a list: without one artifact, or nothing.
spec fn pruned(list: Seq<ArtifactId>, id: Option<ArtifactId>) -> Seq<ArtifactId> {
    match id {
        Some(x) => minus(list, x),
        None => Seq::empty(),
    }
}

/// The artifacts of `list` but `id`.
fn list_minus(list: &Vec<ArtifactId>, id: ArtifactId) -> (rest: Vec<ArtifactId>)
    ensures
        rest@ == minus(list@, id),
{
    let mut rest: Vec<ArtifactId> = Vec::new();
    let mut i: usize = 0;
    while i < list.len()
        invariant
            i <= list.len(),
            rest@ == minus(list@.take(i as int), id),
        decreases list.len() - i,
    {
        let x = list[i];
        if x != id {
            rest.push(x);
        }
        i = i + 1;
        assert(list@.take(i as int).drop_last() =~= list@.take(i - 1));
    }
    assert(list@.take(i as int) =~= list@);
    rest
}

/// Where in `bucket` the node for `tokens` is.
fn pick_index(bucket: &Vec<RoutingNode>, tokens: &[TokenId]) -> (at: Option<usize>)
    ensures
        match at {
            Some(k) => pick(bucket@, tokens@) == Some(k as int) && k < bucket@.len(),
            None => pick(bucket@, tokens@) is None,
        },
{
    let mut i: usize = 0;
    while i < bucket.len()
        invariant
            i <= bucket.len(),
            pick(bucket@, tokens@) == pick_from(bucket@, tokens@, i as int),
        decreases bucket.len() - i,
    {
        if tokens::same_tokens(bucket[i].tokens.as_slice(), tokens) {
            return Some(i);
        }
        i = i + 1;
    }
    None
}

/// One node of one bucket changed or was added: the other blocks lead where they
/// led.
proof fn lemma_node_put(
    map: Map<u64, Vec<RoutingNode>>,
    next: Map<u64, Vec<RoutingNode>>,
    head: (u64, Seq<TokenId>),
    node: RoutingNode,
)
    requires
        node.tokens@ == head.1,
        next.contains_key(head.0),
        next == map.insert(head.0, next[head.0]),
        ({
            let bucket = if map.contains_key(head.0) {
                map[head.0]@
            } else {
                Seq::empty()
            };
            next[head.0]@ == match pick(bucket, head.1) {
                Some(k) => bucket.update(k, node),
                None => bucket.push(node),
            }
        }),
    ensures
        node_at(next, head) == Some(node),
        forall|other: (u64, Seq<TokenId>)|
            other != head ==> #[trigger] node_at(next, other) == node_at(map, other),
{
    let bucket = if map.contains_key(head.0) {
        map[head.0]@
    } else {
        Seq::empty()
    };
    let after = next[head.0]@;
    lemma_pick(bucket, head.1, 0);
    match pick(bucket, head.1) {
        Some(k) => {
            lemma_pick_same(bucket, after, head.1, 0);
        },
        None => {
            lemma_pick_push(bucket, node, head.1, 0);
        },
    }
    assert forall|other: (u64, Seq<TokenId>)| other != head implies #[trigger] node_at(next, other)
        == node_at(map, other) by {
        if other.0 == head.0 {
            lemma_pick(bucket, other.1, 0);
            match pick(bucket, head.1) {
                Some(k) => {
                    lemma_pick_same(bucket, after, other.1, 0);
                },
                None => {
                    lemma_pick_push(bucket, node, other.1, 0);
                },
            }
        }
    }
}

/// The artifacts at the end of every path after one node changed.
proof fn lemma_find_put(
    map: Map<u64, Vec<RoutingNode>>,
    next: Map<u64, Vec<RoutingNode>>,
    before: RoutingNode,
    node: RoutingNode,
    here: Seq<(u64, Seq<TokenId>)>,
    list: Seq<ArtifactId>,
)
    requires
        here.len() > 0,
        node_at(next, here[0]) == Some(node),
        forall|other: (u64, Seq<TokenId>)|
            other != here[0] ==> #[trigger] node_at(next, other) == node_at(map, other),
        match node_at(map, here[0]) {
            Some(n) => n == before,
            None => before.artifacts@ == Seq::<ArtifactId>::empty() && before.children@ == Map::<
                u64,
                Vec<RoutingNode>,
            >::empty(),
        },
        node.artifacts@ == if here.len() == 1 {
            list
        } else {
            before.artifacts@
        },
        here.len() == 1 ==> node.children@ == before.children@,
        here.len() > 1 ==> forall|path: Seq<(u64, Seq<TokenId>)>| #[trigger]
            find(node.children@, path) == if path == here.skip(1) {
                list
            } else {
                find(before.children@, path)
            },
    ensures
        forall|path: Seq<(u64, Seq<TokenId>)>| #[trigger]
            find(next, path) == if path == here {
                list
            } else {
                find(map, path)
            },
{
    assert forall|path: Seq<(u64, Seq<TokenId>)>| #[trigger] find(next, path) == if path == here {
        list
    } else {
        find(map, path)
    } by {
        if path.len() > 0 {
            if path[0] != here[0] {
                assert(node_at(next, path[0]) == node_at(map, path[0]));
                assert(find(next, path) == find(map, path));
            } else if path.len() == 1 {
                if here.len() == 1 {
                    assert(path =~= here);
                }
                assert(find(next, path) == node.artifacts@);
                assert(find(map, path) == before.artifacts@);
            } else {
                assert(find(next, path) == find(node.children@, path.skip(1)));
                let rest = path.skip(1);
                assert(find(before.children@, rest) == find(map, path)) by {
                    if node_at(map, here[0]) is None {
                        assert(node_at(before.children@, rest[0]) is None);
                    }
                }
                if here.len() > 1 {
                    if rest == here.skip(1) {
                        assert(here.skip(1).len() == here.len() - 1);
                        assert forall|k: int| 0 <= k < path.len() implies path[k] == here[k] by {
                            if k > 0 {
                                assert(path[k] == rest[k - 1]);
                                assert(here[k] == here.skip(1)[k - 1]);
                            }
                        }
                        assert(path =~= here);
                    }
                }
            }
        }
    }
}

impl<const B: usize> View for RoutingIndex<B> {
    type V = RouteView;

    closed spec fn view(&self) -> RouteView {
        RouteView {
            lists: Map::new(
                |path: Seq<(u64, Seq<TokenId>)>| find(self.root@, path).len() > 0,
                |path: Seq<(u64, Seq<TokenId>)>| find(self.root@, path),
            ),
        }
    }
}

impl<const B: usize> RoutingIndex<B> {
    /// The artifacts at the end of a path are those that the nodes lead to.
    proof fn lemma_at(self, path: Seq<(u64, Seq<TokenId>)>)
        ensures
            self@.at(path) == find(self.root@, path),
    {
        if find(self.root@, path).len() == 0 {
            assert(find(self.root@, path) =~= Seq::empty());
        }
    }

    /// An index holds only routes that lead somewhere.
    pub proof fn law_wf(self)
        ensures
            self@.wf(),
    {
        assert(find(self.root@, Seq::empty()).len() == 0);
    }

    /// The empty index.
    pub fn new() -> (index: Self)
        ensures
            index@ == RouteView::empty(),
    {
        let index = RoutingIndex { root: HashMap::new() };
        assert forall|path: Seq<(u64, Seq<TokenId>)>| #[trigger]
            find(index.root@, path).len() == 0 by {
            if path.len() > 0 {
                assert(node_at(index.root@, path[0]) is None);
            }
        }
        assert(index@ =~= RouteView::empty());
        index
    }

    /// Files `id` at the end of a route, from block `i` on, below `map`.
    fn insert_into(
        map: &mut HashMap<u64, Vec<RoutingNode>>,
        tokens: &[TokenId],
        keys: &[u64],
        i: usize,
        id: ArtifactId,
    )
        requires
            0 < B,
            keys@.len() == tokens::block_count(tokens@, B as nat),
            i < keys@.len(),
        ensures
            forall|path: Seq<(u64, Seq<TokenId>)>| #[trigger]
                find(final(map)@, path) == if path == path_of(keys@, tokens@, B as nat).skip(
                    i as int,
                ) {
                    minus(find(old(map)@, path), id).push(id)
                } else {
                    find(old(map)@, path)
                },
        decreases keys@.len() - i,
    {
        let ghost start = map@;
        let ghost whole = path_of(keys@, tokens@, B as nat);
        let ghost here = whole.skip(i as int);
        let key: u64 = keys[i];
        let block = tokens::block_slice::<B>(tokens, i);
        let mut bucket = match map.remove(&key) {
            Some(bucket) => bucket,
            None => Vec::new(),
        };
        let ghost nodes = bucket@;
        let at = pick_index(&bucket, block);
        let mut node = match at {
            Some(k) => bucket.remove(k),
            None => RoutingNode {
                tokens: vstd::slice::slice_to_vec(block),
                artifacts: Vec::new(),
                children: HashMap::new(),
            },
        };
        let ghost before = node;
        proof {
            lemma_pick(nodes, block@, 0);
            assert(here[0] == (key, block@));
            assert(here.skip(1) =~= whole.skip(i + 1));
        }
        if i + 1 == keys.len() {
            let mut artifacts = list_minus(&node.artifacts, id);
            artifacts.push(id);
            node.artifacts = artifacts;
        } else {
            Self::insert_into(&mut node.children, tokens, keys, i + 1, id);
        }
        let ghost after = node;
        match at {
            Some(k) => {
                bucket.insert(k, node);
                assert(bucket@ =~= nodes.update(k as int, after));
            },
            None => {
                bucket.push(node);
            },
        }
        map.insert(key, bucket);
        proof {
            assert(map@ =~= start.insert(key, map@[key]));
            lemma_node_put(start, map@, here[0], after);
            assert(find(start, here) == if here.len() == 1 {
                before.artifacts@
            } else {
                find(before.children@, here.skip(1))
            }) by {
                if node_at(start, here[0]) is None && here.len() > 1 {
                    assert(node_at(before.children@, here.skip(1)[0]) is None);
                }
            }
            let list = minus(find(start, here), id).push(id);
            lemma_find_put(start, map@, before, after, here, list);
        }
    }

    /// Withdraws `id`, or all artifacts, from the end of a route, from block `i` on,
    /// below `map`.
    fn remove_from(
        map: &mut HashMap<u64, Vec<RoutingNode>>,
        tokens: &[TokenId],
        keys: &[u64],
        i: usize,
        id: Option<ArtifactId>,
    )
        requires
            0 < B,
            keys@.len() == tokens::block_count(tokens@, B as nat),
            i < keys@.len(),
        ensures
            forall|path: Seq<(u64, Seq<TokenId>)>| #[trigger]
                find(final(map)@, path) == if path == path_of(keys@, tokens@, B as nat).skip(
                    i as int,
                ) {
                    pruned(find(old(map)@, path), id)
                } else {
                    find(old(map)@, path)
                },
        decreases keys@.len() - i,
    {
        let ghost start = map@;
        let ghost whole = path_of(keys@, tokens@, B as nat);
        let ghost here = whole.skip(i as int);
        let key: u64 = keys[i];
        let block = tokens::block_slice::<B>(tokens, i);
        proof {
            assert(here[0] == (key, block@));
            assert(here.skip(1) =~= whole.skip(i + 1));
        }
        match map.remove(&key) {
            Some(bucket) => {
                let mut bucket = bucket;
                let ghost nodes = bucket@;
                proof {
                    lemma_pick(nodes, block@, 0);
                }
                match pick_index(&bucket, block) {
                    Some(k) => {
                        let mut node = bucket.remove(k);
                        let ghost before = node;
                        if i + 1 == keys.len() {
                            node.artifacts = match id {
                                Some(x) => list_minus(&node.artifacts, x),
                                None => Vec::new(),
                            };
                        } else {
                            Self::remove_from(&mut node.children, tokens, keys, i + 1, id);
                        }
                        let ghost after = node;
                        bucket.insert(k, node);
                        assert(bucket@ =~= nodes.update(k as int, after));
                        map.insert(key, bucket);
                        proof {
                            assert(map@ =~= start.insert(key, map@[key]));
                            lemma_node_put(start, map@, here[0], after);
                            let list = pruned(find(start, here), id);
                            lemma_find_put(start, map@, before, after, here, list);
                        }
                    },
                    None => {
                        map.insert(key, bucket);
                        assert(map@ =~= start);
                        assert(node_at(start, here[0]) is None);
                        assert(find(start, here) =~= pruned(find(start, here), id));
                    },
                }
            },
            None => {
                assert(map@ =~= start);
                assert(node_at(start, here[0]) is None);
                assert(find(start, here) =~= pruned(find(start, here), id));
            },
        }
    }

    /// The index after the list at the end of one path changed.
    proof fn lemma_put(self, other: Self, path: Seq<(u64, Seq<TokenId>)>, list: Seq<ArtifactId>)
        requires
            path.len() > 0,
            forall|p: Seq<(u64, Seq<TokenId>)>| #[trigger]
                find(other.root@, p) == if p == path {
                    list
                } else {
                    find(self.root@, p)
                },
        ensures
            other@ == self@.put(path, list),
    {
        let next = self@.put(path, list);
        assert forall|p: Seq<(u64, Seq<TokenId>)>| #[trigger] other@.lists.contains_key(p)
            == next.lists.contains_key(p) by {
            assert(find(other.root@, p).len() > 0 <==> other@.lists.contains_key(p));
        }
        assert forall|p: Seq<(u64, Seq<TokenId>)>| #[trigger] other@.lists.contains_key(
            p,
        ) implies other@.lists[p] == next.lists[p] by {
            assert(find(other.root@, p).len() > 0);
            assert(next.lists.contains_key(p));
        }
        assert(other@.lists =~= next.lists);
    }

    /// Files `id` along the blocks of `tokens`, which have the keys `keys`.
    pub fn insert_keyed(&mut self, tokens: &[TokenId], keys: &[u64], id: ArtifactId)
        requires
            0 < B,
            tokens@.len() % (B as nat) == 0,
            keys@.len() == tokens::block_count(tokens@, B as nat),
        ensures
            final(self)@ == old(self)@.with(path_of(keys@, tokens@, B as nat), id),
    {
        let ghost path = path_of(keys@, tokens@, B as nat);
        if keys.len() > 0 {
            Self::insert_into(&mut self.root, tokens, keys, 0, id);
            proof {
                assert(path.skip(0) =~= path);
                old(self).lemma_at(path);
                old(self).lemma_put(*self, path, minus(old(self)@.at(path), id).push(id));
            }
        }
    }

    /// Withdraws `id` from the end of the route along the blocks of `tokens`, which
    /// have the keys `keys`.
    pub fn withdraw_keyed(&mut self, tokens: &[TokenId], keys: &[u64], id: ArtifactId)
        requires
            0 < B,
            keys@.len() == tokens::block_count(tokens@, B as nat),
        ensures
            final(self)@ == old(self)@.without(path_of(keys@, tokens@, B as nat), id),
    {
        let ghost path = path_of(keys@, tokens@, B as nat);
        if keys.len() > 0 {
            Self::remove_from(&mut self.root, tokens, keys, 0, Some(id));
            proof {
                assert(path.skip(0) =~= path);
                old(self).lemma_at(path);
                old(self).lemma_put(*self, path, minus(old(self)@.at(path), id));
            }
        }
    }

    /// Withdraws all artifacts from the end of the route along the blocks of
    /// `tokens`, which have the keys `keys`.
    pub fn remove_keyed(&mut self, tokens: &[TokenId], keys: &[u64])
        requires
            0 < B,
            keys@.len() == tokens::block_count(tokens@, B as nat),
        ensures
            final(self)@ == old(self)@.cleared(path_of(keys@, tokens@, B as nat)),
    {
        let ghost path = path_of(keys@, tokens@, B as nat);
        if keys.len() > 0 {
            Self::remove_from(&mut self.root, tokens, keys, 0, None);
            proof {
                assert(path.skip(0) =~= path);
                old(self).lemma_put(*self, path, Seq::empty());
            }
        }
    }

    /// The artifact that is deepest on the way along `tokens`, whose blocks have the
    /// keys `keys`, and the number of blocks that lead to it.
    pub fn longest_prefix_keyed(&self, tokens: &[TokenId], keys: &[u64]) -> (best: Option<
        (ArtifactId, usize),
    >)
        requires
            0 < B,
            keys@.len() == tokens::block_count(tokens@, B as nat),
        ensures
            self@.is_longest(
                path_of(keys@, tokens@, B as nat),
                match best {
                    Some((id, d)) => Some((id, d as int)),
                    None => None,
                },
            ),
    {
        let ghost query = path_of(keys@, tokens@, B as nat);
        let n: usize = keys.len();
        let mut best: Option<(ArtifactId, usize)> = None;
        let mut current = &self.root;
        let mut i: usize = 0;
        assert forall|path: Seq<(u64, Seq<TokenId>)>| #[trigger] find(current@, path) == find(
            self.root@,
            query.take(0) + path,
        ) by {
            assert(query.take(0) + path =~= path);
        }
        while i < n
            invariant
                0 < B,
                i <= n,
                n == keys@.len(),
                n == query.len(),
                n == tokens::block_count(tokens@, B as nat),
                query == path_of(keys@, tokens@, B as nat),
                forall|path: Seq<(u64, Seq<TokenId>)>|
                    path.len() > 0 ==> #[trigger] find(current@, path) == find(
                        self.root@,
                        query.take(i as int) + path,
                    ),
                match best {
                    Some((id, d)) => d <= i && self@.routed(query, d as int) && self@.at(
                        query.take(d as int),
                    ).last() == id && forall|e: int|
                        e <= i && #[trigger] self@.routed(query, e) ==> e <= d,
                    None => forall|e: int| e <= i ==> !#[trigger] self@.routed(query, e),
                },
            decreases n - i,
        {
            let block = tokens::block_slice::<B>(tokens, i);
            let ghost head = query[i as int];
            let ghost here = query.take(i + 1);
            proof {
                assert(query.take(i as int) + seq![head] =~= here);
                assert(find(current@, seq![head]) == find(self.root@, here));
                self.lemma_at(here);
            }
            let found = match current.get(&keys[i]) {
                Some(bucket) => match pick_index(bucket, block) {
                    Some(k) => Some(&bucket[k]),
                    None => None,
                },
                None => None,
            };
            match found {
                Some(node) => {
                    assert(node_at(current@, head) == Some(*node));
                    assert(seq![head][0] == head);
                    assert(self@.at(here) == node.artifacts@);
                    if node.artifacts.len() > 0 {
                        best = Some((node.artifacts[node.artifacts.len() - 1], i + 1));
                        assert(self@.routed(query, i + 1));
                    } else {
                        assert(!self@.routed(query, i + 1));
                    }
                    assert forall|path: Seq<(u64, Seq<TokenId>)>| path.len() > 0 implies
                        #[trigger] find(node.children@, path) == find(self.root@, here + path) by {
                        let longer = seq![head] + path;
                        assert(longer[0] == head);
                        assert(longer.skip(1) =~= path);
                        assert(find(current@, longer) == find(
                            self.root@,
                            query.take(i as int) + longer,
                        ));
                        assert(query.take(i as int) + longer =~= here + path);
                    }
                    current = &node.children;
                    i = i + 1;
                },
                None => {
                    assert(node_at(current@, head) is None);
                    assert forall|e: int| #[trigger] self@.routed(query, e) implies e <= i by {
                        if e > i {
                            let rest = query.subrange(i as int, e);
                            assert(rest[0] == head);
                            assert(find(current@, rest).len() == 0);
                            assert(query.take(i as int) + rest =~= query.take(e));
                            self.lemma_at(query.take(e));
                        }
                    }
                    return best;
                },
            }
        }
        best
    }

    /// Files `id` along the blocks of `tokens`.
    pub fn insert(&mut self, tokens: &[TokenId], id: ArtifactId)
        requires
            0 < B,
            0 < tokens@.len(),
            tokens@.len() % (B as nat) == 0,
        ensures
            final(self)@ == old(self)@.with(
                path_of(tokens::keys_of(tokens@, B as nat), tokens@, B as nat),
                id,
            ),
    {
        let keys = tokens::block_keys::<B>(tokens);
        self.insert_keyed(tokens, keys.as_slice(), id);
    }

    /// Withdraws all artifacts from the end of the route along the blocks of
    /// `tokens`. Tokens that are not whole blocks have none.
    pub fn remove(&mut self, tokens: &[TokenId])
        requires
            0 < B,
        ensures
            final(self)@ == if tokens@.len() % (B as nat) == 0 {
                old(self)@.cleared(path_of(tokens::keys_of(tokens@, B as nat), tokens@, B as nat))
            } else {
                old(self)@
            },
    {
        if tokens.len() % B != 0 {
            return;
        }
        let keys = tokens::block_keys::<B>(tokens);
        self.remove_keyed(tokens, keys.as_slice());
    }

    /// The artifact that is deepest on the way along `tokens`, and the number of
    /// blocks that lead to it.
    pub fn longest_prefix(&self, tokens: &[TokenId]) -> (best: Option<(ArtifactId, usize)>)
        requires
            0 < B,
        ensures
            self@.is_longest(
                path_of(tokens::keys_of(tokens@, B as nat), tokens@, B as nat),
                match best {
                    Some((id, d)) => Some((id, d as int)),
                    None => None,
                },
            ),
    {
        let keys = tokens::block_keys::<B>(tokens);
        self.longest_prefix_keyed(tokens, keys.as_slice())
    }
}

/// There is one deepest artifact at most, so a lookup has one answer.
pub proof fn law_longest_unique(
    index: RouteView,
    query: Seq<(u64, Seq<TokenId>)>,
    one: Option<(ArtifactId, int)>,
    other: Option<(ArtifactId, int)>,
)
    requires
        index.is_longest(query, one),
        index.is_longest(query, other),
    ensures
        one == other,
{
    match (one, other) {
        (Some((_, d)), Some((_, e))) => {
            assert(index.routed(query, d));
            assert(index.routed(query, e));
        },
        (Some((_, d)), None) => {
            assert(index.routed(query, d));
        },
        (None, Some((_, e))) => {
            assert(index.routed(query, e));
        },
        (None, None) => {},
    }
}

/// A route that was made is taken: its blocks lead to the artifact that was filed,
/// and every sequence that starts with them leads at least as far.
pub proof fn law_route_then_find(
    index: RouteView,
    path: Seq<(u64, Seq<TokenId>)>,
    id: ArtifactId,
    query: Seq<(u64, Seq<TokenId>)>,
)
    requires
        0 < path.len() <= query.len(),
        query.take(path.len() as int) == path,
    ensures
        index.with(path, id).is_longest(path, Some((id, path.len() as int))),
        index.with(path, id).routed(query, path.len() as int),
{
    let next = index.with(path, id);
    assert(path.take(path.len() as int) =~= path);
    assert(next.at(path) == minus(index.at(path), id).push(id));
}

/// A new route leaves every lookup alone that does not lead along all of it.
pub proof fn law_new_route_elsewhere(
    index: RouteView,
    path: Seq<(u64, Seq<TokenId>)>,
    id: ArtifactId,
    query: Seq<(u64, Seq<TokenId>)>,
    best: Option<(ArtifactId, int)>,
)
    requires
        index.is_longest(query, best),
        !(path.len() <= query.len() && query.take(path.len() as int) == path),
    ensures
        index.with(path, id).is_longest(query, best),
{
    let next = index.with(path, id);
    assert forall|e: int| 0 <= e <= query.len() implies next.at(#[trigger] query.take(e))
        == index.at(query.take(e)) by {
        assert(query.take(e).len() == e);
    }
    assert forall|e: int| #[trigger] next.routed(query, e) <==> index.routed(query, e) by {
        if 0 < e <= query.len() {
            assert(next.at(query.take(e)) == index.at(query.take(e)));
        }
    }
    match best {
        Some((_, d)) => {
            assert(index.routed(query, d));
            assert(next.routed(query, d));
        },
        None => {},
    }
}

/// Withdrawing what was filed gives the index back as it was, and with it every
/// lookup.
pub proof fn law_withdraw_gives_back(
    index: RouteView,
    path: Seq<(u64, Seq<TokenId>)>,
    id: ArtifactId,
)
    requires
        index.wf(),
        !index.at(path).contains(id),
    ensures
        index.with(path, id).without(path, id) == index,
{
    let list = index.at(path);
    lemma_minus(list, id);
    assert(list.push(id).drop_last() =~= list);
    assert(minus(list.push(id), id) == list);
    if index.lists.contains_key(path) {
        assert(index.lists[path].len() > 0);
    }
    assert(index.with(path, id).without(path, id).lists =~= index.lists);
}

/// Withdrawing an artifact takes only that one away: every other artifact stays
/// where it is filed.
pub proof fn law_withdraw_one(
    index: RouteView,
    path: Seq<(u64, Seq<TokenId>)>,
    id: ArtifactId,
    other: Seq<(u64, Seq<TokenId>)>,
    x: ArtifactId,
)
    requires
        index.wf(),
    ensures
        index.without(path, id).at(other).contains(x) <==> index.at(other).contains(x) && !(other
            == path && x == id),
{
    lemma_minus(index.at(path), id);
    let rest = minus(index.at(path), id);
    if path.len() == 0 {
        assert(path =~= Seq::empty());
    }
    if rest.len() == 0 {
        assert(rest =~= Seq::empty());
    }
    assert(rest.contains(x) <==> index.at(path).contains(x) && x != id);
}

/// The way to an artifact: one step for each block of its tokens, in their order, with
/// the key and the tokens of the block.
pub proof fn law_path(keys: Seq<u64>, tokens: Seq<TokenId>, b: nat, i: int)
    requires
        0 < b,
    ensures
        path_of(keys, tokens, b).len() == tokens.len() / b,
        0 <= i < tokens.len() / b ==> path_of(keys, tokens, b)[i] == (
            keys[i],
            tokens.subrange(i * b, i * b + b),
        ),
{
}

/// Filing an artifact: it is the last at the end of its route, once. The others there
/// keep their order, and every other route is as it was. Without a block there is
/// nothing to file at.
pub proof fn law_file(
    index: RouteView,
    path: Seq<(u64, Seq<TokenId>)>,
    id: ArtifactId,
    j: int,
)
    requires
        index.lists.contains_key(path) ==> index.lists[path].no_duplicates(),
    ensures
        ({
            let next = index.with(path, id);
            let list = index.lists[path];
            let known = index.lists.contains_key(path) && list.contains(id);
            &&& path.len() == 0 ==> next == index
            &&& path.len() > 0 ==> {
                &&& next.lists.contains_key(path)
                &&& next.lists[path].last() == id
                &&& index.lists.contains_key(path) && !known ==> next.lists[path].drop_last()
                    == list
                &&& known && 0 <= j < list.len() && list[j] == id
                    ==> next.lists[path].drop_last() == list.remove(j)
                &&& !index.lists.contains_key(path) ==> next.lists[path].len() == 1
            }
            &&& next.lists.remove(path) == index.lists.remove(path)
        }),
{
    let next = index.with(path, id);
    let list = index.at(path);
    lemma_minus(list, id);
    if path.len() > 0 {
        assert(next.lists[path] == minus(list, id).push(id));
        assert(next.lists[path].drop_last() =~= minus(list, id));
        if index.lists.contains_key(path) && 0 <= j < list.len() && list[j] == id {
            lemma_minus_one(list, id, j);
        }
    }
    assert(next.lists.remove(path) =~= index.lists.remove(path));
}

/// Withdrawing one artifact from a route takes that one away and no other; the others
/// keep their order. Withdrawing all leaves no route. Every other route is as it was.
pub proof fn law_withdraw(
    index: RouteView,
    path: Seq<(u64, Seq<TokenId>)>,
    id: ArtifactId,
    j: int,
)
    requires
        index.wf(),
        index.lists.contains_key(path) ==> index.lists[path].no_duplicates(),
    ensures
        ({
            let one = index.without(path, id);
            let all = index.cleared(path);
            let list = index.lists[path];
            &&& one.lists.remove(path) == index.lists.remove(path)
            &&& index.lists.contains_key(path) && !list.contains(id) ==> one == index
            &&& !index.lists.contains_key(path) ==> one == index && all == index
            &&& index.lists.contains_key(path) && 0 <= j < list.len() && list[j] == id
                ==> if list.len() == 1 {
                !one.lists.contains_key(path)
            } else {
                one.lists.contains_key(path) && one.lists[path] == list.remove(j)
            }
            &&& !all.lists.contains_key(path)
            &&& all.lists.remove(path) == index.lists.remove(path)
        }),
{
    let one = index.without(path, id);
    let all = index.cleared(path);
    let list = index.at(path);
    lemma_minus(list, id);
    if path.len() == 0 {
        assert(path =~= Seq::empty());
    }
    if index.lists.contains_key(path) {
        assert(index.lists[path].len() > 0);
        if 0 <= j < list.len() && list[j] == id {
            lemma_minus_one(list, id, j);
        }
    }
    assert(one.lists.remove(path) =~= index.lists.remove(path));
    assert(all.lists.remove(path) =~= index.lists.remove(path));
    if !index.lists.contains_key(path) {
        assert(one.lists =~= index.lists);
        assert(all.lists =~= index.lists);
    }
    if index.lists.contains_key(path) && !list.contains(id) {
        assert(one.lists =~= index.lists);
    }
}

/// The longest route: a lookup leads to the artifact filed last at the end of the
/// longest route along the query, and to none exactly if there is no route along it.
pub proof fn law_longest(
    index: RouteView,
    query: Seq<(u64, Seq<TokenId>)>,
    best: Option<(ArtifactId, int)>,
    d: int,
)
    requires
        index.wf(),
        index.is_longest(query, best),
    ensures
        match best {
            Some((id, n)) => {
                &&& 0 < n <= query.len()
                &&& index.lists.contains_key(query.take(n))
                &&& index.lists[query.take(n)].last() == id
                &&& n < d <= query.len() ==> !index.lists.contains_key(query.take(d))
            },
            None => 0 < d <= query.len() ==> !index.lists.contains_key(query.take(d)),
        },
{
    if 0 < d <= query.len() && index.lists.contains_key(query.take(d)) {
        assert(index.lists[query.take(d)].len() > 0);
        assert(index.routed(query, d));
    }
}

} // verus!
