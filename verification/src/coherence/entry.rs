//! One artifact: its MESI state, its version, who owns it, who reads it, and the
//! cached blocks it consists of.

use crate::coherence::{AgentId, MesiState};
use crate::kv::BlockId;
use crate::kv::TokenId;
use std::collections::{HashMap, HashSet};
use vstd::prelude::*;

verus! {

broadcast use vstd::std_specs::hash::group_hash_axioms;

/// What an artifact is.
#[verifier::ext_equal]
pub struct EntryView {
    pub state: MesiState,
    pub ver: u64,
    pub owner: Option<AgentId>,
    pub sharers: Set<AgentId>,
    pub seen: Map<AgentId, u64>,
    pub blocks: Seq<BlockId>,
    pub tokens: Seq<TokenId>,
    pub keys: Seq<u64>,
}

impl EntryView {
    /// A new artifact, held by `owner` alone.
    pub open spec fn exclusive(
        owner: AgentId,
        blocks: Seq<BlockId>,
        tokens: Seq<TokenId>,
        keys: Seq<u64>,
    ) -> EntryView {
        EntryView {
            state: MesiState::Exclusive,
            ver: 0,
            owner: Some(owner),
            sharers: Set::empty(),
            seen: Map::empty(),
            blocks,
            tokens,
            keys,
        }
    }

    /// Written or held alone.
    pub open spec fn is_owned(self) -> bool {
        self.state == MesiState::Modified || self.state == MesiState::Exclusive
    }

    /// Open to readers.
    pub open spec fn is_readable(self) -> bool {
        self.state == MesiState::Exclusive || self.state == MesiState::Shared
    }

    /// The version that `agent` saw last; zero if it has seen none.
    pub open spec fn last_seen(self, agent: AgentId) -> u64 {
        if self.seen.contains_key(agent) {
            self.seen[agent]
        } else {
            0
        }
    }

    /// Single writer or many readers: an owned artifact has no sharers.
    pub open spec fn swmr(self) -> bool {
        self.is_owned() ==> self.sharers == Set::<AgentId>::empty()
    }

    /// Nobody has seen a version that does not exist yet.
    pub open spec fn seen_bound(self) -> bool {
        forall|a: AgentId| #[trigger] self.seen.contains_key(a) ==> self.seen[a] <= self.ver
    }

    /// No sharer is more than `k` versions behind.
    pub open spec fn within(self, k: u64) -> bool {
        forall|a: AgentId| #[trigger] self.sharers.contains(a) ==> self.ver - self.last_seen(a) <= k
    }

    /// An artifact has an owner exactly while it is owned.
    pub open spec fn owner_consistent(self) -> bool {
        self.is_owned() <==> self.owner is Some
    }

    /// All four hold.
    pub open spec fn coherent(self, k: u64) -> bool {
        &&& self.swmr()
        &&& self.seen_bound()
        &&& self.within(k)
        &&& self.owner_consistent()
    }
}

/// One artifact.
pub struct ArtifactEntry {
    pub state: MesiState,
    pub ver: u64,
    pub owner: Option<AgentId>,
    pub sharers: HashSet<AgentId>,
    /// The version each agent saw last. An invalidation does not clear it.
    pub seen: HashMap<AgentId, u64>,
    pub blocks: Vec<BlockId>,
    pub tokens: Vec<TokenId>,
    /// The keys of the blocks of `tokens`.
    pub keys: Vec<u64>,
}

impl View for ArtifactEntry {
    type V = EntryView;

    open spec fn view(&self) -> EntryView {
        EntryView {
            state: self.state,
            ver: self.ver,
            owner: self.owner,
            sharers: self.sharers@,
            seen: self.seen@,
            blocks: self.blocks@,
            tokens: self.tokens@,
            keys: self.keys@,
        }
    }
}

impl ArtifactEntry {
    /// A new artifact, held by `owner` alone, that stands for no tokens yet.
    pub fn new_exclusive(owner: AgentId, blocks: Vec<BlockId>) -> (entry: Self)
        ensures
            entry@ == EntryView::exclusive(owner, blocks@, Seq::empty(), Seq::empty()),
    {
        ArtifactEntry {
            state: MesiState::Exclusive,
            ver: 0,
            owner: Some(owner),
            sharers: HashSet::new(),
            seen: HashMap::new(),
            blocks,
            tokens: Vec::new(),
            keys: Vec::new(),
        }
    }

    /// Whether nobody has seen a version that does not exist yet.
    fn check_seen_bound(&self) -> (ok: bool)
        ensures
            ok == self@.seen_bound(),
    {
        let ghost all = vstd::std_specs::iter::IteratorSpec::remaining(&self.seen.iter());
        for (agent, version) in it: self.seen.iter()
            invariant
                it.seq() == all,
                all == vstd::std_specs::iter::IteratorSpec::remaining(&self.seen.iter()),
                forall|j: int| 0 <= j < it.index() ==> *(#[trigger] all[j]).1 <= self.ver,
        {
            if *version > self.ver {
                assert(all[it.index() as int] == (agent, version));
                assert(self.seen@.contains_key(*all[it.index() as int].0));
                assert(self@.seen.contains_key(*agent) && self@.seen[*agent] > self@.ver);
                return false;
            }
        }
        assert forall|a: AgentId| #[trigger] self@.seen.contains_key(a) implies self@.seen[a]
            <= self@.ver by {
            assert(all.contains((&a, &self.seen@[a])));
        }
        true
    }

    /// Whether no sharer is more than `k_bound` versions behind.
    fn check_within(&self, k_bound: u64) -> (ok: bool)
        ensures
            ok == self@.within(k_bound),
    {
        let ghost all = vstd::std_specs::iter::IteratorSpec::remaining(&self.sharers.iter());
        for agent in it: self.sharers.iter()
            invariant
                it.seq() == all,
                all == vstd::std_specs::iter::IteratorSpec::remaining(&self.sharers.iter()),
                forall|j: int|
                    0 <= j < it.index() ==> self.ver - self@.last_seen(*(#[trigger] all[j]))
                        <= k_bound,
        {
            let last: u64 = match self.seen.get(agent) {
                Some(version) => *version,
                None => 0,
            };
            if self.ver.saturating_sub(last) > k_bound {
                assert(self@.sharers.contains(*agent)) by {
                    assert(all[it.index() as int] == agent);
                    assert(all.unref()[it.index() as int] == *agent);
                    assert(all.unref().to_set().contains(*agent));
                }
                assert(last == self@.last_seen(*agent));
                return false;
            }
        }
        assert forall|a: AgentId| #[trigger] self@.sharers.contains(a) implies self@.ver
            - self@.last_seen(a) <= k_bound by {
            assert(all.unref().to_set().contains(a));
            let j = choose|j: int| 0 <= j < all.unref().len() && all.unref()[j] == a;
            assert(*all[j] == a);
        }
        true
    }

    /// Whether the artifact is coherent: owned without sharers, seen in no version
    /// to come, read by nobody more than `k_bound` versions behind, and with an
    /// owner exactly while it is owned.
    pub fn invariants_hold(&self, k_bound: u64) -> (ok: bool)
        ensures
            ok == self@.coherent(k_bound),
    {
        let owned = match self.state {
            MesiState::Modified => true,
            MesiState::Exclusive => true,
            MesiState::Shared => false,
            MesiState::Invalid => false,
        };
        let swmr = !owned || self.sharers.is_empty();
        assert(swmr == self@.swmr()) by {
            assert(self.sharers@.is_empty() <==> self.sharers@ =~= Set::empty());
        }
        let has_owner = match self.owner {
            Some(_) => true,
            None => false,
        };
        swmr && self.check_seen_bound() && self.check_within(k_bound) && owned == has_owner
    }
}

} // verus!
