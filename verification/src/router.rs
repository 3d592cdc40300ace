//! Finds the artifact that serves a token sequence.

use crate::coherence::engine_model::EngineView;
use crate::coherence::sync::SyncEngine;
use crate::coherence::RouteResult;
use crate::kv::tokens;
use crate::kv::TokenId;
use vstd::prelude::*;

verus! {

/// A router over a shared engine. A clone shares the same engine.
pub struct Router<const B: usize> {
    engine: SyncEngine<B>,
}

impl<const B: usize> Router<B> {
    /// The engine that is routed over.
    pub closed spec fn engine(&self) -> SyncEngine<B> {
        self.engine
    }

    /// A router over `engine`.
    pub fn new(engine: SyncEngine<B>) -> (router: Self)
        ensures
            router.engine() == engine,
    {
        Router { engine }
    }

    /// The readable artifact that covers the longest prefix of `tokens`; none if
    /// no artifact covers any.
    #[must_use]
    pub fn route(&self, tokens: &[TokenId]) -> (route: Option<RouteResult>)
        ensures
            exists|e: EngineView| #[trigger]
                self.engine().holds(e) && e.answers(
                    B as nat,
                    tokens@,
                    tokens::keys_of(tokens@, B as nat),
                    route,
                ),
    {
        let route = self.engine.lookup(tokens);
        proof {
            let keys = tokens::keys_of(tokens@, B as nat);
            let e = choose|e: EngineView| #[trigger]
                self.engine.holds(e) && e.answers(B as nat, tokens@, keys, route);
            assert(self.engine().holds(e));
        }
        route
    }
}

impl<const B: usize> Clone for Router<B> {
    fn clone(&self) -> (other: Self)
        ensures
            other == *self,
    {
        Router { engine: self.engine.clone() }
    }
}

} // verus!
