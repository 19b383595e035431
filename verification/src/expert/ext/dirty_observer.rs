//! Anchors that count how often others may have changed.

use crate::expert::ext::update_observer::next_version;
use crate::expert::inputs::{
    lemma_within_less, lemma_within_more, lemma_within_removed, listed, request_all, requested, within, Found, Inputs,
};
use crate::expert::{AnchorInner, AnchorOutput, AnchorToken, OutputRef, Poll, UpdateContext};
use vstd::prelude::*;

verus! {

/// An anchor whose output goes up whenever one of `anchors` reported a change, even one that came to
/// nothing. The first poll counts too.
pub struct DirtyObserverAnchor<A> {
    pub anchors: A,
    pub version: u64,
    /// Some input has reported a change.
    pub output_stale: bool,
}

impl<A: Inputs> DirtyObserverAnchor<A> {
    pub fn new(anchors: A) -> (observer: Self)
        ensures
            observer == (DirtyObserverAnchor { anchors, version: 0, output_stale: true }),
            observer.inv(),
    {
        DirtyObserverAnchor { anchors, version: 0, output_stale: true }
    }

    /// What a poll makes of an observer.
    pub open spec fn step<G: UpdateContext>(self, later: Self, before: &G, after: &G, poll: Poll) -> bool {
        if !self.output_stale && self.version > 0 {
            later == self && *after == *before && poll is Unchanged
        } else {
            exists|outcome: Found| #[trigger]
                requested(before, after, self.anchors.tokens(), false, outcome) && if outcome.pending || outcome.invalid {
                    later == self && poll is Pending
                } else {
                    later == (DirtyObserverAnchor { output_stale: false, version: next_version(self.version), ..self })
                        && poll is Updated
                }
        }
    }
}

impl<A: Inputs> AnchorOutput for DirtyObserverAnchor<A> {
    type Output = u64;

    type Handed = ();

    open spec fn inv(&self) -> bool {
        true
    }

    open spec fn had(&self) -> bool {
        self.version > 0
    }

    open spec fn alias(&self) -> Option<AnchorToken> {
        None
    }

    open spec fn own(&self) -> u64 {
        self.version
    }

    open spec fn honest(&self) -> bool {
        true
    }

    open spec fn outside(&self) -> Option<()> {
        None
    }

    open spec fn displays(handed: (), out: u64) -> bool {
        true
    }

    fn output(&self) -> (out: OutputRef<'_, u64>) {
        OutputRef::Own(&self.version)
    }
}

impl<G: UpdateContext, A: Inputs> AnchorInner<G> for DirtyObserverAnchor<A> {
    open spec fn current(&self) -> bool {
        true
    }

    open spec fn holds(&self, told: Map<AnchorToken, G::V>) -> bool {
        !self.output_stale && self.version > 0 ==> within(self.anchors.tokens(), told)
    }

    open spec fn sound(&self, told: Map<AnchorToken, G::V>) -> bool {
        within(self.anchors.tokens(), told)
    }

    open spec fn right(&self, seen: Map<AnchorToken, G::V>) -> bool {
        true
    }

    open spec fn hears(&self, later: &Self, edge: AnchorToken) -> bool {
        *later == (DirtyObserverAnchor {
            output_stale: self.output_stale || self.anchors.tokens().contains(edge),
            ..*self
        })
    }

    open spec fn polls(&self, later: &Self, before: &G, after: &G, poll: Poll) -> bool {
        &&& self.step(*later, before, after, poll)
        &&& self.version <= later.version
    }

    open spec fn leans_on(&self, told: Map<AnchorToken, G::V>, d: AnchorToken) -> bool {
        self.anchors.tokens().contains(d)
    }

    proof fn less_told(&self, told: Map<AnchorToken, G::V>, less: Map<AnchorToken, G::V>) {
        lemma_within_less(self.anchors.tokens(), told, less);
    }

    proof fn more_told(&self, told: Map<AnchorToken, G::V>, more: Map<AnchorToken, G::V>) {
        if within(self.anchors.tokens(), told) {
            lemma_within_more(self.anchors.tokens(), told, more);
        }
    }

    proof fn shows_outside(&self) {
    }

    fn dirty(&mut self, edge: AnchorToken) {
        if self.output_stale {
            return ;
        }
        if listed(&self.anchors.list(), edge) {
            self.output_stale = true;
        }
        proof {
            let a = *old(self);
            let b = *self;
            assert forall|told: Map<AnchorToken, G::V>| #![auto] AnchorInner::<G>::holds(&a, told) implies AnchorInner::<G>::holds(&b, told) && AnchorInner::<G>::holds(&b, told.remove(edge)) by {
                if !b.output_stale && b.version > 0 {
                    lemma_within_removed(b.anchors.tokens(), told, edge);
                }
            }
        }
    }

    fn poll_updated(&mut self, ctx: &mut G) -> (poll: Poll) {
        let ghost before = *ctx;
        proof {
            before.evolves_reflexive();
        }
        let need_bump: bool = self.output_stale || self.version == 0;
        if !need_bump {
            return Poll::Unchanged;
        }
        let list: Vec<AnchorToken> = self.anchors.list();
        let outcome = request_all(ctx, &list, false);
        proof {
            before.evolves_keeps(ctx);
        }
        if outcome.pending || outcome.invalid {
            return Poll::Pending;
        }
        self.output_stale = false;
        self.version = self.version.saturating_add(1);
        Poll::Updated
    }
}

} // verus!
