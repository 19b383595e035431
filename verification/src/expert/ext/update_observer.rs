//! Anchors that count the changes of others.

use crate::expert::inputs::{
    lemma_within_less, lemma_within_more, lemma_within_removed, listed, request_all, requested, within, Found, Inputs,
};
use crate::expert::{AnchorInner, AnchorOutput, AnchorToken, OutputRef, Poll, UpdateContext};
use vstd::prelude::*;

verus! {

/// An anchor whose output counts how often some output of `anchors` was found to have changed. The
/// first poll counts too.
pub struct UpdateObserverAnchor<A> {
    pub anchors: A,
    pub version: u64,
    /// Some input may have changed.
    pub output_stale: bool,
    /// Some input is gone: the output stays what it is.
    pub degraded_on_invalid: bool,
}

/// One more, as far as the type goes.
pub open spec fn next_version(version: u64) -> u64 {
    if version == u64::MAX {
        version
    } else {
        (version + 1) as u64
    }
}

impl<A: Inputs> UpdateObserverAnchor<A> {
    pub fn new(anchors: A) -> (observer: Self)
        ensures
            observer == (UpdateObserverAnchor { anchors, version: 0, output_stale: true, degraded_on_invalid: false }),
            observer.inv(),
    {
        UpdateObserverAnchor { anchors, version: 0, output_stale: true, degraded_on_invalid: false }
    }

    /// What a poll makes of an observer.
    pub open spec fn step<G: UpdateContext>(self, later: Self, before: &G, after: &G, poll: Poll) -> bool {
        if self.degraded_on_invalid || !self.output_stale {
            &&& later == (UpdateObserverAnchor { output_stale: false, ..self })
            &&& *after == *before
            &&& poll is Unchanged
        } else {
            exists|outcome: Found| #[trigger]
                requested(before, after, self.anchors.tokens(), true, outcome) && self.answered(later, outcome, poll)
        }
    }

    /// What comes of the answers to an observer's requests.
    pub open spec fn answered(self, later: Self, outcome: Found, poll: Poll) -> bool {
        if outcome.invalid {
            if self.version > 0 {
                later == (UpdateObserverAnchor { output_stale: false, degraded_on_invalid: true, ..self })
                    && poll is Unchanged
            } else {
                later == self && poll is PendingInvalidToken
            }
        } else if outcome.pending {
            later == self && poll is Pending
        } else if outcome.updated || self.version == 0 {
            later == (UpdateObserverAnchor { output_stale: false, version: next_version(self.version), ..self })
                && poll is Updated
        } else {
            later == (UpdateObserverAnchor { output_stale: false, ..self }) && poll is Unchanged
        }
    }
}

impl<A: Inputs> AnchorOutput for UpdateObserverAnchor<A> {
    type Output = u64;

    type Handed = ();

    open spec fn inv(&self) -> bool {
        !self.output_stale || self.degraded_on_invalid ==> self.version > 0
    }

    open spec fn had(&self) -> bool {
        self.version > 0
    }

    open spec fn alias(&self) -> Option<AnchorToken> {
        None
    }

    open spec fn own(&self) -> u64 {
        self.version
    }

    open spec fn honest(&self) -> bool {
        true
    }

    open spec fn outside(&self) -> Option<()> {
        None
    }

    open spec fn displays(handed: (), out: u64) -> bool {
        true
    }

    fn output(&self) -> (out: OutputRef<'_, u64>) {
        OutputRef::Own(&self.version)
    }
}

impl<G: UpdateContext, A: Inputs> AnchorInner<G> for UpdateObserverAnchor<A> {
    open spec fn current(&self) -> bool {
        true
    }

    open spec fn holds(&self, told: Map<AnchorToken, G::V>) -> bool {
        &&& !self.degraded_on_invalid
        &&& !self.output_stale ==> within(self.anchors.tokens(), told)
    }

    open spec fn sound(&self, told: Map<AnchorToken, G::V>) -> bool {
        within(self.anchors.tokens(), told)
    }

    open spec fn right(&self, seen: Map<AnchorToken, G::V>) -> bool {
        true
    }

    open spec fn hears(&self, later: &Self, edge: AnchorToken) -> bool {
        *later == (UpdateObserverAnchor {
            output_stale: self.output_stale || (!self.degraded_on_invalid
                && self.anchors.tokens().contains(edge)),
            ..*self
        })
    }

    open spec fn polls(&self, later: &Self, before: &G, after: &G, poll: Poll) -> bool {
        &&& self.step(*later, before, after, poll)
        &&& self.version <= later.version
    }

    open spec fn leans_on(&self, told: Map<AnchorToken, G::V>, d: AnchorToken) -> bool {
        self.anchors.tokens().contains(d)
    }

    proof fn less_told(&self, told: Map<AnchorToken, G::V>, less: Map<AnchorToken, G::V>) {
        lemma_within_less(self.anchors.tokens(), told, less);
    }

    proof fn more_told(&self, told: Map<AnchorToken, G::V>, more: Map<AnchorToken, G::V>) {
        if within(self.anchors.tokens(), told) {
            lemma_within_more(self.anchors.tokens(), told, more);
        }
    }

    proof fn shows_outside(&self) {
    }

    fn dirty(&mut self, edge: AnchorToken) {
        if self.degraded_on_invalid {
            return ;
        }
        if self.output_stale {
            return ;
        }
        if listed(&self.anchors.list(), edge) {
            self.output_stale = true;
        }
        proof {
            let a = *old(self);
            let b = *self;
            assert forall|told: Map<AnchorToken, G::V>| #![auto] AnchorInner::<G>::holds(&a, told) implies AnchorInner::<G>::holds(&b, told) && AnchorInner::<G>::holds(&b, told.remove(edge)) by {
                if !b.output_stale {
                    lemma_within_removed(b.anchors.tokens(), told, edge);
                }
            }
        }
    }

    fn poll_updated(&mut self, ctx: &mut G) -> (poll: Poll) {
        let ghost before = *ctx;
        proof {
            before.evolves_reflexive();
        }
        if self.degraded_on_invalid {
            self.output_stale = false;
            return Poll::Unchanged;
        }
        if !self.output_stale {
            return Poll::Unchanged;
        }
        let list: Vec<AnchorToken> = self.anchors.list();
        let outcome = request_all(ctx, &list, true);
        proof {
            before.evolves_keeps(ctx);
        }
        if outcome.invalid {
            if self.version > 0 {
                self.output_stale = false;
                self.degraded_on_invalid = true;
                return Poll::Unchanged;
            }
            return Poll::PendingInvalidToken;
        }
        if outcome.pending {
            return Poll::Pending;
        }
        self.output_stale = false;
        if outcome.updated || self.version == 0 {
            self.version = self.version.saturating_add(1);
            return Poll::Updated;
        }
        Poll::Unchanged
    }
}

} // verus!
