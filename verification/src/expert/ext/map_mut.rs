//! Anchors whose output is kept up to date in place.

use crate::expert::inputs::{
    behind, lemma_within_less, lemma_within_more, lemma_within_removed, listed, request_all, requested, within, AppliesMut, Found, Inputs,
    TakesMut,
};
use crate::expert::{AnchorInner, AnchorOutput, AnchorToken, OutputRef, Poll, UpdateContext};
use vstd::prelude::*;

verus! {

/// An anchor whose output is worked on by `f` whenever the outputs of `anchors` change. The answer of
/// `f` says whether it has changed the output.
pub struct MapMut<A, F, Out> {
    pub f: F,
    pub output: Out,
    /// Some input has changed since `f` was last called.
    pub output_stale: bool,
    /// Some input is gone: the output stays what it is.
    pub degraded_on_invalid: bool,
    pub anchors: A,
}

impl<A: TakesMut<F, Out>, F, Out> MapMut<A, F, Out> {
    /// An anchor with the output `initial`, which `f` has not worked on yet.
    pub fn new(anchors: A, initial: Out, f: F) -> (map: Self)
        requires
            anchors.callable_mut(f),
        ensures
            map == (MapMut::<A, F, Out> { f, output: initial, output_stale: true, degraded_on_invalid: false, anchors }),
            map.inv(),
    {
        MapMut { f, output: initial, output_stale: true, degraded_on_invalid: false, anchors }
    }
}

/// The answer of a map whose requests came to `outcome`, where no call of `f` decides it.
pub open spec fn map_mut_answer(outcome: Found) -> Poll {
    if outcome.invalid {
        Poll::Unchanged
    } else if outcome.pending {
        Poll::Pending
    } else {
        Poll::Unchanged
    }
}

impl<A: TakesMut<F, Out>, F, Out> AnchorOutput for MapMut<A, F, Out> {
    type Output = Out;

    type Handed = ();

    open spec fn inv(&self) -> bool {
        self.anchors.callable_mut(self.f)
    }

    open spec fn had(&self) -> bool {
        true
    }

    open spec fn alias(&self) -> Option<AnchorToken> {
        None
    }

    open spec fn own(&self) -> Out {
        self.output
    }

    open spec fn honest(&self) -> bool {
        false
    }

    open spec fn outside(&self) -> Option<()> {
        None
    }

    open spec fn displays(handed: (), out: Out) -> bool {
        true
    }

    fn output(&self) -> (out: OutputRef<'_, Out>) {
        OutputRef::Own(&self.output)
    }
}

impl<G: UpdateContext, A: AppliesMut<G, F, Out>, F, Out> AnchorInner<G> for MapMut<A, F, Out> {
    open spec fn current(&self) -> bool {
        true
    }

    open spec fn holds(&self, told: Map<AnchorToken, G::V>) -> bool {
        &&& !self.degraded_on_invalid
        &&& !self.output_stale ==> within(self.anchors.tokens(), told)
    }

    open spec fn sound(&self, told: Map<AnchorToken, G::V>) -> bool {
        within(self.anchors.tokens(), told)
    }

    open spec fn right(&self, seen: Map<AnchorToken, G::V>) -> bool {
        true
    }

    open spec fn hears(&self, later: &Self, edge: AnchorToken) -> bool {
        *later == (MapMut {
            output_stale: self.output_stale || (!self.degraded_on_invalid
                && self.anchors.tokens().contains(edge)),
            ..*self
        })
    }

    /// That the output is what `f` leaves behind is stated of the poll itself: it speaks of a value that is known only
    /// once the reference to it has gone.
    open spec fn polls(&self, later: &Self, before: &G, after: &G, poll: Poll) -> bool {
        &&& self.degraded_on_invalid || !self.output_stale ==> {
            &&& *later == (MapMut { output_stale: false, ..*self })
            &&& *after == *before
            &&& poll is Unchanged
        }
        &&& !self.degraded_on_invalid && self.output_stale ==> exists|outcome: Found|
            #[trigger] requested(before, after, self.anchors.tokens(), true, outcome) && if !outcome.invalid
                && !outcome.pending && outcome.updated {
                if self.anchors.readable_mut(after) {
                    &&& poll.ready()
                    &&& *later == (MapMut {
                        output_stale: false,
                        output: later.output,
                        ..*self
                    })
                    &&& exists|o: &mut Out|
                        #[trigger] behind(o) == self.output && self.anchors.makes(self.f, o, after, poll is Updated)
                } else {
                    *later == *self && poll is PendingInvalidToken
                }
            } else {
                &&& poll == map_mut_answer(outcome)
                &&& *later == (MapMut {
                    output_stale: !poll.ready(),
                    degraded_on_invalid: outcome.invalid,
                    ..*self
                })
            }
    }

    open spec fn leans_on(&self, told: Map<AnchorToken, G::V>, d: AnchorToken) -> bool {
        self.anchors.tokens().contains(d)
    }

    proof fn less_told(&self, told: Map<AnchorToken, G::V>, less: Map<AnchorToken, G::V>) {
        lemma_within_less(self.anchors.tokens(), told, less);
    }

    proof fn more_told(&self, told: Map<AnchorToken, G::V>, more: Map<AnchorToken, G::V>) {
        if within(self.anchors.tokens(), told) {
            lemma_within_more(self.anchors.tokens(), told, more);
        }
    }

    proof fn shows_outside(&self) {
    }

    fn dirty(&mut self, edge: AnchorToken) {
        if self.degraded_on_invalid {
            return ;
        }
        if self.output_stale {
            return ;
        }
        if listed(&self.anchors.list(), edge) {
            self.output_stale = true;
        }
        proof {
            let a = *old(self);
            let b = *self;
            assert forall|told: Map<AnchorToken, G::V>| #![auto] a.holds(told) implies b.holds(told) && b.holds(told.remove(edge)) by {
                if !b.output_stale {
                    lemma_within_removed(b.anchors.tokens(), told, edge);
                }
            }
        }
    }

    fn poll_updated(&mut self, ctx: &mut G) -> (poll: Poll)
        ensures
            !old(self).degraded_on_invalid && old(self).output_stale ==> exists|outcome: Found|
                #[trigger] requested(old(ctx), final(ctx), old(self).anchors.tokens(), true, outcome) && (!outcome.invalid
                    && !outcome.pending && outcome.updated && old(self).anchors.readable_mut(final(ctx)) ==> exists|o: &mut Out|
                    #[trigger] behind(o) == old(self).output && *final(o) == final(self).output && old(self).anchors.makes(
                        old(self).f,
                        o,
                        final(ctx),
                        poll is Updated,
                    )),
    {
        let ghost a = *self;
        let ghost before = *ctx;
        proof {
            before.evolves_reflexive();
        }
        if self.degraded_on_invalid {
            self.output_stale = false;
            return Poll::Unchanged;
        }
        if !self.output_stale {
            return Poll::Unchanged;
        }
        let list: Vec<AnchorToken> = self.anchors.list();
        let outcome = request_all(ctx, &list, true);
        proof {
            before.evolves_keeps(ctx);
        }
        if outcome.invalid {
            self.output_stale = false;
            self.degraded_on_invalid = true;
            return Poll::Unchanged;
        }
        if outcome.pending {
            return Poll::Pending;
        }
        if outcome.updated {
            match self.anchors.apply_mut(&mut self.f, &mut self.output, ctx) {
                None => {
                    return Poll::PendingInvalidToken;
                },
                Some(did_update) => {
                    self.output_stale = false;
                    return if did_update {
                        Poll::Updated
                    } else {
                        Poll::Unchanged
                    };
                },
            }
        }
        self.output_stale = false;
        Poll::Unchanged
    }
}

} // verus!
