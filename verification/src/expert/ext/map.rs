//! Anchors whose output is a function of the outputs of others.

use crate::expert::equal::{alike, equal, unlike};
use crate::expert::inputs::{
    lemma_within_less, lemma_within_more, lemma_within_removed, listed, request_all, requested, within, Applies, Found, Inputs, Takes,
};
use crate::expert::{Anchor, AnchorInner, AnchorOutput, AnchorToken, OutputRef, Poll, UpdateContext};
use vstd::prelude::*;

verus! {

/// An anchor whose output is `f` of the outputs of `anchors`.
pub struct MapAnchor<A, F, Out> {
    pub f: F,
    pub output: Option<Out>,
    /// Some input has changed since the output was calculated.
    pub output_stale: bool,
    /// Some input is gone: the output stays what it is.
    pub degraded_on_invalid: bool,
    pub anchors: A,
}

/// `map` calculates from `anchor`, and has not done so yet.
pub open spec fn fresh_map<T, U, F>(map: MapAnchor<(Anchor<T>,), F, U>, anchor: Anchor<T>) -> bool {
    &&& map.anchors.0 == anchor
    &&& map.output is None
    &&& map.output_stale
    &&& !map.degraded_on_invalid
}

impl<A: Takes<F, Out>, F, Out> MapAnchor<A, F, Out> {
    /// An anchor whose output is `f` of the outputs of `anchors`. It has not been calculated yet.
    pub fn new(anchors: A, f: F) -> (map: Self)
        requires
            anchors.callable(f),
        ensures
            map == (MapAnchor::<A, F, Out> { f, output: None, output_stale: true, degraded_on_invalid: false, anchors }),
            map.inv(),
    {
        MapAnchor { f, output: None, output_stale: true, degraded_on_invalid: false, anchors }
    }
}

/// `output` is a result of `f` on the outputs that `outs` holds, or equal to one.
pub open spec fn fits<G: UpdateContext, A: Applies<G, F, Out>, F, Out: PartialEq>(
    anchors: A,
    f: F,
    outs: Map<AnchorToken, G::V>,
    output: Out,
) -> bool {
    exists|r: Out| #[trigger] anchors.gives(f, outs, r) && alike(r, output)
}

/// Whether an output fits rests on the outputs of the inputs alone.
pub proof fn lemma_fits_agreeing<G: UpdateContext, A: Applies<G, F, Out>, F, Out: PartialEq>(
    anchors: A,
    f: F,
    a: Map<AnchorToken, G::V>,
    b: Map<AnchorToken, G::V>,
    output: Out,
)
    requires
        forall|k: int| 0 <= k < anchors.tokens().len() ==> a[#[trigger] anchors.tokens()[k]] == b[anchors.tokens()[k]],
    ensures
        fits::<G, A, F, Out>(anchors, f, a, output) ==> fits::<G, A, F, Out>(anchors, f, b, output),
{
    if fits::<G, A, F, Out>(anchors, f, a, output) {
        let r = choose|r: Out| #[trigger] anchors.gives(f, a, r) && alike(r, output);
        anchors.depends(f, a, b, r);
    }
}

/// What a poll makes of a map: `a` becomes `b` while the context goes from `before` to `after`.
pub open spec fn map_step<G: UpdateContext, A: Applies<G, F, Out>, F, Out: PartialEq>(
    a: MapAnchor<A, F, Out>,
    b: MapAnchor<A, F, Out>,
    before: &G,
    after: &G,
    poll: Poll,
) -> bool {
    if a.degraded_on_invalid {
        &&& b == (MapAnchor { output_stale: false, ..a })
        &&& *after == *before
        &&& poll == (if a.output is Some {
            Poll::Unchanged
        } else {
            Poll::PendingInvalidToken
        })
    } else if !a.output_stale && a.output is Some {
        b == a && *after == *before && poll is Unchanged
    } else {
        exists|outcome: Found| #[trigger]
            requested(before, after, a.anchors.tokens(), true, outcome) && map_answered(a, b, after, outcome, poll)
    }
}

/// What comes of the answers to a map's requests.
pub open spec fn map_answered<G: UpdateContext, A: Applies<G, F, Out>, F, Out: PartialEq>(
    a: MapAnchor<A, F, Out>,
    b: MapAnchor<A, F, Out>,
    after: &G,
    outcome: Found,
    poll: Poll,
) -> bool {
    if outcome.invalid {
        if a.output is Some {
            b == (MapAnchor { output_stale: false, degraded_on_invalid: true, ..a }) && poll is Unchanged
        } else {
            b == a && poll is PendingInvalidToken
        }
    } else if outcome.pending {
        b == a && poll is Pending
    } else if a.output is Some && !outcome.updated {
        b == (MapAnchor { output_stale: false, ..a }) && poll is Unchanged
    } else if !a.anchors.readable(after) {
        b == a && poll is PendingInvalidToken
    } else {
        exists|new: Out| #[trigger]
            a.anchors.gives_read(a.f, after, new) && {
                ||| {
                    &&& poll is Unchanged
                    &&& a.output is Some
                    &&& alike(new, a.output->0)
                    &&& b == (MapAnchor { output_stale: false, ..a })
                }
                ||| {
                    &&& poll is Updated
                    &&& a.output is Some ==> unlike(new, a.output->0)
                    &&& b == (MapAnchor { output_stale: false, output: Some(new), ..a })
                }
            }
    }
}

impl<A: Takes<F, Out>, F, Out> AnchorOutput for MapAnchor<A, F, Out> {
    type Output = Out;

    type Handed = ();

    open spec fn inv(&self) -> bool {
        self.anchors.callable(self.f)
    }

    open spec fn had(&self) -> bool {
        self.output is Some
    }

    open spec fn alias(&self) -> Option<AnchorToken> {
        None
    }

    open spec fn own(&self) -> Out {
        self.output->0
    }

    open spec fn honest(&self) -> bool {
        true
    }

    open spec fn outside(&self) -> Option<()> {
        None
    }

    open spec fn displays(handed: (), out: Out) -> bool {
        true
    }

    fn output(&self) -> (out: OutputRef<'_, Out>) {
        OutputRef::Own(self.output.as_ref().unwrap())
    }
}

impl<G: UpdateContext, A: Applies<G, F, Out>, F, Out: PartialEq> AnchorInner<G> for MapAnchor<A, F, Out> {
    open spec fn current(&self) -> bool {
        true
    }

    open spec fn holds(&self, told: Map<AnchorToken, G::V>) -> bool {
        &&& !self.degraded_on_invalid
        &&& self.output is Some && !self.output_stale ==> within(self.anchors.tokens(), told) && fits::<G, A, F, Out>(
            self.anchors,
            self.f,
            told,
            self.output->0,
        )
    }

    open spec fn sound(&self, told: Map<AnchorToken, G::V>) -> bool {
        &&& self.output is Some
        &&& within(self.anchors.tokens(), told)
        &&& fits::<G, A, F, Out>(self.anchors, self.f, told, self.output->0)
    }

    open spec fn right(&self, seen: Map<AnchorToken, G::V>) -> bool {
        self.output is Some ==> within(self.anchors.tokens(), seen) && fits::<G, A, F, Out>(self.anchors, self.f, seen, self.output->0)
    }

    open spec fn hears(&self, later: &Self, edge: AnchorToken) -> bool {
        *later == (MapAnchor {
            output_stale: self.output_stale || (!self.degraded_on_invalid
                && self.anchors.tokens().contains(edge)),
            ..*self
        })
    }

    open spec fn polls(&self, later: &Self, before: &G, after: &G, poll: Poll) -> bool {
        map_step(*self, *later, before, after, poll)
    }

    open spec fn leans_on(&self, told: Map<AnchorToken, G::V>, d: AnchorToken) -> bool {
        self.anchors.tokens().contains(d)
    }

    proof fn less_told(&self, told: Map<AnchorToken, G::V>, less: Map<AnchorToken, G::V>) {
        lemma_within_less(self.anchors.tokens(), told, less);
        lemma_fits_agreeing::<G, A, F, Out>(self.anchors, self.f, told, less, self.output->0);
    }

    proof fn more_told(&self, told: Map<AnchorToken, G::V>, more: Map<AnchorToken, G::V>) {
        if within(self.anchors.tokens(), told) {
            lemma_within_more(self.anchors.tokens(), told, more);
            lemma_fits_agreeing::<G, A, F, Out>(self.anchors, self.f, told, more, self.output->0);
        }
    }

    proof fn shows_outside(&self) {
    }

    fn dirty(&mut self, edge: AnchorToken) {
        if self.degraded_on_invalid {
            return ;
        }
        if self.output_stale {
            return ;
        }
        if listed(&self.anchors.list(), edge) {
            self.output_stale = true;
        }
        proof {
            let a = *old(self);
            let b = *self;
            assert forall|told: Map<AnchorToken, G::V>| #![auto] a.holds(told) implies b.holds(told) && b.holds(told.remove(edge)) by {
                if b.output is Some && !b.output_stale {
                    lemma_within_removed(b.anchors.tokens(), told, edge);
                    lemma_fits_agreeing::<G, A, F, Out>(b.anchors, b.f, told, told.remove(edge), b.output->0);
                }
            }
        }
    }

    fn poll_updated(&mut self, ctx: &mut G) -> (poll: Poll) {
        let ghost a = *self;
        let ghost before = *ctx;
        proof {
            before.evolves_reflexive();
        }
        if self.degraded_on_invalid {
            self.output_stale = false;
            return if self.output.is_some() {
                Poll::Unchanged
            } else {
                Poll::PendingInvalidToken
            };
        }
        if !self.output_stale && self.output.is_some() {
            return Poll::Unchanged;
        }
        let list: Vec<AnchorToken> = self.anchors.list();
        let outcome = request_all(ctx, &list, true);
        let ghost tokens = self.anchors.tokens();
        proof {
            before.evolves_keeps(ctx);
            a.anchors.some();
        }
        if outcome.invalid {
            if self.output.is_some() {
                self.output_stale = false;
                self.degraded_on_invalid = true;
                return Poll::Unchanged;
            }
            return Poll::PendingInvalidToken;
        }
        if outcome.pending {
            return Poll::Pending;
        }
        proof {
            if !ctx.degraded() {
                lemma_within_more(tokens, ctx.told(), ctx.now());
            }
        }
        if self.output.is_none() || outcome.updated {
            match self.anchors.apply(&mut self.f, ctx) {
                None => {
                    return Poll::PendingInvalidToken;
                },
                Some(new) => {
                    self.output_stale = false;
                    proof {
                        if !ctx.degraded() {
                            a.anchors.depends(a.f, ctx.now(), ctx.told(), new);
                        }
                    }
                    let unchanged: bool = match &self.output {
                        Some(old) => equal(&new, old),
                        None => false,
                    };
                    if unchanged {
                        return Poll::Unchanged;
                    }
                    self.output = Some(new);
                    return Poll::Updated;
                },
            }
        }
        self.output_stale = false;
        proof {
            if !ctx.degraded() {
                assert forall|k: int| 0 <= k < tokens.len() implies before.seen()[#[trigger] tokens[k]] == ctx.told()[tokens[k]] by {
                    assert(before.seen().contains_key(tokens[k]));
                }
                lemma_fits_agreeing::<G, A, F, Out>(a.anchors, a.f, before.seen(), ctx.told(), a.output->0);
            }
        }
        Poll::Unchanged
    }
}

} // verus!
