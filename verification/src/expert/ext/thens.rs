//! Anchors that pass on the output of an anchor chosen by a function.

use crate::expert::inputs::{
    lemma_within_less, lemma_within_more, lemma_within_removed, listed, request_all, requested, within, Applies, Found, Inputs, Takes,
};
use crate::expert::{Anchor, AnchorInner, AnchorOutput, AnchorToken, Call, OutputRef, Poll, UpdateContext};
use vstd::prelude::*;

verus! {

/// An anchor that passes on the output of the anchor that `f` chooses by the outputs of `anchors`.
pub struct Then<A, Out, F> {
    pub f: F,
    /// The anchor whose output is passed on.
    pub f_anchor: Option<Anchor<Out>>,
    /// Some input has changed since `f` was called.
    pub output_stale: bool,
    /// Another anchor has been chosen since the last output was announced.
    pub switched: bool,
    pub anchors: A,
}

/// `f` may choose `token` by the outputs that `outs` holds.
pub open spec fn chosen<G: UpdateContext, A: Applies<G, F, Anchor<Out>>, F, Out>(
    anchors: A,
    f: F,
    outs: Map<AnchorToken, G::V>,
    token: AnchorToken,
) -> bool {
    exists|r: Anchor<Out>| #[trigger] anchors.gives(f, outs, r) && r.token == token
}

pub proof fn lemma_chosen_agreeing<G: UpdateContext, A: Applies<G, F, Anchor<Out>>, F, Out>(
    anchors: A,
    f: F,
    a: Map<AnchorToken, G::V>,
    b: Map<AnchorToken, G::V>,
    token: AnchorToken,
)
    requires
        forall|k: int| 0 <= k < anchors.tokens().len() ==> a[#[trigger] anchors.tokens()[k]] == b[anchors.tokens()[k]],
    ensures
        chosen::<G, A, F, Out>(anchors, f, a, token) ==> chosen::<G, A, F, Out>(anchors, f, b, token),
{
    if chosen::<G, A, F, Out>(anchors, f, a, token) {
        let r = choose|r: Anchor<Out>| #[trigger] anchors.gives(f, a, r) && r.token == token;
        anchors.depends(f, a, b, r);
    }
}

/// The calls by which an anchor goes over from passing on `old` to passing on `new`.
pub open spec fn switch_calls(old: Option<AnchorToken>, new: AnchorToken, poll: Poll) -> Seq<Call> {
    let request = Call::Request { token: new, necessary: true, poll };
    if old is Some && old->0 != new {
        seq![Call::Unrequest { token: old->0 }, request]
    } else {
        seq![request]
    }
}

/// What a chooser answers whose chosen anchor answers `asked`. After a switch the output is another one, whatever has
/// become of the chosen anchor.
pub open spec fn announced(asked: Poll, switched: bool) -> Poll {
    if switched && asked is Unchanged {
        Poll::Updated
    } else {
        asked
    }
}

/// The answer of a chooser whose chosen anchor answers `asked`. A switch is kept in mind until it is announced.
pub fn announce(asked: Poll, switched: &mut bool) -> (poll: Poll)
    ensures
        poll == announced(asked, *old(switched)),
        *final(switched) == (*old(switched) && !asked.ready()),
{
    let poll = if *switched && asked == Poll::Unchanged {
        Poll::Updated
    } else {
        asked
    };
    if asked == Poll::Updated || asked == Poll::Unchanged {
        *switched = false;
    }
    poll
}

impl<A: Takes<F, Anchor<Out>>, Out, F> Then<A, Out, F> {
    pub fn new(anchors: A, f: F) -> (chooser: Self)
        requires
            anchors.callable(f),
        ensures
            chooser == (Then::<A, Out, F> { f, f_anchor: None, output_stale: true, switched: false, anchors }),
            chooser.inv(),
    {
        Then { f, f_anchor: None, output_stale: true, switched: false, anchors }
    }
}

impl<A: Takes<F, Anchor<Out>>, Out, F> Then<A, Out, F> {
    /// What a poll makes of a chooser.
    pub open spec fn step<G: UpdateContext>(self, later: Self, before: &G, after: &G, poll: Poll) -> bool where
        A: Applies<G, F, Anchor<Out>>,
     {
        if self.f_anchor is Some && !self.output_stale {
            &&& before.evolves(after)
            &&& exists|asked: Poll|
                {
                    &&& after.calls() == before.calls() + #[trigger] switch_calls(None, self.f_anchor->0.token, asked)
                    &&& later == (Then { switched: self.switched && !asked.ready(), ..self })
                    &&& poll == announced(asked, self.switched)
                }
        } else {
            exists|mid: G, outcome: Found| #[trigger]
                requested(before, &mid, self.anchors.tokens(), true, outcome) && mid.evolves(after) && self.answered(
                    later,
                    &mid,
                    after,
                    outcome,
                    poll,
                )
        }
    }

    /// What comes of the answers to a chooser's requests.
    pub open spec fn answered<G: UpdateContext>(
        self,
        later: Self,
        mid: &G,
        after: &G,
        outcome: Found,
        poll: Poll,
    ) -> bool where A: Applies<G, F, Anchor<Out>> {
        if outcome.invalid {
            if self.f_anchor is Some {
                exists|asked: Poll|
                    {
                        &&& after.calls() == mid.calls() + #[trigger] switch_calls(None, self.f_anchor->0.token, asked)
                        &&& later == (Then { output_stale: false, switched: self.switched && !asked.ready(), ..self })
                        &&& poll == announced(asked, self.switched)
                    }
            } else {
                later == (Then { output_stale: true, ..self }) && *after == *mid && poll is PendingInvalidToken
            }
        } else if outcome.pending {
            later == (Then { output_stale: true, ..self }) && *after == *mid && poll is Pending
        } else if !self.anchors.readable(mid) {
            later == (Then { output_stale: true, ..self }) && *after == *mid && poll is PendingInvalidToken
        } else {
            exists|new: Anchor<Out>, asked: Poll|
                {
                    let switched = self.switched || (self.f_anchor is Some && self.f_anchor->0.token != new.token);
                    &&& #[trigger] self.anchors.gives_read(self.f, mid, new)
                    &&& later.f_anchor is Some
                    &&& later.f_anchor->0.token == new.token
                    &&& later == (Then {
                        output_stale: false,
                        f_anchor: later.f_anchor,
                        switched: switched && !asked.ready(),
                        ..self
                    })
                    &&& after.calls() == mid.calls() + #[trigger] switch_calls(self.alias(), new.token, asked)
                    &&& poll == announced(asked, switched)
                }
        }
    }
}

impl<A: Takes<F, Anchor<Out>>, Out, F> AnchorOutput for Then<A, Out, F> {
    type Output = Out;

    type Handed = ();

    open spec fn inv(&self) -> bool {
        self.anchors.callable(self.f)
    }

    open spec fn had(&self) -> bool {
        self.f_anchor is Some
    }

    open spec fn alias(&self) -> Option<AnchorToken> {
        match self.f_anchor {
            Some(anchor) => Some(anchor.token),
            None => None,
        }
    }

    open spec fn own(&self) -> Out {
        arbitrary()
    }

    open spec fn honest(&self) -> bool {
        false
    }

    open spec fn outside(&self) -> Option<()> {
        None
    }

    open spec fn displays(handed: (), out: Out) -> bool {
        true
    }

    fn output(&self) -> (out: OutputRef<'_, Out>) {
        OutputRef::Of(self.f_anchor.as_ref().unwrap().token)
    }
}

impl<G: UpdateContext, A: Applies<G, F, Anchor<Out>>, Out, F> AnchorInner<G> for Then<A, Out, F> {
    open spec fn current(&self) -> bool {
        true
    }

    open spec fn holds(&self, told: Map<AnchorToken, G::V>) -> bool {
        self.f_anchor is Some && !self.output_stale ==> within(self.anchors.tokens(), told) && chosen::<G, A, F, Out>(
            self.anchors,
            self.f,
            told,
            self.f_anchor->0.token,
        )
    }

    open spec fn sound(&self, told: Map<AnchorToken, G::V>) -> bool {
        &&& self.f_anchor is Some
        &&& within(self.anchors.tokens(), told)
        &&& chosen::<G, A, F, Out>(self.anchors, self.f, told, self.f_anchor->0.token)
        &&& told.contains_key(self.f_anchor->0.token)
    }

    open spec fn right(&self, seen: Map<AnchorToken, G::V>) -> bool {
        true
    }

    open spec fn hears(&self, later: &Self, edge: AnchorToken) -> bool {
        *later == (Then {
            output_stale: self.output_stale || self.anchors.tokens().contains(edge),
            ..*self
        })
    }

    open spec fn polls(&self, later: &Self, before: &G, after: &G, poll: Poll) -> bool {
        self.step(*later, before, after, poll)
    }

    open spec fn leans_on(&self, told: Map<AnchorToken, G::V>, d: AnchorToken) -> bool {
        self.anchors.tokens().contains(d) || self.alias() == Some(d)
    }

    proof fn less_told(&self, told: Map<AnchorToken, G::V>, less: Map<AnchorToken, G::V>) {
        lemma_within_less(self.anchors.tokens(), told, less);
        lemma_chosen_agreeing::<G, A, F, Out>(self.anchors, self.f, told, less, self.f_anchor->0.token);
        assert(less.contains_key(self.f_anchor->0.token));
    }

    proof fn more_told(&self, told: Map<AnchorToken, G::V>, more: Map<AnchorToken, G::V>) {
        if within(self.anchors.tokens(), told) && self.f_anchor is Some {
            lemma_within_more(self.anchors.tokens(), told, more);
            lemma_chosen_agreeing::<G, A, F, Out>(self.anchors, self.f, told, more, self.f_anchor->0.token);
            if told.contains_key(self.f_anchor->0.token) {
                assert(told.dom().contains(self.f_anchor->0.token));
                assert(more.dom().contains(self.f_anchor->0.token));
            }
        }
    }

    proof fn shows_outside(&self) {
    }

    fn dirty(&mut self, edge: AnchorToken) {
        if self.output_stale {
            return ;
        }
        if listed(&self.anchors.list(), edge) {
            self.output_stale = true;
        }
        proof {
            let a = *old(self);
            let b = *self;
            assert forall|told: Map<AnchorToken, G::V>| #![auto] AnchorInner::<G>::holds(&a, told) implies AnchorInner::<G>::holds(&b, told) && AnchorInner::<G>::holds(&b, told.remove(edge)) by {
                if b.f_anchor is Some && !b.output_stale {
                    lemma_within_removed(b.anchors.tokens(), told, edge);
                    lemma_chosen_agreeing::<G, A, F, Out>(b.anchors, b.f, told, told.remove(edge), b.f_anchor->0.token);
                }
            }
        }
    }

    fn poll_updated(&mut self, ctx: &mut G) -> (poll: Poll) {
        let ghost a = *self;
        let ghost before = *ctx;
        let ghost tokens = self.anchors.tokens();
        proof {
            before.evolves_reflexive();
            before.evolves_keeps(ctx);
        }
        if self.f_anchor.is_none() || self.output_stale {
            let list: Vec<AnchorToken> = self.anchors.list();
            let outcome = request_all(ctx, &list, true);
            let ghost mid = *ctx;
            proof {
                before.evolves_keeps(ctx);
                mid.evolves_reflexive();
            }
            if outcome.pending || outcome.updated {
                self.output_stale = true;
            }
            if outcome.invalid {
                match &self.f_anchor {
                    Some(old_anchor) => {
                        self.output_stale = false;
                        let asked = ctx.request(old_anchor.token, true);
                        proof {
                            mid.evolves_keeps(ctx);
                            before.evolves_transitive(&mid, ctx);
                            assert(ctx.calls() =~= mid.calls() + switch_calls(None, a.f_anchor->0.token, asked));
                        }
                        return announce(asked, &mut self.switched);
                    },
                    None => {
                        self.output_stale = true;
                        return Poll::PendingInvalidToken;
                    },
                }
            }
            if outcome.pending {
                return Poll::Pending;
            }
            match self.anchors.apply(&mut self.f, ctx) {
                None => {
                    self.output_stale = true;
                    return Poll::PendingInvalidToken;
                },
                Some(new_anchor) => {
                    self.output_stale = false;
                    proof {
                        if !mid.degraded() {
                            lemma_within_more(tokens, mid.told(), mid.now());
                            a.anchors.depends(a.f, mid.now(), mid.told(), new_anchor);
                            assert(chosen::<G, A, F, Out>(a.anchors, a.f, mid.told(), new_anchor.token));
                        }
                    }
                    let switches: Option<AnchorToken> = match &self.f_anchor {
                        Some(outdated_anchor) => if !outdated_anchor.same(&new_anchor) {
                            Some(outdated_anchor.token)
                        } else {
                            None
                        },
                        None => None,
                    };
                    let ghost new = new_anchor;
                    if self.f_anchor.is_none() {
                        self.f_anchor = Some(new_anchor);
                    } else if let Some(outdated) = switches {
                        ctx.unrequest(outdated);
                        self.f_anchor = Some(new_anchor);
                        self.switched = true;
                    }
                    let ghost told = *ctx;
                    proof {
                        mid.evolves_keeps(&told);
                    }
                    let asked = ctx.request(self.f_anchor.as_ref().unwrap().token, true);
                    proof {
                        told.evolves_keeps(ctx);
                        mid.evolves_transitive(&told, ctx);
                        mid.evolves_keeps(ctx);
                        before.evolves_transitive(&mid, ctx);
                        assert(ctx.calls() =~= mid.calls() + switch_calls(a.alias(), new.token, asked));
                        if !ctx.degraded() {
                            lemma_within_more(tokens, mid.told(), ctx.told());
                            lemma_chosen_agreeing::<G, A, F, Out>(a.anchors, a.f, mid.told(), ctx.told(), new.token);
                        }
                    }
                    return announce(asked, &mut self.switched);
                },
            }
        }
        let asked = ctx.request(self.f_anchor.as_ref().unwrap().token, true);
        proof {
            before.evolves_keeps(ctx);
            assert(ctx.calls() =~= before.calls() + switch_calls(None, a.f_anchor->0.token, asked));
            if !ctx.degraded() {
                AnchorInner::<G>::more_told(&a, before.told(), ctx.told());
            }
        }
        announce(asked, &mut self.switched)
    }
}

} // verus!
