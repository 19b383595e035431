//! Anchors that pass on the output of a chosen anchor, and choose again only where the inputs differ.

use crate::expert::ext::thens::{announce, announced, switch_calls};
use crate::expert::inputs::{
    lemma_within_less, lemma_within_more, lemma_within_removed, listed, request_all, requested, within, Applies, Found, Inputs, Snapshots,
    Takes,
};
use crate::expert::{Anchor, AnchorInner, AnchorOutput, AnchorToken, Call, OutputRef, Poll, UpdateContext};
use vstd::prelude::*;

verus! {

/// An anchor that passes on the output of the anchor that `f` chooses by the outputs of `anchors`. While
/// these are equal to those that `f` was last called on, `f` is not called again.
pub struct ThenDedupe<A, Vals, Out, F> {
    pub f: F,
    /// The anchor whose output is passed on.
    pub f_anchor: Option<Anchor<Out>>,
    /// Some input has changed since it was last compared.
    pub output_stale: bool,
    /// Another anchor has been chosen since the last output was announced.
    pub switched: bool,
    pub anchors: A,
    /// The outputs that `f` was last called on.
    pub cached_inputs: Option<Vals>,
}

/// One that chooses by a single output.
pub type ThenDedupe1<O1, Out, F> = ThenDedupe<(Anchor<O1>,), (O1,), Out, F>;

/// The calls by which an anchor takes up a new choice.
pub open spec fn replace_calls(old: Option<AnchorToken>, new: AnchorToken, poll: Poll) -> Seq<Call> {
    let request = Call::Request { token: new, necessary: true, poll };
    if old is Some {
        seq![Call::Unrequest { token: old->0 }, request]
    } else {
        seq![request]
    }
}

/// `f` made the choice `chosen` by outputs of which `kept` are clones.
#[verifier::opaque]
pub open spec fn remembered<G: UpdateContext, A: Applies<G, F, Anchor<Out>> + Snapshots<G, Values = Vals>, Vals, Out, F>(
    anchors: A,
    f: F,
    chosen: Option<Anchor<Out>>,
    kept: Option<Vals>,
) -> bool {
    &&& chosen is Some
    &&& kept is Some
    &&& exists|past: Map<AnchorToken, G::V>| #[trigger]
        anchors.gives(f, past, chosen->0) && anchors.copies(past, kept->0)
}

/// `outs` holds outputs that differ from those of which `kept` are clones in nothing that `==` finds.
#[verifier::opaque]
pub open spec fn like_kept<G: UpdateContext, A: Snapshots<G, Values = Vals>, Vals>(
    anchors: A,
    kept: Option<Vals>,
    outs: Map<AnchorToken, G::V>,
) -> bool {
    &&& within(anchors.tokens(), outs)
    &&& kept is Some
    &&& exists|values: Vals| #[trigger]
        anchors.copies(outs, values) && (values == kept->0 || A::values_alike(kept->0, values))
}

proof fn lemma_like_kept_agreeing<G: UpdateContext, A: Snapshots<G, Values = Vals>, Vals>(
    anchors: A,
    kept: Option<Vals>,
    a: Map<AnchorToken, G::V>,
    b: Map<AnchorToken, G::V>,
)
    requires
        within(anchors.tokens(), b),
        forall|k: int| 0 <= k < anchors.tokens().len() ==> a[#[trigger] anchors.tokens()[k]] == b[anchors.tokens()[k]],
    ensures
        like_kept::<G, A, Vals>(anchors, kept, a) ==> like_kept::<G, A, Vals>(anchors, kept, b),
{
    reveal(like_kept);
    if like_kept::<G, A, Vals>(anchors, kept, a) {
        let values = choose|values: Vals| #[trigger]
            anchors.copies(a, values) && (values == kept->0 || A::values_alike(kept->0, values));
        anchors.copies_depend(a, b, values);
    }
}

/// Clones of the outputs of now are like what was kept, if `==` finds no difference.
proof fn lemma_like_kept<G: UpdateContext, A: Snapshots<G, Values = Vals>, Vals>(
    anchors: A,
    kept: Vals,
    values: Vals,
    now: Map<AnchorToken, G::V>,
    told: Map<AnchorToken, G::V>,
)
    requires
        told.submap_of(now),
        within(anchors.tokens(), told),
        anchors.copies(now, values),
        values == kept || A::values_alike(kept, values),
    ensures
        like_kept::<G, A, Vals>(anchors, Some(kept), told),
{
    reveal(like_kept);
    lemma_within_more(anchors.tokens(), told, now);
    anchors.copies_depend(now, told, values);
}

/// A choice that is made and kept is remembered.
proof fn lemma_remembered<G: UpdateContext, A: Applies<G, F, Anchor<Out>> + Snapshots<G, Values = Vals>, Vals, Out, F>(
    anchors: A,
    f: F,
    chosen: Anchor<Out>,
    kept: Vals,
    now: Map<AnchorToken, G::V>,
)
    requires
        anchors.gives(f, now, chosen),
        anchors.copies(now, kept),
    ensures
        remembered::<G, A, Vals, Out, F>(anchors, f, Some(chosen), Some(kept)),
{
    reveal(remembered);
    let choice: Option<Anchor<Out>> = Some(chosen);
    assert(anchors.gives(f, now, choice->0) && anchors.copies(now, kept));
}

impl<A: Takes<F, Anchor<Out>>, Vals, Out, F> ThenDedupe<A, Vals, Out, F> {
    pub fn new(anchors: A, f: F) -> (chooser: Self)
        requires
            anchors.callable(f),
        ensures
            chooser == (ThenDedupe::<A, Vals, Out, F> {
                f,
                f_anchor: None,
                output_stale: true,
                switched: false,
                anchors,
                cached_inputs: None,
            }),
            chooser.inv(),
    {
        ThenDedupe { f, f_anchor: None, output_stale: true, switched: false, anchors, cached_inputs: None }
    }

    /// What a poll makes of a chooser.
    pub open spec fn step<G: UpdateContext>(self, later: Self, before: &G, after: &G, poll: Poll) -> bool where
        A: Applies<G, F, Anchor<Out>> + Snapshots<G, Values = Vals>,
     {
        if self.f_anchor is Some && !self.output_stale {
            &&& before.evolves(after)
            &&& exists|asked: Poll|
                {
                    &&& after.calls() == before.calls() + #[trigger] switch_calls(None, self.f_anchor->0.token, asked)
                    &&& later == (ThenDedupe { switched: self.switched && !asked.ready(), ..self })
                    &&& poll == announced(asked, self.switched)
                }
        } else {
            exists|mid: G, outcome: Found| #[trigger]
                requested(before, &mid, self.anchors.tokens(), true, outcome) && mid.evolves(after) && self.answered(
                    later,
                    &mid,
                    after,
                    outcome,
                    poll,
                )
        }
    }

    /// What comes of the answers to a chooser's requests.
    pub open spec fn answered<G: UpdateContext>(
        self,
        later: Self,
        mid: &G,
        after: &G,
        outcome: Found,
        poll: Poll,
    ) -> bool where A: Applies<G, F, Anchor<Out>> + Snapshots<G, Values = Vals> {
        if outcome.invalid {
            if self.f_anchor is Some {
                exists|asked: Poll|
                    {
                        &&& after.calls() == mid.calls() + #[trigger] switch_calls(None, self.f_anchor->0.token, asked)
                        &&& later == (ThenDedupe { output_stale: false, switched: self.switched && !asked.ready(), ..self })
                        &&& poll == announced(asked, self.switched)
                    }
            } else {
                later == (ThenDedupe { output_stale: true, ..self }) && *after == *mid && poll is PendingInvalidToken
            }
        } else if outcome.pending {
            later == (ThenDedupe { output_stale: true, ..self }) && *after == *mid && poll is Pending
        } else if !self.anchors.all_read(mid) {
            later == (ThenDedupe { output_stale: true, ..self }) && *after == *mid && poll is PendingInvalidToken
        } else {
            exists|values: Vals| #[trigger]
                self.anchors.copied(mid, values) && {
                    ||| {
                        &&& self.f_anchor is Some
                        &&& self.cached_inputs is Some
                        &&& A::values_alike(self.cached_inputs->0, values)
                        &&& exists|asked: Poll|
                            {
                                &&& after.calls() == mid.calls() + #[trigger] switch_calls(None, self.f_anchor->0.token, asked)
                                &&& later == (ThenDedupe {
                                    output_stale: false,
                                    switched: self.switched && !asked.ready(),
                                    ..self
                                })
                                &&& poll == announced(asked, self.switched)
                            }
                    }
                    ||| {
                        &&& !self.anchors.readable(mid)
                        &&& later == (ThenDedupe { output_stale: true, ..self })
                        &&& *after == *mid
                        &&& poll is PendingInvalidToken
                    }
                    ||| {
                        &&& self.f_anchor is Some && self.cached_inputs is Some ==> A::values_unlike(
                            self.cached_inputs->0,
                            values,
                        )
                        &&& later.f_anchor is Some
                        &&& self.anchors.gives_read(self.f, mid, later.f_anchor->0)
                        &&& exists|asked: Poll|
                            {
                                let switched = self.switched || (self.f_anchor is Some && self.f_anchor->0.token
                                    != later.f_anchor->0.token);
                                &&& later == (ThenDedupe {
                                    output_stale: false,
                                    f_anchor: later.f_anchor,
                                    cached_inputs: Some(values),
                                    switched: switched && !asked.ready(),
                                    ..self
                                })
                                &&& after.calls() == mid.calls() + #[trigger] replace_calls(
                                    self.alias(),
                                    later.f_anchor->0.token,
                                    asked,
                                )
                                &&& poll == announced(asked, switched)
                            }
                    }
                }
        }
    }
}

impl<A: Takes<F, Anchor<Out>>, Vals, Out, F> AnchorOutput for ThenDedupe<A, Vals, Out, F> {
    type Output = Out;

    type Handed = ();

    open spec fn inv(&self) -> bool {
        self.anchors.callable(self.f)
    }

    open spec fn had(&self) -> bool {
        self.f_anchor is Some
    }

    open spec fn alias(&self) -> Option<AnchorToken> {
        match self.f_anchor {
            Some(anchor) => Some(anchor.token),
            None => None,
        }
    }

    open spec fn own(&self) -> Out {
        arbitrary()
    }

    open spec fn honest(&self) -> bool {
        false
    }

    open spec fn outside(&self) -> Option<()> {
        None
    }

    open spec fn displays(handed: (), out: Out) -> bool {
        true
    }

    fn output(&self) -> (out: OutputRef<'_, Out>) {
        OutputRef::Of(self.f_anchor.as_ref().unwrap().token)
    }
}

impl<G: UpdateContext, A: Applies<G, F, Anchor<Out>> + Snapshots<G, Values = Vals>, Vals, Out, F> AnchorInner<
    G,
> for ThenDedupe<A, Vals, Out, F> {
    open spec fn current(&self) -> bool {
        true
    }

    open spec fn holds(&self, told: Map<AnchorToken, G::V>) -> bool {
        &&& self.f_anchor is Some ==> remembered::<G, A, Vals, Out, F>(self.anchors, self.f, self.f_anchor, self.cached_inputs)
        &&& self.f_anchor is Some && !self.output_stale ==> within(self.anchors.tokens(), told) && like_kept::<G, A, Vals>(
            self.anchors,
            self.cached_inputs,
            told,
        )
    }

    open spec fn sound(&self, told: Map<AnchorToken, G::V>) -> bool {
        &&& self.f_anchor is Some
        &&& within(self.anchors.tokens(), told)
        &&& remembered::<G, A, Vals, Out, F>(self.anchors, self.f, self.f_anchor, self.cached_inputs)
        &&& like_kept::<G, A, Vals>(self.anchors, self.cached_inputs, told)
        &&& told.contains_key(self.f_anchor->0.token)
    }

    open spec fn right(&self, seen: Map<AnchorToken, G::V>) -> bool {
        true
    }

    open spec fn hears(&self, later: &Self, edge: AnchorToken) -> bool {
        *later == (ThenDedupe {
            output_stale: self.output_stale || self.anchors.tokens().contains(edge),
            ..*self
        })
    }

    open spec fn polls(&self, later: &Self, before: &G, after: &G, poll: Poll) -> bool {
        self.step(*later, before, after, poll)
    }

    open spec fn leans_on(&self, told: Map<AnchorToken, G::V>, d: AnchorToken) -> bool {
        self.anchors.tokens().contains(d) || self.alias() == Some(d)
    }

    proof fn less_told(&self, told: Map<AnchorToken, G::V>, less: Map<AnchorToken, G::V>) {
        lemma_within_less(self.anchors.tokens(), told, less);
        lemma_like_kept_agreeing::<G, A, Vals>(self.anchors, self.cached_inputs, told, less);
        assert(less.contains_key(self.f_anchor->0.token));
    }

    proof fn more_told(&self, told: Map<AnchorToken, G::V>, more: Map<AnchorToken, G::V>) {
        if within(self.anchors.tokens(), told) && self.f_anchor is Some {
            lemma_within_more(self.anchors.tokens(), told, more);
            lemma_like_kept_agreeing::<G, A, Vals>(self.anchors, self.cached_inputs, told, more);
            if told.contains_key(self.f_anchor->0.token) {
                assert(told.dom().contains(self.f_anchor->0.token));
                assert(more.dom().contains(self.f_anchor->0.token));
            }
        }
    }

    proof fn shows_outside(&self) {
    }

    fn dirty(&mut self, edge: AnchorToken) {
        if self.output_stale {
            return ;
        }
        if listed(&self.anchors.list(), edge) {
            self.output_stale = true;
        }
        proof {
            let a = *old(self);
            let b = *self;
            assert forall|told: Map<AnchorToken, G::V>| #![auto] AnchorInner::<G>::holds(&a, told) implies AnchorInner::<G>::holds(&b, told) && AnchorInner::<G>::holds(&b, told.remove(edge)) by {
                if b.f_anchor is Some && !b.output_stale {
                    lemma_within_removed(b.anchors.tokens(), told, edge);
                    lemma_like_kept_agreeing::<G, A, Vals>(b.anchors, b.cached_inputs, told, told.remove(edge));
                }
            }
        }
    }

    #[verifier::rlimit(60)]
    #[verifier::spinoff_prover]
    fn poll_updated(&mut self, ctx: &mut G) -> (poll: Poll) {
        let ghost a = *self;
        let ghost before = *ctx;
        let ghost tokens = self.anchors.tokens();
        proof {
            before.evolves_reflexive();
            before.evolves_keeps(ctx);
        }
        if self.f_anchor.is_none() || self.output_stale {
            let list: Vec<AnchorToken> = self.anchors.list();
            let outcome = request_all(ctx, &list, true);
            let ghost mid = *ctx;
            proof {
                before.evolves_keeps(ctx);
                mid.evolves_reflexive();
            }
            if outcome.pending || outcome.updated {
                self.output_stale = true;
            }
            if outcome.invalid {
                match &self.f_anchor {
                    Some(old_anchor) => {
                        self.output_stale = false;
                        let asked = ctx.request(old_anchor.token, true);
                        proof {
                            mid.evolves_keeps(ctx);
                            before.evolves_transitive(&mid, ctx);
                            assert(ctx.calls() =~= mid.calls() + switch_calls(None, a.f_anchor->0.token, asked));
                        }
                        return announce(asked, &mut self.switched);
                    },
                    None => {
                        self.output_stale = true;
                        return Poll::PendingInvalidToken;
                    },
                }
            }
            if outcome.pending {
                return Poll::Pending;
            }
            let current: Vals = match self.anchors.snapshot(ctx) {
                Some(current) => current,
                None => {
                    self.output_stale = true;
                    return Poll::PendingInvalidToken;
                },
            };
            let reuses: bool = match (&self.f_anchor, &self.cached_inputs) {
                (Some(_), Some(prev)) => A::same_values(prev, &current),
                _ => false,
            };
            if reuses {
                self.output_stale = false;
                let asked = ctx.request(self.f_anchor.as_ref().unwrap().token, true);
                proof {
                    mid.evolves_keeps(ctx);
                    before.evolves_transitive(&mid, ctx);
                    assert(ctx.calls() =~= mid.calls() + switch_calls(None, a.f_anchor->0.token, asked));
                    if !ctx.degraded() {
                        lemma_within_more(tokens, mid.told(), ctx.told());
                        lemma_like_kept::<G, A, Vals>(a.anchors, a.cached_inputs->0, current, mid.now(), ctx.told());
                    }
                }
                return announce(asked, &mut self.switched);
            }
            match self.anchors.apply(&mut self.f, ctx) {
                None => {
                    self.output_stale = true;
                    return Poll::PendingInvalidToken;
                },
                Some(new_anchor) => {
                    self.output_stale = false;
                    let ghost new = new_anchor;
                    let outdated: Option<AnchorToken> = match &self.f_anchor {
                        Some(outdated_anchor) => Some(outdated_anchor.token),
                        None => None,
                    };
                    if let Some(token) = outdated {
                        ctx.unrequest(token);
                        if token != new_anchor.token {
                            self.switched = true;
                        }
                    }
                    self.f_anchor = Some(new_anchor);
                    self.cached_inputs = Some(current);
                    let ghost told = *ctx;
                    proof {
                        mid.evolves_keeps(&told);
                    }
                    let asked = ctx.request(self.f_anchor.as_ref().unwrap().token, true);
                    proof {
                        told.evolves_keeps(ctx);
                        mid.evolves_transitive(&told, ctx);
                        mid.evolves_keeps(ctx);
                        before.evolves_transitive(&mid, ctx);
                        assert(ctx.calls() =~= mid.calls() + replace_calls(a.alias(), new.token, asked));
                        if !ctx.degraded() {
                            lemma_remembered::<G, A, Vals, Out, F>(a.anchors, a.f, new, current, mid.now());
                            lemma_within_more(tokens, mid.told(), ctx.told());
                            lemma_like_kept::<G, A, Vals>(a.anchors, current, current, mid.now(), ctx.told());
                        }
                    }
                    let poll = announce(asked, &mut self.switched);
                    assert(a.answered(*self, &mid, ctx, outcome, poll)) by {
                        assert(a.anchors.copied(&mid, current));
                    }
                    return poll;
                },
            }
        }
        let asked = ctx.request(self.f_anchor.as_ref().unwrap().token, true);
        proof {
            before.evolves_keeps(ctx);
            assert(ctx.calls() =~= before.calls() + switch_calls(None, a.f_anchor->0.token, asked));
            if !ctx.degraded() {
                AnchorInner::<G>::more_told(&a, before.told(), ctx.told());
            }
        }
        announce(asked, &mut self.switched)
    }
}

} // verus!
