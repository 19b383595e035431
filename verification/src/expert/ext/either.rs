//! Anchors whose output is a value or the output of another anchor, as a function says.

use crate::expert::equal::{alike, equal, unlike};
use crate::expert::ext::then_clone::asked_one;
use crate::expert::ext::thens::announced;
use crate::expert::inputs::{
    lemma_within_less, lemma_within_more, lemma_within_removed, listed, request_all, requested, within, Applies, Found, Inputs, Takes,
};
use crate::expert::var_val_or_anchor::ValOrAnchor;
use crate::expert::{Anchor, AnchorInner, AnchorOutput, AnchorToken, Call, OutputRef, Poll, UpdateContext};
use vstd::prelude::*;

verus! {

/// An anchor whose output is what `f` makes of the outputs of `anchors`: a value, or the output of an anchor.
pub struct Either<A, Out, F> {
    pub f: F,
    pub either_anchor: Option<ValOrAnchor<Out>>,
    /// Some input has changed since `f` was called.
    pub output_stale: bool,
    /// Some input is gone: the output stays what it is.
    pub degraded_on_invalid: bool,
    /// It has gone over to an anchor that had to be waited for, and has not announced that yet.
    pub switched: bool,
    pub anchors: A,
}

/// What has to be given up where `old` gives way to `new`.
pub open spec fn given_up<Out>(old: Option<ValOrAnchor<Out>>, new: ValOrAnchor<Out>) -> Seq<Call> {
    if old is Some && old->0.target() is Some && old->0.target() != new.target() {
        seq![Call::Unrequest { token: old->0.target()->0 }]
    } else {
        Seq::empty()
    }
}

/// Whether it is a change that `old` gives way to `new`; where `new` is the first choice and an anchor, that is for
/// the anchor to say.
pub open spec fn change<Out: PartialEq>(old: Option<ValOrAnchor<Out>>, new: ValOrAnchor<Out>, poll: Poll) -> bool {
    match (old, new) {
        (None, ValOrAnchor::Anchor(_)) => poll is Unchanged,
        (None, ValOrAnchor::Val(_)) => poll is Updated,
        (Some(ValOrAnchor::Val(a)), ValOrAnchor::Val(b)) => {
            ||| poll is Updated && unlike(a, b)
            ||| poll is Unchanged && alike(a, b)
        },
        (Some(ValOrAnchor::Val(_)), ValOrAnchor::Anchor(_)) => poll is Updated,
        (Some(ValOrAnchor::Anchor(_)), ValOrAnchor::Val(_)) => poll is Updated,
        (Some(ValOrAnchor::Anchor(a)), ValOrAnchor::Anchor(b)) => poll == (if a.token != b.token {
            Poll::Updated
        } else {
            Poll::Unchanged
        }),
    }
}

impl<A: Takes<F, ValOrAnchor<Out>>, Out: PartialEq, F> Either<A, Out, F> {
    pub fn new(anchors: A, f: F) -> (either: Self)
        requires
            anchors.callable(f),
        ensures
            either == (Either::<A, Out, F> {
                f,
                either_anchor: None,
                output_stale: true,
                degraded_on_invalid: false,
                switched: false,
                anchors,
            }),
            either.inv(),
    {
        Either { f, either_anchor: None, output_stale: true, degraded_on_invalid: false, switched: false, anchors }
    }

    /// The choice is one that `f` makes by the outputs that `outs` holds.
    pub open spec fn made_by<G: UpdateContext>(self, outs: Map<AnchorToken, G::V>) -> bool where
        A: Applies<G, F, ValOrAnchor<Out>>,
     {
        &&& within(self.anchors.tokens(), outs)
        &&& self.anchors.gives(self.f, outs, self.either_anchor->0)
    }

    /// What going over to `new` comes to: whether it is a change and what its anchor answered, or else the answer
    /// that is given.
    pub open spec fn gone_over<G: UpdateContext>(
        self,
        later: Self,
        before: &G,
        after: &G,
        new: ValOrAnchor<Out>,
        outcome: Result<(Poll, Option<Poll>), Poll>,
    ) -> bool {
        let fresh = Either { output_stale: false, ..self };
        let replaced = Either { output_stale: false, either_anchor: Some(new), ..self };
        if new.target() is Some && (self.either_anchor is None || self.either_anchor->0.target() != new.target()) {
            exists|mid: G, poll: Poll| #[trigger]
                asked_one(before, &mid, new.target()->0, poll) && if poll is PendingInvalidToken {
                    &&& later == fresh
                    &&& *after == mid
                    &&& outcome == Err::<(Poll, Option<Poll>), Poll>(
                        if self.either_anchor is Some {
                            Poll::Unchanged
                        } else {
                            Poll::PendingInvalidToken
                        },
                    )
                } else {
                    &&& later == (Either {
                        switched: self.switched || (poll.waiting() && self.either_anchor is Some),
                        ..replaced
                    })
                    &&& after.calls() == mid.calls() + given_up(self.either_anchor, new)
                    &&& if poll.waiting() {
                        outcome == Err::<(Poll, Option<Poll>), Poll>(Poll::Pending)
                    } else {
                        outcome is Ok && outcome->Ok_0.1 == Some(poll) && change(
                            self.either_anchor,
                            new,
                            outcome->Ok_0.0,
                        )
                    }
                }
        } else {
            &&& later == replaced
            &&& after.calls() == before.calls() + given_up(self.either_anchor, new)
            &&& outcome is Ok
            &&& outcome->Ok_0.1 is None
            &&& change(self.either_anchor, new, outcome->Ok_0.0)
        }
    }

    /// What asking the inputs again comes to. `f` is called where an input has changed, and for as long as a switch has
    /// not been announced: what it was made by may have given way to what was there before.
    pub open spec fn reconsidered<G: UpdateContext>(
        self,
        later: Self,
        before: &G,
        after: &G,
        outcome: Result<(Poll, Option<Poll>), Poll>,
    ) -> bool where A: Applies<G, F, ValOrAnchor<Out>> {
        exists|mid: G, found: Found| #[trigger]
            requested(before, &mid, self.anchors.tokens(), true, found) && if found.invalid {
                &&& *after == mid
                &&& if self.either_anchor is Some {
                    later == (Either { output_stale: false, degraded_on_invalid: true, ..self }) && outcome == Err::<
                        (Poll, Option<Poll>),
                        Poll,
                    >(Poll::Unchanged)
                } else {
                    later == self && outcome == Err::<(Poll, Option<Poll>), Poll>(Poll::PendingInvalidToken)
                }
            } else if found.pending {
                later == self && *after == mid && outcome == Err::<(Poll, Option<Poll>), Poll>(Poll::Pending)
            } else if self.either_anchor is Some && !found.updated && !self.switched {
                later == (Either { output_stale: false, ..self }) && *after == mid && outcome == Ok::<
                    (Poll, Option<Poll>),
                    Poll,
                >((Poll::Unchanged, None))
            } else if !self.anchors.readable(&mid) {
                later == self && *after == mid && outcome == Err::<(Poll, Option<Poll>), Poll>(Poll::PendingInvalidToken)
            } else {
                exists|new: ValOrAnchor<Out>| #[trigger]
                    self.anchors.gives_read(self.f, &mid, new) && self.gone_over(later, &mid, after, new, outcome)
            }
    }

    /// Goes over to `new`.
    fn go_over<G: UpdateContext>(&mut self, ctx: &mut G, new: ValOrAnchor<Out>) -> (outcome: Result<
        (Poll, Option<Poll>),
        Poll,
    >)
        requires
            old(ctx).valid(),
        ensures
            old(self).gone_over(*final(self), old(ctx), final(ctx), new, outcome),
            old(ctx).evolves(final(ctx)),
            final(self).f == old(self).f,
            final(self).anchors == old(self).anchors,
            final(self).degraded_on_invalid == old(self).degraded_on_invalid,
            !final(self).output_stale,
            outcome is Ok ==> final(self).either_anchor is Some,
            old(self).either_anchor is Some ==> final(self).either_anchor is Some,
            outcome is Ok && outcome->Ok_0.1 is Some ==> outcome->Ok_0.1->0.ready() && (!final(ctx).degraded() ==> final(ctx).told().contains_key(new.target()->0)),
            outcome is Ok && outcome->Ok_0.1 is Some ==> final(self).either_anchor == Some(new) && new.target() is Some,
            outcome is Ok ==> outcome->Ok_0.0.ready(),
            outcome is Err && outcome->Err_0.ready() ==> final(ctx).degraded() && final(self).either_anchor is Some,
            outcome is Err && final(self).either_anchor is Some && final(self).either_anchor->0 is Val ==> final(self).either_anchor == old(self).either_anchor,
            !final(ctx).degraded() && final(self).either_anchor is Some ==> final(self).either_anchor == Some(new),
            outcome is Err && old(self).either_anchor is Some ==> final(self).either_anchor == old(self).either_anchor || final(self).switched,
            outcome is Ok && outcome->Ok_0.1 is None && new.target() is Some ==> final(self).either_anchor == old(self).either_anchor,
            old(self).switched ==> final(self).switched,
    {
        let ghost a = *self;
        let ghost before = *ctx;
        self.output_stale = false;
        let old: Option<AnchorToken> = match &self.either_anchor {
            Some(ValOrAnchor::Anchor(anchor)) => Some(anchor.token),
            _ => None,
        };
        let target: Option<AnchorToken> = match &new {
            ValOrAnchor::Anchor(anchor) => Some(anchor.token),
            ValOrAnchor::Val(_) => None,
        };
        let mut output_anchor_poll: Option<Poll> = None;
        let same_anchor: bool = match (old, target) {
            (Some(a), Some(b)) => a == b,
            _ => false,
        };
        let mut waits: bool = false;
        proof {
            before.evolves_reflexive();
        }
        if let Some(token) = target {
            if !same_anchor {
                let new_poll = ctx.request(token, true);
                proof {
                    before.evolves_keeps(ctx);
                    assert(asked_one(&before, ctx, token, new_poll));
                }
                match new_poll {
                    Poll::PendingInvalidToken => {
                        if self.either_anchor.is_some() {
                            return Err(Poll::Unchanged);
                        }
                        return Err(Poll::PendingInvalidToken);
                    },
                    Poll::Pending | Poll::PendingDefer => {
                        waits = true;
                    },
                    Poll::Updated | Poll::Unchanged => {
                        output_anchor_poll = Some(new_poll);
                    },
                }
            }
        }
        let ghost mid = *ctx;
        let poll = match (&self.either_anchor, &new) {
            (None, ValOrAnchor::Anchor(_)) => Poll::Unchanged,
            (None, ValOrAnchor::Val(_)) => Poll::Updated,
            (Some(ValOrAnchor::Val(_)), ValOrAnchor::Anchor(_)) => Poll::Updated,
            (Some(ValOrAnchor::Val(a)), ValOrAnchor::Val(b)) => if !equal(a, b) {
                Poll::Updated
            } else {
                Poll::Unchanged
            },
            (Some(ValOrAnchor::Anchor(_)), ValOrAnchor::Val(_)) => Poll::Updated,
            (Some(ValOrAnchor::Anchor(a)), ValOrAnchor::Anchor(b)) => if !a.same(b) {
                Poll::Updated
            } else {
                Poll::Unchanged
            },
        };
        if let Some(outdated) = old {
            if !same_anchor {
                ctx.unrequest(outdated);
            }
        }
        proof {
            mid.evolves_reflexive();
            mid.evolves_keeps(ctx);
            before.evolves_transitive(&mid, ctx);
            assert(ctx.calls() =~= mid.calls() + given_up(a.either_anchor, new));
        }
        if waits && self.either_anchor.is_some() {
            self.switched = true;
        }
        self.either_anchor = Some(new);
        if waits {
            return Err(Poll::Pending);
        }
        Ok((poll, output_anchor_poll))
    }

    /// Asks the inputs again.
    fn reconsider<G: UpdateContext>(&mut self, ctx: &mut G) -> (outcome: Result<(Poll, Option<Poll>), Poll>) where
        A: Applies<G, F, ValOrAnchor<Out>>,

        requires
            old(ctx).valid(),
            old(self).inv(),
            !old(self).degraded_on_invalid,
            old(self).either_anchor is None || old(self).output_stale,
            !old(ctx).degraded() && old(ctx).completed() && old(self).either_anchor is Some && !old(self).switched
                ==> old(self).made_by::<G>(old(ctx).seen()),
        ensures
            old(self).reconsidered(*final(self), old(ctx), final(ctx), outcome),
            old(ctx).evolves(final(ctx)),
            final(self).f == old(self).f,
            final(self).anchors == old(self).anchors,
            old(self).either_anchor is Some ==> final(self).either_anchor is Some,
            !final(ctx).degraded() ==> !final(self).degraded_on_invalid,
            !final(ctx).degraded() && final(self).either_anchor is Some && !final(self).output_stale
                ==> final(self).made_by::<G>(final(ctx).told()),
            outcome is Err && old(self).either_anchor is Some ==> final(self).either_anchor == old(self).either_anchor || final(self).switched,
            outcome is Ok && outcome->Ok_0.1 is None && final(self).either_anchor->0.target() is Some ==> final(self).either_anchor
                == old(self).either_anchor,
            old(self).switched ==> final(self).switched,
            outcome is Ok ==> final(self).either_anchor is Some && !final(self).output_stale && outcome->Ok_0.0.ready(),
            outcome is Ok && outcome->Ok_0.1 is Some ==> outcome->Ok_0.1->0.ready() && final(self).either_anchor->0.target() is Some && (!final(ctx).degraded() ==> final(ctx).told().contains_key(
                final(self).either_anchor->0.target()->0,
            )),
            outcome is Err && outcome->Err_0.ready() ==> final(ctx).degraded() && final(self).either_anchor is Some,
            outcome is Err && old(self).either_anchor is Some && final(self).either_anchor->0 is Val ==> final(self).either_anchor == old(self).either_anchor,
    {
        let ghost a = *self;
        let ghost before = *ctx;
        let ghost tokens = self.anchors.tokens();
        let list: Vec<AnchorToken> = self.anchors.list();
        let found = request_all(ctx, &list, true);
        let ghost mid = *ctx;
        proof {
            before.evolves_keeps(ctx);
        }
        if found.invalid {
            if self.either_anchor.is_some() {
                self.output_stale = false;
                self.degraded_on_invalid = true;
                return Err(Poll::Unchanged);
            }
            return Err(Poll::PendingInvalidToken);
        }
        if found.pending {
            return Err(Poll::Pending);
        }
        if self.either_anchor.is_none() || found.updated || self.switched {
            match self.anchors.apply(&mut self.f, ctx) {
                None => {
                    return Err(Poll::PendingInvalidToken);
                },
                Some(new) => {
                    let ghost chosen = new;
                    let outcome = self.go_over(ctx, new);
                    proof {
                        mid.evolves_keeps(ctx);
                        before.evolves_transitive(&mid, ctx);
                        assert(a.anchors.gives_read(a.f, &mid, chosen));
                        if !ctx.degraded() {
                            lemma_within_more(tokens, mid.told(), mid.now());
                            a.anchors.depends(a.f, mid.now(), mid.told(), chosen);
                            lemma_within_more(tokens, mid.told(), ctx.told());
                            a.anchors.depends(a.f, mid.told(), ctx.told(), chosen);
                        }
                    }
                    return outcome;
                },
            }
        }
        self.output_stale = false;
        proof {
            a.anchors.some();
            if !ctx.degraded() {
                lemma_within_more(tokens, ctx.told(), ctx.now());
                assert forall|k: int| 0 <= k < tokens.len() implies before.seen()[#[trigger] tokens[k]] == ctx.told()[tokens[k]] by {
                    assert(before.seen().contains_key(tokens[k]));
                }
                a.anchors.depends(a.f, before.seen(), ctx.told(), a.either_anchor->0);
            }
        }
        Ok((Poll::Unchanged, None))
    }

    /// What the rest of a poll answers, where going over to the present choice was a change as `poll` says, and its
    /// anchor was asked already if `asked` says so. A switch that had to be waited for is a change too.
    pub open spec fn concluded<G: UpdateContext>(
        self,
        later: Self,
        before: &G,
        after: &G,
        poll: Poll,
        asked: Option<Poll>,
        answer: Poll,
    ) -> bool {
        let change = announced(poll, self.switched);
        &&& later == (Either { switched: self.switched && !answer.ready(), ..self })
        &&& match self.either_anchor->0 {
            ValOrAnchor::Val(_) => *after == *before && answer == change,
            ValOrAnchor::Anchor(anchor) => match asked {
                Some(given) => *after == *before && answer == passed(given, change),
                None => exists|given: Poll| #[trigger]
                    asked_one(before, after, anchor.token, given) && answer == passed(given, change),
            },
        }
    }

    /// Answers for the present choice.
    fn conclude<G: UpdateContext>(&mut self, ctx: &mut G, poll: Poll, asked: Option<Poll>) -> (answer: Poll)
        requires
            old(ctx).valid(),
            old(self).either_anchor is Some,
            poll.ready(),
            asked is Some ==> asked->0.ready() && old(self).either_anchor->0.target() is Some && (!old(ctx).degraded()
                ==> old(ctx).told().contains_key(old(self).either_anchor->0.target()->0)),
        ensures
            old(self).concluded(*final(self), old(ctx), final(ctx), poll, asked, answer),
            old(ctx).evolves(final(ctx)),
            answer.ready() && !final(ctx).degraded() && old(self).either_anchor->0.target() is Some ==> final(ctx).told().contains_key(old(self).either_anchor->0.target()->0),
            old(self).either_anchor->0 is Val ==> answer.ready(),
    {
        proof {
            ctx.evolves_reflexive();
        }
        let change: Poll = if self.switched {
            Poll::Updated
        } else {
            poll
        };
        let answer: Poll = match self.either_anchor.as_ref().unwrap() {
            ValOrAnchor::Val(_) => change,
            ValOrAnchor::Anchor(anchor) => {
                let given = match asked {
                    Some(given) => given,
                    None => ctx.request(anchor.token, true),
                };
                proof {
                    if asked is None {
                        assert(asked_one(old(ctx), ctx, anchor.token, given));
                    }
                }
                match given {
                    Poll::Updated => Poll::Updated,
                    Poll::Unchanged => change,
                    Poll::Pending | Poll::PendingDefer => Poll::Pending,
                    Poll::PendingInvalidToken => Poll::PendingInvalidToken,
                }
            },
        };
        if answer == Poll::Updated || answer == Poll::Unchanged {
            self.switched = false;
        }
        answer
    }

    /// What a poll makes of an anchor of this kind.
    pub open spec fn step<G: UpdateContext>(self, later: Self, before: &G, after: &G, answer: Poll) -> bool where
        A: Applies<G, F, ValOrAnchor<Out>>,
     {
        if self.degraded_on_invalid {
            &&& later == (Either { output_stale: false, ..self })
            &&& *after == *before
            &&& answer == (if self.either_anchor is Some {
                Poll::Unchanged
            } else {
                Poll::PendingInvalidToken
            })
        } else if self.either_anchor is None || self.output_stale {
            exists|mid: G, chooser: Self, outcome: Result<(Poll, Option<Poll>), Poll>| #[trigger]
                self.reconsidered(chooser, before, &mid, outcome) && match outcome {
                    Err(given) => later == chooser && *after == mid && answer == given,
                    Ok((poll, asked)) => chooser.concluded(later, &mid, after, poll, asked, answer),
                }
        } else {
            self.concluded(later, before, after, Poll::Unchanged, None, answer)
        }
    }
}

/// The answer of an anchor that passes on one that answered `given`, if `poll` says whether it has just gone over
/// to it.
pub open spec fn passed(given: Poll, poll: Poll) -> Poll {
    match given {
        Poll::Updated => Poll::Updated,
        Poll::Unchanged => poll,
        Poll::PendingInvalidToken => Poll::PendingInvalidToken,
        _ => Poll::Pending,
    }
}

impl<A: Takes<F, ValOrAnchor<Out>>, Out, F> AnchorOutput for Either<A, Out, F> {
    type Output = Out;

    type Handed = ();

    open spec fn inv(&self) -> bool {
        self.anchors.callable(self.f)
    }

    open spec fn had(&self) -> bool {
        self.either_anchor is Some
    }

    open spec fn alias(&self) -> Option<AnchorToken> {
        match self.either_anchor {
            Some(either) => either.target(),
            None => None,
        }
    }

    open spec fn own(&self) -> Out {
        self.either_anchor->0->Val_0
    }

    open spec fn honest(&self) -> bool {
        false
    }

    open spec fn outside(&self) -> Option<()> {
        None
    }

    open spec fn displays(handed: (), out: Out) -> bool {
        true
    }

    fn output(&self) -> (out: OutputRef<'_, Out>) {
        match self.either_anchor.as_ref().unwrap() {
            ValOrAnchor::Val(v) => OutputRef::Own(v),
            ValOrAnchor::Anchor(anchor) => OutputRef::Of(anchor.token),
        }
    }
}

impl<G: UpdateContext, A: Applies<G, F, ValOrAnchor<Out>>, Out: PartialEq, F> AnchorInner<G> for Either<A, Out, F> {
    open spec fn current(&self) -> bool {
        true
    }

    open spec fn holds(&self, told: Map<AnchorToken, G::V>) -> bool {
        &&& !self.degraded_on_invalid
        &&& self.either_anchor is Some && !self.output_stale ==> self.made_by::<G>(told)
    }

    open spec fn sound(&self, told: Map<AnchorToken, G::V>) -> bool {
        &&& self.either_anchor is Some
        &&& self.made_by::<G>(told)
        &&& self.alias() is Some ==> told.contains_key(self.alias()->0)
    }

    open spec fn right(&self, seen: Map<AnchorToken, G::V>) -> bool {
        self.either_anchor is Some && !self.switched ==> self.made_by::<G>(seen)
    }

    open spec fn hears(&self, later: &Self, edge: AnchorToken) -> bool {
        *later == (Either {
            output_stale: self.output_stale || (!self.degraded_on_invalid
                && self.anchors.tokens().contains(edge)),
            ..*self
        })
    }

    open spec fn polls(&self, later: &Self, before: &G, after: &G, poll: Poll) -> bool {
        self.step(*later, before, after, poll)
    }

    open spec fn leans_on(&self, told: Map<AnchorToken, G::V>, d: AnchorToken) -> bool {
        self.anchors.tokens().contains(d) || self.alias() == Some(d)
    }

    proof fn less_told(&self, told: Map<AnchorToken, G::V>, less: Map<AnchorToken, G::V>) {
        lemma_within_less(self.anchors.tokens(), told, less);
        self.anchors.depends(self.f, told, less, self.either_anchor->0);
        if self.alias() is Some {
            assert(less.contains_key(self.alias()->0));
        }
    }

    proof fn more_told(&self, told: Map<AnchorToken, G::V>, more: Map<AnchorToken, G::V>) {
        if within(self.anchors.tokens(), told) {
            lemma_within_more(self.anchors.tokens(), told, more);
            self.anchors.depends(self.f, told, more, self.either_anchor->0);
        }
        if self.alias() is Some && told.contains_key(self.alias()->0) {
            assert(told.dom().contains(self.alias()->0));
            assert(more.dom().contains(self.alias()->0));
        }
    }

    proof fn shows_outside(&self) {
    }

    fn dirty(&mut self, edge: AnchorToken) {
        if self.degraded_on_invalid {
            return ;
        }
        if self.output_stale {
            return ;
        }
        if listed(&self.anchors.list(), edge) {
            self.output_stale = true;
        }
        proof {
            let a = *old(self);
            let b = *self;
            assert forall|told: Map<AnchorToken, G::V>| #![auto] AnchorInner::<G>::holds(&a, told) implies AnchorInner::<G>::holds(&b, told) && AnchorInner::<G>::holds(&b, told.remove(edge)) by {
                if b.either_anchor is Some && !b.output_stale {
                    lemma_within_removed(b.anchors.tokens(), told, edge);
                    b.anchors.depends(b.f, told, told.remove(edge), b.either_anchor->0);
                }
            }
        }
    }

    fn poll_updated(&mut self, ctx: &mut G) -> (poll: Poll) {
        let ghost a = *self;
        let ghost before = *ctx;
        proof {
            before.evolves_reflexive();
            before.evolves_keeps(ctx);
        }
        if self.degraded_on_invalid {
            self.output_stale = false;
            return if self.either_anchor.is_some() {
                Poll::Unchanged
            } else {
                Poll::PendingInvalidToken
            };
        }
        let mut poll = Poll::Unchanged;
        let mut asked: Option<Poll> = None;
        if self.either_anchor.is_none() || self.output_stale {
            let outcome = self.reconsider(ctx);
            proof {
                before.evolves_keeps(ctx);
                assert(a.reconsidered(*self, &before, ctx, outcome));
            }
            match outcome {
                Err(given) => {
                    return given;
                },
                Ok((changed, given)) => {
                    poll = changed;
                    asked = given;
                },
            }
        }
        let ghost mid = *ctx;
        let ghost chooser = *self;
        let answer = self.conclude(ctx, poll, asked);
        proof {
            mid.evolves_keeps(ctx);
            before.evolves_transitive(&mid, ctx);
            assert(chooser.concluded(*self, &mid, ctx, poll, asked, answer));
            if !ctx.degraded() {
                AnchorInner::<G>::more_told(self, mid.told(), ctx.told());
                if within(self.anchors.tokens(), mid.told()) {
                    lemma_within_more(self.anchors.tokens(), mid.told(), ctx.told());
                    self.anchors.depends(self.f, mid.told(), ctx.told(), self.either_anchor->0);
                }
            }
        }
        answer
    }
}

} // verus!
