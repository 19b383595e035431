//! Anchors that pass on an output but not all of its changes.

use crate::expert::equal::{alike, equal, unlike};
use crate::expert::ext::then_clone::asked_one;
use crate::expert::{Anchor, AnchorInner, AnchorOutput, AnchorToken, OutputRef, Poll, Reads, UpdateContext};
use vstd::prelude::*;

verus! {

/// An anchor that passes on the output of another, and reports a change of it only where `f` answers `true`.
pub struct Cutoff<O, F> {
    pub f: F,
    pub anchor: Anchor<O>,
}

impl<O, F: FnMut(&O) -> bool> Cutoff<O, F> {
    pub fn new(anchor: Anchor<O>, f: F) -> (cutoff: Self)
        requires
            forall|v: O| call_requires(f, (&v,)),
        ensures
            cutoff == (Cutoff { f, anchor }),
            cutoff.inv(),
    {
        Cutoff { f, anchor }
    }

    /// What a poll answers.
    pub open spec fn step<G: Reads<O>>(self, before: &G, after: &G, answer: Poll) -> bool {
        exists|poll: Poll| #[trigger]
            asked_one(before, after, self.anchor.token, poll) && if !(poll is Updated) {
                answer == poll
            } else {
                match <G as Reads<O>>::reading(after, self.anchor.token) {
                    Some(v) => exists|significant: bool| #[trigger]
                        call_ensures(self.f, (&v,), significant) && answer == (if significant {
                            Poll::Updated
                        } else {
                            Poll::Unchanged
                        }),
                    None => answer is PendingInvalidToken,
                }
            }
    }
}

impl<O, F: FnMut(&O) -> bool> AnchorOutput for Cutoff<O, F> {
    type Output = O;

    type Handed = ();

    open spec fn inv(&self) -> bool {
        forall|v: O| call_requires(self.f, (&v,))
    }

    open spec fn had(&self) -> bool {
        true
    }

    open spec fn alias(&self) -> Option<AnchorToken> {
        Some(self.anchor.token)
    }

    open spec fn own(&self) -> O {
        arbitrary()
    }

    open spec fn honest(&self) -> bool {
        false
    }

    open spec fn outside(&self) -> Option<()> {
        None
    }

    open spec fn displays(handed: (), out: O) -> bool {
        true
    }

    fn output(&self) -> (out: OutputRef<'_, O>) {
        OutputRef::Of(self.anchor.token)
    }
}

impl<G: Reads<O>, O, F: FnMut(&O) -> bool> AnchorInner<G> for Cutoff<O, F> {
    open spec fn current(&self) -> bool {
        true
    }

    open spec fn holds(&self, told: Map<AnchorToken, G::V>) -> bool {
        true
    }

    open spec fn sound(&self, told: Map<AnchorToken, G::V>) -> bool {
        told.contains_key(self.anchor.token)
    }

    open spec fn right(&self, seen: Map<AnchorToken, G::V>) -> bool {
        true
    }

    open spec fn hears(&self, later: &Self, edge: AnchorToken) -> bool {
        *later == *self
    }

    open spec fn polls(&self, later: &Self, before: &G, after: &G, poll: Poll) -> bool {
        &&& *later == *self
        &&& self.step(before, after, poll)
    }

    open spec fn leans_on(&self, told: Map<AnchorToken, G::V>, d: AnchorToken) -> bool {
        d == self.anchor.token
    }

    proof fn less_told(&self, told: Map<AnchorToken, G::V>, less: Map<AnchorToken, G::V>) {
        assert(less.contains_key(self.anchor.token));
    }

    proof fn more_told(&self, told: Map<AnchorToken, G::V>, more: Map<AnchorToken, G::V>) {
        if told.contains_key(self.anchor.token) {
            assert(told.dom().contains(self.anchor.token));
            assert(more.dom().contains(self.anchor.token));
        }
    }

    proof fn shows_outside(&self) {
    }

    /// It asks for its input at every poll, so it has nothing to keep in mind.
    fn dirty(&mut self, edge: AnchorToken) {
    }

    fn poll_updated(&mut self, ctx: &mut G) -> (poll: Poll) {
        let ghost before = *ctx;
        let upstream_poll = ctx.request(self.anchor.token, true);
        proof {
            before.evolves_keeps(ctx);
            assert(asked_one(&before, ctx, self.anchor.token, upstream_poll));
        }
        if upstream_poll != Poll::Updated {
            return upstream_poll;
        }
        match ctx.get(&self.anchor) {
            Some(v) => {
                if (self.f)(v) {
                    Poll::Updated
                } else {
                    Poll::Unchanged
                }
            },
            None => Poll::PendingInvalidToken,
        }
    }
}

/// An anchor that passes on the output of another, and reports a change of it only where it differs from the output
/// that was last reported.
pub struct Debounce<O> {
    pub anchor: Anchor<O>,
    /// The output that was last reported.
    pub old_v: Option<O>,
}

impl<O: Clone + PartialEq> Debounce<O> {
    pub fn new(anchor: Anchor<O>) -> (debounce: Self)
        ensures
            debounce == (Debounce::<O> { anchor, old_v: None }),
    {
        Debounce { anchor, old_v: None }
    }

    /// What a poll makes of it.
    pub open spec fn step<G: Reads<O>>(self, later: Self, before: &G, after: &G, answer: Poll) -> bool {
        exists|poll: Poll| #[trigger]
            asked_one(before, after, self.anchor.token, poll) && if !(poll is Updated) {
                later == self && answer == poll
            } else {
                match <G as Reads<O>>::reading(after, self.anchor.token) {
                    Some(v) => {
                        ||| {
                            &&& self.old_v is Some
                            &&& alike(self.old_v->0, v)
                            &&& later == self
                            &&& answer is Unchanged
                        }
                        ||| {
                            &&& self.old_v is Some ==> unlike(self.old_v->0, v)
                            &&& later.old_v is Some
                            &&& cloned(v, later.old_v->0)
                            &&& later.anchor == self.anchor
                            &&& answer is Updated
                        }
                    },
                    None => later == self && answer is PendingInvalidToken,
                }
            }
    }
}

impl<O> AnchorOutput for Debounce<O> {
    type Output = O;

    type Handed = ();

    open spec fn inv(&self) -> bool {
        true
    }

    open spec fn had(&self) -> bool {
        true
    }

    open spec fn alias(&self) -> Option<AnchorToken> {
        Some(self.anchor.token)
    }

    open spec fn own(&self) -> O {
        arbitrary()
    }

    open spec fn honest(&self) -> bool {
        false
    }

    open spec fn outside(&self) -> Option<()> {
        None
    }

    open spec fn displays(handed: (), out: O) -> bool {
        true
    }

    fn output(&self) -> (out: OutputRef<'_, O>) {
        OutputRef::Of(self.anchor.token)
    }
}

impl<G: Reads<O>, O: Clone + PartialEq> AnchorInner<G> for Debounce<O> {
    open spec fn current(&self) -> bool {
        true
    }

    open spec fn holds(&self, told: Map<AnchorToken, G::V>) -> bool {
        true
    }

    open spec fn sound(&self, told: Map<AnchorToken, G::V>) -> bool {
        told.contains_key(self.anchor.token)
    }

    open spec fn right(&self, seen: Map<AnchorToken, G::V>) -> bool {
        true
    }

    open spec fn hears(&self, later: &Self, edge: AnchorToken) -> bool {
        *later == *self
    }

    open spec fn polls(&self, later: &Self, before: &G, after: &G, poll: Poll) -> bool {
        self.step(*later, before, after, poll)
    }

    open spec fn leans_on(&self, told: Map<AnchorToken, G::V>, d: AnchorToken) -> bool {
        d == self.anchor.token
    }

    proof fn less_told(&self, told: Map<AnchorToken, G::V>, less: Map<AnchorToken, G::V>) {
        assert(less.contains_key(self.anchor.token));
    }

    proof fn more_told(&self, told: Map<AnchorToken, G::V>, more: Map<AnchorToken, G::V>) {
        if told.contains_key(self.anchor.token) {
            assert(told.dom().contains(self.anchor.token));
            assert(more.dom().contains(self.anchor.token));
        }
    }

    proof fn shows_outside(&self) {
    }

    /// It asks for its input at every poll, so it has nothing to keep in mind.
    fn dirty(&mut self, edge: AnchorToken) {
    }

    fn poll_updated(&mut self, ctx: &mut G) -> (poll: Poll) {
        let ghost before = *ctx;
        let upstream_poll = ctx.request(self.anchor.token, true);
        proof {
            before.evolves_keeps(ctx);
            assert(asked_one(&before, ctx, self.anchor.token, upstream_poll));
        }
        if upstream_poll != Poll::Updated {
            return upstream_poll;
        }
        match ctx.get(&self.anchor) {
            Some(v) => {
                let same: bool = match &self.old_v {
                    Some(old) => equal(old, v),
                    None => false,
                };
                if same {
                    return Poll::Unchanged;
                }
                self.old_v = Some(v.clone());
                Poll::Updated
            },
            None => Poll::PendingInvalidToken,
        }
    }
}

} // verus!
