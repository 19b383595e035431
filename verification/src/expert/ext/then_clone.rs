//! Anchors that keep a clone of the output of a chosen anchor.

use crate::expert::{Anchor, AnchorInner, AnchorOutput, AnchorToken, Call, OutputRef, Poll, Reads, UpdateContext};
use vstd::prelude::*;

verus! {

/// An anchor whose output is a clone of the output of the anchor that `f` chooses by the output of
/// `anchor`. Its output can be read even where that anchor is gone.
pub struct ThenClone1<O1, Out, F> {
    pub f: F,
    /// The anchor whose output is cloned.
    pub f_anchor: Option<Anchor<Out>>,
    pub cached_output: Out,
    /// An anchor that was asked for is gone; the output stays what it is for now.
    pub degraded_on_invalid: bool,
    /// The choice has to be made again.
    pub output_stale: bool,
    /// The chosen anchor has reported a change since its output was cloned.
    pub output_dirty: bool,
    /// The chosen anchor is another one than that whose output was cloned.
    pub switched: bool,
    pub anchor: Anchor<O1>,
}

/// A request for `token` answered by `poll` between two contexts.
pub open spec fn asked_one<G: UpdateContext>(before: &G, after: &G, token: AnchorToken, poll: Poll) -> bool {
    &&& before.evolves(after)
    &&& after.calls() == before.calls().push(Call::Request { token, necessary: true, poll })
    &&& poll is PendingInvalidToken ==> after.degraded()
}

impl<O1, Out: Clone, F: FnMut(&O1) -> Anchor<Out>> ThenClone1<O1, Out, F> {
    pub fn new(anchor: Anchor<O1>, initial: Out, f: F) -> (chooser: Self)
        requires
            forall|v: O1| call_requires(f, (&v,)),
        ensures
            chooser == (ThenClone1 {
                f,
                f_anchor: None::<Anchor<Out>>,
                cached_output: initial,
                degraded_on_invalid: false,
                output_stale: true,
                output_dirty: false,
                switched: false,
                anchor,
            }),
            chooser.inv(),
    {
        ThenClone1 {
            f,
            f_anchor: None,
            cached_output: initial,
            degraded_on_invalid: false,
            output_stale: true,
            output_dirty: false,
            switched: false,
            anchor,
        }
    }

    /// The anchor whose output is cloned.
    pub open spec fn choice(self) -> Option<AnchorToken> {
        match self.f_anchor {
            Some(anchor) => Some(anchor.token),
            None => None,
        }
    }

    /// The output is a clone of the output of the chosen anchor that `outs` holds.
    pub open spec fn copies<G: Reads<Out>>(self, outs: Map<AnchorToken, G::V>) -> bool {
        &&& self.f_anchor is Some
        &&& outs.contains_key(self.f_anchor->0.token)
        &&& cloned(<G as Reads<Out>>::cast(outs[self.f_anchor->0.token]), self.cached_output)
    }

    /// `f` may choose `token` by the output that `outs` holds.
    pub open spec fn may_choose<G: Reads<O1>>(self, outs: Map<AnchorToken, G::V>, token: AnchorToken) -> bool {
        exists|r: Anchor<Out>| #[trigger]
            call_ensures(self.f, (&<G as Reads<O1>>::cast(outs[self.anchor.token]),), r) && r.token == token
    }

    proof fn lemma_may_choose<G: Reads<O1>>(
        self,
        later: Self,
        outs: Map<AnchorToken, G::V>,
        others: Map<AnchorToken, G::V>,
        token: AnchorToken,
    )
        requires
            later.f == self.f,
            later.anchor == self.anchor,
            outs[self.anchor.token] == others[self.anchor.token],
            self.may_choose::<G>(outs, token),
        ensures
            later.may_choose::<G>(others, token),
    {
        let r = choose|r: Anchor<Out>| #[trigger]
            call_ensures(self.f, (&<G as Reads<O1>>::cast(outs[self.anchor.token]),), r) && r.token == token;
        assert(call_ensures(later.f, (&<G as Reads<O1>>::cast(others[later.anchor.token]),), r));
    }

    /// What asking again makes of a chooser that holds on to its output. Without an answer it goes on to choose
    /// again.
    pub open spec fn thawed<G: Reads<O1> + Reads<Out>>(self, later: Self, before: &G, after: &G, answer: Option<Poll>) -> bool {
        exists|mid: G, input: Poll| #[trigger]
            asked_one(before, &mid, self.anchor.token, input) && self.thawed_after(later, &mid, after, input, answer)
    }

    /// What the answer of the input makes of a chooser that holds on to its output.
    pub open spec fn thawed_after<G: Reads<O1> + Reads<Out>>(
        self,
        later: Self,
        mid: &G,
        after: &G,
        input: Poll,
        answer: Option<Poll>,
    ) -> bool {
        if !input.ready() {
            later == self && *after == *mid && answer == Some(Poll::Unchanged)
        } else if self.output_dirty && self.f_anchor is Some {
            exists|poll: Poll| #[trigger]
                asked_one(mid, after, self.f_anchor->0.token, poll) && self.thawed_by(later, after, poll, answer)
        } else if input is Unchanged && !self.output_stale {
            later == self && *after == *mid && answer == Some(Poll::Unchanged)
        } else {
            &&& later == (ThenClone1 { degraded_on_invalid: false, output_stale: true, ..self })
            &&& *after == *mid
            &&& answer is None
        }
    }

    /// What the answer of the chosen anchor makes of a chooser that holds on to its output.
    pub open spec fn thawed_by<G: Reads<O1> + Reads<Out>>(self, later: Self, after: &G, poll: Poll, answer: Option<Poll>) -> bool {
        let reading = <G as Reads<Out>>::reading(after, self.f_anchor->0.token);
        match poll {
            Poll::PendingInvalidToken => {
                &&& later == (ThenClone1 { output_dirty: false, output_stale: true, ..self })
                &&& answer == Some(Poll::Unchanged)
            },
            Poll::Updated | Poll::Unchanged => if poll is Updated || self.switched {
                if reading is Some {
                    &&& cloned(reading->0, later.cached_output)
                    &&& later == (ThenClone1 {
                        cached_output: later.cached_output,
                        output_dirty: false,
                        switched: false,
                        degraded_on_invalid: false,
                        output_stale: false,
                        ..self
                    })
                    &&& answer == Some(Poll::Updated)
                } else {
                    later == self && answer == Some(Poll::PendingInvalidToken)
                }
            } else {
                &&& later == (ThenClone1 {
                    output_dirty: false,
                    degraded_on_invalid: false,
                    output_stale: false,
                    ..self
                })
                &&& answer == Some(Poll::Unchanged)
            },
            _ => later == self && answer == Some(Poll::Pending),
        }
    }

    /// Asks again for what was gone.
    fn thaw<G: Reads<O1> + Reads<Out>>(&mut self, ctx: &mut G) -> (answer: Option<Poll>)
        requires
            old(self).degraded_on_invalid,
            old(ctx).valid(),
        ensures
            old(self).thawed(*final(self), old(ctx), final(ctx), answer),
            old(ctx).evolves(final(ctx)),
            final(self).f == old(self).f,
            final(self).anchor == old(self).anchor,
            answer == Some(Poll::Unchanged) ==> final(self).cached_output == old(self).cached_output,
            answer is None || answer->0 is Pending || answer->0 is PendingInvalidToken ==> final(self).cached_output
                == old(self).cached_output,
    {
        let ghost a = *self;
        let ghost before = *ctx;
        let poll = ctx.request(self.anchor.token, true);
        let ghost mid = *ctx;
        proof {
            before.evolves_keeps(ctx);
            assert(asked_one(&before, &mid, a.anchor.token, poll));
        }
        if poll.is_waiting() || poll.is_invalid_token() {
            return Some(Poll::Unchanged);
        }
        if self.output_dirty {
            if let Some(out_anchor) = &self.f_anchor {
                let out_poll = ctx.request(out_anchor.token, true);
                proof {
                    before.evolves_transitive(&mid, ctx);
                    mid.evolves_keeps(ctx);
                    assert(asked_one(&mid, ctx, a.f_anchor->0.token, out_poll));
                }
                match out_poll {
                    Poll::PendingInvalidToken => {
                        self.output_dirty = false;
                        self.output_stale = true;
                        return Some(Poll::Unchanged);
                    },
                    Poll::Updated | Poll::Unchanged => {
                        if out_poll == Poll::Updated || self.switched {
                            match <G as Reads<Out>>::get(ctx, out_anchor) {
                                Some(out) => {
                                    self.cached_output = out.clone();
                                },
                                None => {
                                    return Some(Poll::PendingInvalidToken);
                                },
                            }
                            self.output_dirty = false;
                            self.switched = false;
                            self.degraded_on_invalid = false;
                            self.output_stale = false;
                            return Some(Poll::Updated);
                        }
                        self.output_dirty = false;
                        self.degraded_on_invalid = false;
                        self.output_stale = false;
                        return Some(Poll::Unchanged);
                    },
                    Poll::Pending | Poll::PendingDefer => {
                        return Some(Poll::Pending);
                    },
                }
            }
        }
        if poll != Poll::Updated && !self.output_stale {
            return Some(Poll::Unchanged);
        }
        self.degraded_on_invalid = false;
        self.output_stale = true;
        None
    }

    /// What choosing again makes of a chooser, and whether it now has another choice; or else the answer that it
    /// gives.
    pub open spec fn rechosen<G: Reads<O1>>(self, later: Self, before: &G, after: &G, switched: Result<bool, Poll>) -> bool {
        exists|mid: G, input: Poll| #[trigger]
            asked_one(before, &mid, self.anchor.token, input) && self.rechosen_by(later, &mid, after, input, switched)
    }

    /// What the answer of the input makes of a chooser that chooses again.
    pub open spec fn rechosen_by<G: Reads<O1>>(
        self,
        later: Self,
        mid: &G,
        after: &G,
        input: Poll,
        switched: Result<bool, Poll>,
    ) -> bool {
        let reading = <G as Reads<O1>>::reading(mid, self.anchor.token);
        if input.waiting() {
            later == (ThenClone1 { output_stale: true, ..self }) && *after == *mid && switched == Err::<bool, Poll>(Poll::Pending)
        } else if input is PendingInvalidToken {
            &&& later == (ThenClone1 { degraded_on_invalid: true, output_stale: false, output_dirty: false, ..self })
            &&& *after == *mid
            &&& switched == Err::<bool, Poll>(Poll::Unchanged)
        } else if reading is None {
            later == (ThenClone1 { output_stale: true, ..self }) && *after == *mid && switched == Err::<bool, Poll>(
                Poll::PendingInvalidToken,
            )
        } else {
            exists|r: Anchor<Out>| #[trigger]
                call_ensures(self.f, (&reading->0,), r) && {
                    &&& switched == Ok::<bool, Poll>(self.choice() != Some(r.token))
                    &&& later.f_anchor is Some
                    &&& later.f_anchor->0.token == r.token
                    &&& later == (ThenClone1 {
                        f_anchor: later.f_anchor,
                        output_stale: false,
                        output_dirty: false,
                        switched: self.switched || self.choice() != Some(r.token),
                        ..self
                    })
                    &&& mid.evolves(after)
                    &&& if self.f_anchor is Some && self.f_anchor->0.token != r.token {
                        after.calls() == mid.calls().push(Call::Unrequest { token: self.f_anchor->0.token })
                    } else {
                        *after == *mid
                    }
                }
        }
    }

    /// Chooses again.
    fn rechoose<G: Reads<O1> + Reads<Out>>(&mut self, ctx: &mut G) -> (switched: Result<bool, Poll>)
        requires
            old(ctx).valid(),
            forall|v: O1| call_requires(old(self).f, (&v,)),
        ensures
            old(self).rechosen(*final(self), old(ctx), final(ctx), switched),
            old(ctx).evolves(final(ctx)),
            final(self).f == old(self).f,
            final(self).anchor == old(self).anchor,
            final(self).cached_output == old(self).cached_output,
            !final(ctx).degraded() ==> final(self).degraded_on_invalid == old(self).degraded_on_invalid,
            switched is Ok ==> final(self).f_anchor is Some && !final(self).output_stale,
            switched is Ok && !final(self).switched ==> !old(self).switched && final(self).choice() == old(self).choice(),
            switched is Err ==> final(self).choice() == old(self).choice() && final(self).switched == old(self).switched,
            switched is Ok && !final(ctx).degraded() ==> final(ctx).told().contains_key(final(self).anchor.token)
                && final(self).may_choose::<G>(final(ctx).told(), final(self).f_anchor->0.token),
            switched is Err && !final(ctx).degraded() ==> !switched->Err_0.ready() && final(self).output_stale,
    {
        let ghost a = *self;
        let ghost before = *ctx;
        let poll = ctx.request(self.anchor.token, true);
        let ghost mid = *ctx;
        proof {
            before.evolves_keeps(ctx);
            assert(asked_one(&before, &mid, a.anchor.token, poll));
        }
        if poll.is_waiting() {
            self.output_stale = true;
            return Err(Poll::Pending);
        }
        if poll.is_invalid_token() {
            self.degraded_on_invalid = true;
            self.output_stale = false;
            self.output_dirty = false;
            return Err(Poll::Unchanged);
        }
        proof {
            mid.evolves_reflexive();
        }
        let new_anchor: Anchor<Out> = match <G as Reads<O1>>::get(ctx, &self.anchor) {
            Some(v) => (self.f)(v),
            None => {
                self.output_stale = true;
                return Err(Poll::PendingInvalidToken);
            },
        };
        self.output_stale = false;
        let ghost new = new_anchor;
        proof {
            if !mid.degraded() {
                <G as Reads<O1>>::reading_is_now(&mid, a.anchor.token);
                assert(mid.told()[a.anchor.token] == mid.now()[a.anchor.token]) by {
                    assert(mid.told().dom().contains(a.anchor.token));
                    assert(mid.now().dom().contains(a.anchor.token));
                }
                assert(call_ensures(a.f, (&<G as Reads<O1>>::cast(mid.told()[a.anchor.token]),), new));
                assert(a.may_choose::<G>(mid.told(), new.token));
            }
        }
        let outdated: Option<AnchorToken> = match &self.f_anchor {
            Some(old_anchor) => if !old_anchor.same(&new_anchor) {
                Some(old_anchor.token)
            } else {
                None
            },
            None => None,
        };
        let switched: bool = self.f_anchor.is_none() || outdated.is_some();
        if let Some(token) = outdated {
            ctx.unrequest(token);
            proof {
                before.evolves_transitive(&mid, ctx);
            }
        }
        if switched {
            self.f_anchor = Some(new_anchor);
            self.switched = true;
        }
        self.output_dirty = false;
        proof {
            if outdated is Some {
                mid.evolves_keeps(ctx);
            }
            if !ctx.degraded() {
                a.lemma_may_choose::<G>(*self, mid.told(), ctx.told(), new.token);
            }
            assert(switched == (a.choice() != Some(new.token)));
        }
        Ok(switched)
    }

    /// What the answer of the chosen anchor makes of a chooser.
    pub open spec fn passed_on<G: Reads<O1> + Reads<Out>>(
        self,
        later: Self,
        before: &G,
        after: &G,
        answer: Poll,
    ) -> bool {
        exists|mid: G, poll: Poll| #[trigger]
            asked_one(before, &mid, self.f_anchor->0.token, poll) && {
                let reading = <G as Reads<Out>>::reading(&mid, self.f_anchor->0.token);
                if poll.waiting() {
                    later == self && *after == mid && answer is Pending
                } else if poll is PendingInvalidToken {
                    &&& later == (ThenClone1 {
                        degraded_on_invalid: true,
                        output_dirty: false,
                        output_stale: true,
                        ..self
                    })
                    &&& exists|again: Poll| #[trigger] asked_one(&mid, after, self.anchor.token, again)
                    &&& answer is Unchanged
                } else if poll is Updated || self.switched || self.output_dirty {
                    &&& *after == mid
                    &&& if reading is Some {
                        &&& cloned(reading->0, later.cached_output)
                        &&& later == (ThenClone1 {
                            cached_output: later.cached_output,
                            output_dirty: false,
                            switched: false,
                            ..self
                        })
                        &&& answer is Updated
                    } else {
                        later == self && answer is PendingInvalidToken
                    }
                } else {
                    later == self && *after == mid && answer is Unchanged
                }
            }
    }

    /// Clones the output of the chosen anchor if it has changed.
    fn pass_on<G: Reads<O1> + Reads<Out>>(&mut self, ctx: &mut G) -> (answer: Poll)
        requires
            old(ctx).valid(),
            old(self).f_anchor is Some,
        ensures
            old(self).passed_on(*final(self), old(ctx), final(ctx), answer),
            old(ctx).evolves(final(ctx)),
            final(self).f == old(self).f,
            final(self).anchor == old(self).anchor,
            final(self).f_anchor == old(self).f_anchor,
            !(answer is Updated) ==> final(self).cached_output == old(self).cached_output,
            !final(ctx).degraded() ==> final(self).degraded_on_invalid == old(self).degraded_on_invalid
                && final(self).output_stale == old(self).output_stale,
            answer.ready() && !final(ctx).degraded() ==> {
                &&& final(ctx).told().contains_key(final(self).f_anchor->0.token)
                &&& !final(self).output_dirty
                &&& !final(self).switched
                &&& answer is Updated ==> final(self).copies::<G>(final(ctx).told())
                &&& answer is Unchanged && old(self).copies::<G>(old(ctx).seen()) ==> final(self).copies::<G>(final(ctx).told())
            },
            !answer.ready() ==> final(self).switched == old(self).switched,
            answer is Unchanged && !final(ctx).degraded() ==> !old(self).switched && old(ctx).completed(),
    {
        let ghost a = *self;
        let ghost before = *ctx;
        let out_anchor: Anchor<Out> = self.f_anchor.as_ref().unwrap().clone();
        let out_poll = ctx.request(out_anchor.token, true);
        let ghost mid = *ctx;
        proof {
            before.evolves_keeps(ctx);
            assert(asked_one(&before, &mid, a.f_anchor->0.token, out_poll));
        }
        if out_poll.is_waiting() {
            return Poll::Pending;
        }
        if out_poll.is_invalid_token() {
            self.degraded_on_invalid = true;
            self.output_dirty = false;
            self.output_stale = true;
            let again = ctx.request(self.anchor.token, true);
            proof {
                mid.evolves_keeps(ctx);
                before.evolves_transitive(&mid, ctx);
                assert(asked_one(&mid, ctx, a.anchor.token, again));
            }
            return Poll::Unchanged;
        }
        proof {
            if !mid.degraded() && <G as Reads<Out>>::reading(&mid, a.f_anchor->0.token) is Some {
                <G as Reads<Out>>::reading_is_now(&mid, a.f_anchor->0.token);
            }
            if !mid.degraded() {
                assert(mid.told().dom().contains(a.f_anchor->0.token));
                assert(mid.now().dom().contains(a.f_anchor->0.token));
            }
        }
        if out_poll == Poll::Updated || self.switched || self.output_dirty {
            match <G as Reads<Out>>::get(ctx, &out_anchor) {
                Some(out) => {
                    self.cached_output = out.clone();
                },
                None => {
                    return Poll::PendingInvalidToken;
                },
            }
            self.output_dirty = false;
            self.switched = false;
            return Poll::Updated;
        }
        Poll::Unchanged
    }

    /// What a poll makes of a chooser.
    pub open spec fn step<G: Reads<O1> + Reads<Out>>(self, later: Self, before: &G, after: &G, answer: Poll) -> bool {
        if self.degraded_on_invalid {
            exists|mid: G, thawed: Self, given: Option<Poll>| #[trigger]
                self.thawed(thawed, before, &mid, given) && if given is Some {
                    later == thawed && *after == mid && answer == given->0
                } else {
                    thawed.resumed(later, &mid, after, answer)
                }
        } else {
            self.resumed(later, before, after, answer)
        }
    }

    /// What the rest of a poll makes of a chooser that does not hold on to its output.
    pub open spec fn resumed<G: Reads<O1> + Reads<Out>>(self, later: Self, before: &G, after: &G, answer: Poll) -> bool {
        if self.f_anchor is None || self.output_stale {
            exists|mid: G, chooser: Self, switched: Result<bool, Poll>| #[trigger]
                self.rechosen(chooser, before, &mid, switched) && match switched {
                    Err(poll) => later == chooser && *after == mid && answer == poll,
                    Ok(_) => chooser.passed_on(later, &mid, after, answer),
                }
        } else {
            self.passed_on(later, before, after, answer)
        }
    }
}

impl<O1, Out: Clone, F: FnMut(&O1) -> Anchor<Out>> ThenClone1<O1, Out, F> {
    /// What was answered to be ready, of the input and of `choice`, can be read.
    pub open spec fn reads_what_is_ready<G: Reads<O1> + Reads<Out>>(
        self,
        before: &G,
        after: &G,
        choice: Option<AnchorToken>,
    ) -> bool {
        forall|k: int|
            before.calls().len() <= k < after.calls().len() ==> match #[trigger] after.calls()[k] {
                Call::Request { token, necessary, poll } => poll.ready() ==> {
                    &&& token == self.anchor.token ==> <G as Reads<O1>>::reading(before, token) is Some
                    &&& choice == Some(token) ==> <G as Reads<Out>>::reading(before, token) is Some
                },
                _ => true,
            }
    }

    proof fn lemma_passed_on_readable<G: Reads<O1> + Reads<Out>>(self, later: Self, start: &G, before: &G, after: &G, answer: Poll)
        requires
            self.f_anchor is Some,
            self.passed_on(later, before, after, answer),
            start.evolves(before),
            start.calls().len() <= before.calls().len(),
            self.reads_what_is_ready(start, after, later.choice()),
        ensures
            !(answer is PendingInvalidToken),
    {
        if answer is PendingInvalidToken {
            let t = self.f_anchor->0.token;
            let (mid, poll) = choose|mid: G, poll: Poll| #[trigger]
                asked_one(before, &mid, t, poll) && *after == mid && later == self && poll.ready() && <G as Reads<Out>>::reading(
                    &mid,
                    t,
                ) is None;
            assert(asked_one(before, after, t, poll));
            start.evolves_transitive(before, after);
            <G as Reads<Out>>::reading_kept(start, after, t);
            assert(after.calls()[before.calls().len() as int] == (Call::Request { token: t, necessary: true, poll }));
        }
    }

    proof fn lemma_resumed_readable<G: Reads<O1> + Reads<Out>>(self, later: Self, start: &G, before: &G, after: &G, answer: Poll)
        requires
            self.resumed(later, before, after, answer),
            start.evolves(before),
            start.calls().len() <= before.calls().len(),
            self.reads_what_is_ready(start, after, later.choice()),
        ensures
            !(answer is PendingInvalidToken),
    {
        if self.f_anchor is None || self.output_stale {
            let (mid, chooser, switched) = choose|mid: G, chooser: Self, switched: Result<bool, Poll>| #[trigger]
                self.rechosen(chooser, before, &mid, switched) && match switched {
                    Err(poll) => later == chooser && *after == mid && answer == poll,
                    Ok(_) => chooser.passed_on(later, &mid, after, answer),
                };
            let (asked, input) = choose|asked: G, input: Poll| #[trigger]
                asked_one(before, &asked, self.anchor.token, input) && self.rechosen_by(chooser, &asked, &mid, input, switched);
            start.evolves_transitive(before, &asked);
            <G as Reads<O1>>::reading_kept(start, &asked, self.anchor.token);
            match switched {
                Err(poll) => {
                    if answer is PendingInvalidToken {
                        assert(after.calls()[before.calls().len() as int] == (Call::Request {
                            token: self.anchor.token,
                            necessary: true,
                            poll: input,
                        }));
                    }
                },
                Ok(_) => {
                    start.evolves_transitive(&asked, &mid);
                    chooser.lemma_passed_on_readable(later, start, &mid, after, answer);
                },
            }
        } else {
            self.lemma_passed_on_readable(later, start, before, after, answer);
        }
    }

    /// A poll does not answer that an anchor is gone where what is ready can be read.
    pub proof fn reads_or_waits<G: Reads<O1> + Reads<Out>>(self, later: Self, before: &G, after: &G, answer: Poll)
        requires
            self.step(later, before, after, answer),
            self.reads_what_is_ready(before, after, later.choice()),
        ensures
            !(answer is PendingInvalidToken),
    {
        before.evolves_reflexive();
        if self.degraded_on_invalid {
            let (mid, thawed, given) = choose|mid: G, thawed: Self, given: Option<Poll>| #[trigger]
                self.thawed(thawed, before, &mid, given) && if given is Some {
                    later == thawed && *after == mid && answer == given->0
                } else {
                    thawed.resumed(later, &mid, after, answer)
                };
            let (asked, input) = choose|asked: G, input: Poll| #[trigger]
                asked_one(before, &asked, self.anchor.token, input) && self.thawed_after(thawed, &asked, &mid, input, given);
            if given is Some {
                if answer is PendingInvalidToken {
                    let t = self.f_anchor->0.token;
                    let poll = choose|poll: Poll| #[trigger]
                        asked_one(&asked, &mid, t, poll) && self.thawed_by(thawed, &mid, poll, given);
                    before.evolves_transitive(&asked, after);
                    <G as Reads<Out>>::reading_kept(before, after, t);
                    assert(after.calls()[asked.calls().len() as int] == (Call::Request { token: t, necessary: true, poll }));
                }
            } else {
                thawed.lemma_resumed_readable(later, before, &mid, after, answer);
            }
        } else {
            self.lemma_resumed_readable(later, before, before, after, answer);
        }
    }
}

impl<O1, Out, F: FnMut(&O1) -> Anchor<Out>> AnchorOutput for ThenClone1<O1, Out, F> {
    type Output = Out;

    type Handed = ();

    open spec fn inv(&self) -> bool {
        forall|v: O1| call_requires(self.f, (&v,))
    }

    open spec fn had(&self) -> bool {
        true
    }

    open spec fn alias(&self) -> Option<AnchorToken> {
        None
    }

    open spec fn own(&self) -> Out {
        self.cached_output
    }

    open spec fn honest(&self) -> bool {
        true
    }

    open spec fn outside(&self) -> Option<()> {
        None
    }

    open spec fn displays(handed: (), out: Out) -> bool {
        true
    }

    fn output(&self) -> (out: OutputRef<'_, Out>) {
        OutputRef::Own(&self.cached_output)
    }
}

impl<G: Reads<O1> + Reads<Out>, O1, Out: Clone, F: FnMut(&O1) -> Anchor<Out>> AnchorInner<G> for ThenClone1<O1, Out, F> {
    open spec fn current(&self) -> bool {
        true
    }

    open spec fn holds(&self, told: Map<AnchorToken, G::V>) -> bool {
        &&& !self.degraded_on_invalid
        &&& self.f_anchor is Some && !self.output_stale ==> told.contains_key(self.anchor.token) && self.may_choose::<G>(
            told,
            self.f_anchor->0.token,
        )
    }

    open spec fn sound(&self, told: Map<AnchorToken, G::V>) -> bool {
        &&& self.f_anchor is Some
        &&& told.contains_key(self.anchor.token)
        &&& self.may_choose::<G>(told, self.f_anchor->0.token)
        &&& told.contains_key(self.f_anchor->0.token)
        &&& !self.output_dirty
        &&& !self.switched
    }

    open spec fn right(&self, seen: Map<AnchorToken, G::V>) -> bool {
        !self.switched ==> self.copies::<G>(seen)
    }

    open spec fn hears(&self, later: &Self, edge: AnchorToken) -> bool {
        *later == (if edge == self.anchor.token {
            ThenClone1 { degraded_on_invalid: false, output_stale: true, ..*self }
        } else if self.choice() == Some(edge) {
            ThenClone1 { output_dirty: true, ..*self }
        } else {
            *self
        })
    }

    open spec fn polls(&self, later: &Self, before: &G, after: &G, poll: Poll) -> bool {
        self.step(*later, before, after, poll)
    }

    open spec fn leans_on(&self, told: Map<AnchorToken, G::V>, d: AnchorToken) -> bool {
        d == self.anchor.token || (self.f_anchor is Some && d == self.f_anchor->0.token)
    }

    proof fn less_told(&self, told: Map<AnchorToken, G::V>, less: Map<AnchorToken, G::V>) {
        assert(told.contains_key(self.anchor.token));
        assert(less.contains_key(self.anchor.token));
        assert(less.dom().contains(self.anchor.token));
        assert(told.contains_key(self.f_anchor->0.token));
        assert(less.contains_key(self.f_anchor->0.token));
        assert(less.dom().contains(self.f_anchor->0.token));
    }

    proof fn more_told(&self, told: Map<AnchorToken, G::V>, more: Map<AnchorToken, G::V>) {
        if told.contains_key(self.anchor.token) {
            assert(told.dom().contains(self.anchor.token));
            assert(more.dom().contains(self.anchor.token));
            assert(more[self.anchor.token] == told[self.anchor.token]);
        }
        if self.f_anchor is Some && told.contains_key(self.f_anchor->0.token) {
            assert(told.dom().contains(self.f_anchor->0.token));
            assert(more.dom().contains(self.f_anchor->0.token));
        }
    }

    proof fn shows_outside(&self) {
    }

    fn dirty(&mut self, edge: AnchorToken) {
        let ghost a = *self;
        if edge == self.anchor.token {
            self.degraded_on_invalid = false;
            self.output_stale = true;
            return ;
        }
        if let Some(out_anchor) = &self.f_anchor {
            if edge == out_anchor.token {
                self.output_dirty = true;
            }
        }
        proof {
            let b = *self;
            assert forall|told: Map<AnchorToken, G::V>| #![auto] AnchorInner::<G>::holds(&a, told) implies AnchorInner::<G>::holds(&b, told) && AnchorInner::<G>::holds(&b, told.remove(edge)) by {
                if b.f_anchor is Some && !b.output_stale {
                    assert(told.remove(edge)[b.anchor.token] == told[b.anchor.token]);
                    a.lemma_may_choose::<G>(b, told, told, b.f_anchor->0.token);
                    a.lemma_may_choose::<G>(b, told, told.remove(edge), b.f_anchor->0.token);
                }
            }
        }
    }

    fn poll_updated(&mut self, ctx: &mut G) -> (poll: Poll) {
        let ghost a = *self;
        let ghost before = *ctx;
        proof {
            before.evolves_reflexive();
        }
        if self.degraded_on_invalid {
            let given = self.thaw(ctx);
            proof {
                before.evolves_keeps(ctx);
                assert(a.thawed(*self, &before, ctx, given));
            }
            if let Some(poll) = given {
                return poll;
            }
        }
        let ghost thawed = *self;
        let ghost resumed = *ctx;
        if self.f_anchor.is_none() || self.output_stale {
            match self.rechoose(ctx) {
                Err(poll) => {
                    proof {
                        resumed.evolves_keeps(ctx);
                        before.evolves_transitive(&resumed, ctx);
                        assert(thawed.rechosen(*self, &resumed, ctx, Err::<bool, Poll>(poll)));
                        assert(thawed.resumed(*self, &resumed, ctx, poll));
                    }
                    return poll;
                },
                Ok(switched) => {
                    proof {
                        assert(thawed.rechosen(*self, &resumed, ctx, Ok::<bool, Poll>(switched)));
                    }
                },
            }
        }
        let ghost chooser = *self;
        let ghost chosen = *ctx;
        proof {
            resumed.evolves_reflexive();
            resumed.evolves_keeps(ctx);
            before.evolves_transitive(&resumed, ctx);
        }
        let poll = self.pass_on(ctx);
        proof {
            chosen.evolves_keeps(ctx);
            before.evolves_transitive(&chosen, ctx);
            assert(thawed.resumed(*self, &resumed, ctx, poll));
            if !ctx.degraded() {
                AnchorInner::<G>::more_told(&chooser, chosen.told(), ctx.told());
                if poll is Unchanged {
                    assert(a.copies::<G>(before.seen()));
                    assert(chooser.copies::<G>(chosen.seen()));
                }
            }
        }
        poll
    }
}

} // verus!
