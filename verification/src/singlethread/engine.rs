//! The engine: anchors are mounted on it, and their outputs are read from it.

use crate::expert::{Anchor, AnchorInner, AnchorOutput, AnchorToken, UpdateContext};
use crate::singlethread::context::{alive, lemma_outs_less, outs_wf, seen_wf, steady, told_wf, EngineContextMut, Ledger};
use crate::singlethread::graph2::{
    at, in_range, links_wf, lists, necessary_parents, ordered, queued, tidy_at, Graph2, Node, RecalcState,
};
use crate::singlethread::pending::{total, PendingQueue};
use crate::singlethread::recalc::{caught_up, lawful, node_lawful, same_needs, EngineError};
use crate::singlethread::stabilize::{calm, next, outrun, past, quiet, stalls, NOBODY};
use crate::singlethread::stats::{AnchorsPendingStats, TokenLog};
use vstd::prelude::*;

verus! {

/// Keeps the outputs of a graph of anchors up to date.
pub struct Engine<N, V> {
    pub ctx: EngineContextMut<N, V>,
    /// To recalculate a node that is locked is an error.
    pub lock_strict: bool,
    /// How many recalculations one stabilization may take; no limit if it is zero.
    pub spin_limit: usize,
}

/// How many more rounds a stabilization may take while nodes ask to be polled again.
pub const MAX_EXTRA_ROUNDS: usize = 8;

/// How many more rounds a read may take while there is work left.
pub const MAX_STABLE_GET_ROUNDS: usize = 4;

impl<N> Graph2<N> {
    /// Whether anything has to be recalculated.
    pub fn has_recalc_pending(&self) -> (b: bool)
        requires
            self.wf(),
        ensures
            b == !quiet(self.nodes@),
    {
        let mut h: usize = 0;
        while h < self.recalc_queues.len()
            invariant
                h <= self.recalc_queues@.len(),
                self.wf(),
                forall|g: int| 0 <= g < h ==> (#[trigger] self.recalc_queues@[g])@.len() == 0,
            decreases self.recalc_queues@.len() - h,
        {
            if self.recalc_queues[h].len() > 0 {
                assert(at(self.recalc_queues@, h as int, 0));
                return true;
            }
            h = h + 1;
        }
        assert forall|i: int| 0 <= i < self.nodes@.len() implies !((#[trigger] self.nodes@[i]).recalc_state is Pending) by {
            if self.nodes@[i].recalc_state is Pending {
                let (g, k) = choose|g: int, k: int| #[trigger]
                    at(self.recalc_queues@, g, k) && self.recalc_queues@[g]@[k] == i;
                assert(self.recalc_queues@[g]@.len() == 0);
            }
        }
        false
    }
}

impl<V, N: AnchorInner<EngineContextMut<N, V>, Output = V>> Engine<N, V> {
    /// Whether there is work left.
    pub open spec fn busy(&self) -> bool {
        ||| self.ctx.dirty_marks@.len() > 0
        ||| !quiet(self.ctx.graph.nodes@)
        ||| total(self.ctx.pending_requests.model()) > 0
    }

    /// Whether there is work left.
    pub fn has_pending_work(&self) -> (b: bool)
        requires
            self.ctx.wf(),
        ensures
            b == self.busy(),
    {
        proof {
            reveal(EngineContextMut::wf);
        }
        if self.ctx.dirty_marks.len() > 0 {
            return true;
        }
        if self.ctx.graph.has_recalc_pending() {
            return true;
        }
        !self.ctx.pending_requests.is_empty()
    }

    /// Recalculates what is queued, and makes the requests again that were put down.
    fn stabilize_with_pending_queue(&mut self) -> (done: Result<(), EngineError>)
        requires
            old(self).ctx.resting(),
        ensures
            final(self).ctx.settled(),
            old(self).ctx.same_fixed(&final(self).ctx),
            final(self).lock_strict == old(self).lock_strict,
            final(self).spin_limit == old(self).spin_limit,
            done is Err ==> stalls(final(self).ctx.graph.nodes@, done->Err_0),
            done is Ok && total(final(self).ctx.pending_requests.model()) == 0 ==> quiet(final(self).ctx.graph.nodes@),
            quiet(old(self).ctx.graph.nodes@) && total(old(self).ctx.pending_requests.model()) == 0
                && !old(self).ctx.defer_disabled ==> done is Ok && *final(self) == *old(self),
            old(self).ctx.round(&final(self).ctx, old(self).spin_limit, done),
    {
        match self.ctx.run(self.lock_strict, self.spin_limit) {
            Ok(()) => {
                let ghost mid = self.ctx;
                assert(old(self).ctx.ran(&mid, self.spin_limit, Ok(())));
                self.ctx.process_pending_requests();
                proof {
                    old(self).ctx.lemma_same_fixed_transitive(&mid, &self.ctx);
                }
                Ok(())
            },
            Err(error) => Err(error),
        }
    }

    /// None of the figures on the requests that were put down is less in `later`.
    pub open spec fn leaves_figures_to(&self, later: &Self) -> bool {
        later.ctx.pending_stats.grown(self.ctx.pending_stats)
    }

    /// The last round ended with `error`.
    pub open spec fn broke_off(&self, error: EngineError) -> bool {
        &&& stalls(self.ctx.graph.nodes@, error)
        &&& exists|begun: EngineContextMut<N, V>| #[trigger] begun.round(&self.ctx, self.spin_limit, Err(error))
    }

    /// What a stabilization makes of the engine: there is a round, and others while nodes ask to be polled again, as
    /// long as there are not too many of them and none ends with an error.
    pub open spec fn stabilized(&self, later: &Self, done: Result<(), EngineError>) -> bool {
        &&& later.lock_strict == self.lock_strict
        &&& later.spin_limit == self.spin_limit
        &&& exists|states: Seq<EngineContextMut<N, V>>|
            {
                let rounds = states.len() - 1;
                &&& #[trigger] Self::went_on(states, self.spin_limit)
                &&& states[0] == self.ctx
                &&& match done {
                    Ok(_) => {
                        &&& 1 <= rounds <= MAX_EXTRA_ROUNDS + 1
                        &&& later.ctx == states.last()
                        &&& later.ctx.dirty_marks@.len() == 0 || rounds == MAX_EXTRA_ROUNDS + 1
                    },
                    Err(error) => {
                        &&& 0 <= rounds <= MAX_EXTRA_ROUNDS
                        &&& rounds > 0 ==> states.last().dirty_marks@.len() > 0
                        &&& states.last().refreshed(&later.ctx, rounds == 0, self.spin_limit, Err(error))
                    },
                }
            }
    }

    /// Each of `states` comes from the one before it by a round without an error.
    pub open spec fn went_on(states: Seq<EngineContextMut<N, V>>, spin_limit: usize) -> bool {
        forall|k: int| 0 <= k < states.len() - 1 ==> #[trigger] Self::went_round(states, k, spin_limit)
    }

    /// There has been round `k`; but for the first, because a node asked for it.
    pub open spec fn went_round(states: Seq<EngineContextMut<N, V>>, k: int, spin_limit: usize) -> bool {
        &&& k > 0 ==> states[k].dirty_marks@.len() > 0
        &&& states[k].refreshed(&states[k + 1], k == 0, spin_limit, Ok(()))
    }

    /// Brings all observed nodes up to date.
    pub fn stabilize(&mut self) -> (done: Result<(), EngineError>)
        requires
            old(self).ctx.settled(),
        ensures
            final(self).ctx.settled(),
            final(self).lock_strict == old(self).lock_strict,
            final(self).spin_limit == old(self).spin_limit,
            final(self).ctx.generation == next(old(self).ctx.generation),
            final(self).ctx.defer_disabled == old(self).ctx.defer_disabled,
            final(self).ctx.graph.last_deleted == old(self).ctx.graph.last_deleted,
            final(self).ctx.graph.recalc_queues@.len() == old(self).ctx.graph.recalc_queues@.len(),
            same_needs(old(self).ctx.graph.nodes@, final(self).ctx.graph.nodes@),
            final(self).ctx.pending_stats.grown(old(self).ctx.pending_stats),
            done is Err ==> final(self).broke_off(done->Err_0),
            !old(self).busy() && !old(self).ctx.defer_disabled ==> done is Ok && *final(self) == (Engine {
                ctx: EngineContextMut { generation: next(old(self).ctx.generation), dirty_marks: final(self).ctx.dirty_marks, ..old(self).ctx },
                ..*old(self)
            }) && final(self).ctx.dirty_marks@.len() == 0,
            old(self).stabilized(final(self), done),
            done is Ok && total(final(self).ctx.pending_requests.model()) == 0 ==> quiet(final(self).ctx.graph.nodes@),
    {
        let ghost was = *self;
        let ghost mut states: Seq<EngineContextMut<N, V>> = seq![self.ctx];
        assert(Self::went_on(states, was.spin_limit));
        self.ctx.update_dirty_marks();
        assert(was.ctx.takes_marks(&self.ctx));
        proof {
            was.ctx.lemma_stirred_needs(&self.ctx);
        }
        self.ctx.next_generation();
        let ghost begun = *self;
        match self.stabilize_with_pending_queue() {
            Ok(()) => {
                proof {
                    assert(begun.ctx.round(&self.ctx, was.spin_limit, Ok(())));
                    assert(was.ctx.refreshed(&self.ctx, true, was.spin_limit, Ok(())));
                    states = states.push(self.ctx);
                    assert(Self::went_round(states, 0, was.spin_limit));
                }
            },
            Err(error) => {
                assert(was.ctx.refreshed(&self.ctx, true, was.spin_limit, Err(error)));
                return Err(error);
            },
        }
        let mut extra_rounds: usize = 0;
        while self.ctx.dirty_marks.len() > 0 && extra_rounds < MAX_EXTRA_ROUNDS
            invariant
                extra_rounds <= MAX_EXTRA_ROUNDS,
                self.ctx.settled(),
                self.lock_strict == was.lock_strict,
                self.spin_limit == was.spin_limit,
                self.ctx.generation == next(was.ctx.generation),
                self.ctx.defer_disabled == was.ctx.defer_disabled,
                self.ctx.graph.last_deleted == was.ctx.graph.last_deleted,
                self.ctx.graph.recalc_queues@.len() == was.ctx.graph.recalc_queues@.len(),
                same_needs(was.ctx.graph.nodes@, self.ctx.graph.nodes@),
                self.ctx.pending_stats.grown(was.ctx.pending_stats),
                was == *old(self),
                !was.busy() && !was.ctx.defer_disabled ==> *self == begun && begun.ctx.dirty_marks@.len() == 0,
                states.len() == extra_rounds + 2,
                total(self.ctx.pending_requests.model()) == 0 ==> quiet(self.ctx.graph.nodes@),
                states[0] == was.ctx,
                states.last() == self.ctx,
                Self::went_on(states, was.spin_limit),
            decreases MAX_EXTRA_ROUNDS - extra_rounds,
        {
            extra_rounds = extra_rounds + 1;
            let ghost before = self.ctx;
            self.ctx.update_dirty_marks();
            let ghost marked = self.ctx;
            assert(before.takes_marks(&marked));
            proof {
                before.lemma_stirred_needs(&self.ctx);
            }
            match self.stabilize_with_pending_queue() {
                Ok(()) => {
                    proof {
                        assert(marked.round(&self.ctx, was.spin_limit, Ok(())));
                        assert(before.refreshed(&self.ctx, false, was.spin_limit, Ok(())));
                        let earlier = states;
                        states = states.push(self.ctx);
                        assert forall|k: int| 0 <= k < states.len() - 1 implies #[trigger] Self::went_round(states, k, was.spin_limit) by {
                            if k < earlier.len() - 1 {
                                assert(Self::went_round(earlier, k, was.spin_limit));
                            }
                        }
                    }
                },
                Err(error) => {
                    assert(before.refreshed(&self.ctx, false, was.spin_limit, Err(error)));
                    return Err(error);
                },
            }
        }
        Ok(())
    }

    /// Whether the output of `token` can be read as things stand.
    pub open spec fn readable(&self, token: AnchorToken) -> bool {
        self.ctx.value(token) is Some
    }

    /// The output of a node that is up to date, if nothing is left to do.
    fn fast_path_ready_value(&self, anchor: &Anchor<V>) -> (out: Option<V>) where V: Clone
        requires
            self.ctx.settled(),
        ensures
            out is Some <==> !self.busy() && self.readable(anchor.token),
            out is Some ==> cloned(self.ctx.value(anchor.token)->0, out->0),
    {
        if self.has_pending_work() {
            return None;
        }
        proof {
            reveal(EngineContextMut::wf);
        }
        match self.ctx.graph.read(anchor.token) {
            Some(v) => Some(v.clone()),
            None => None,
        }
    }

    /// Each of `states` comes from the one before it by one more try to bring the node of `token` up to date, because
    /// the node could not be read.
    pub open spec fn tried_on(states: Seq<EngineContextMut<N, V>>, token: AnchorToken, spin_limit: usize) -> bool {
        forall|k: int| 0 <= k < states.len() - 1 ==> #[trigger] Self::tried(states, k, token, spin_limit)
    }

    /// There has been try `k`.
    pub open spec fn tried(states: Seq<EngineContextMut<N, V>>, k: int, token: AnchorToken, spin_limit: usize) -> bool {
        &&& states[k].value(token) is None
        &&& !(states[k].graph.nodes@[token as int].recalc_state is Ready)
        &&& states[k].pushed(&states[k + 1], token, spin_limit, Ok(()))
    }

    /// What becomes of the engine when the node of `token` is brought up to date, and what is read: there are tries as
    /// long as the node is not ready, but no more than four.
    pub open spec fn brought(&self, later: &Self, token: AnchorToken, out: Result<V, EngineError>) -> bool where V: Clone {
        &&& later.lock_strict == self.lock_strict
        &&& later.spin_limit == self.spin_limit
        &&& exists|states: Seq<EngineContextMut<N, V>>|
            {
                let tries = states.len() - 1;
                let last = states.last();
                &&& #[trigger] Self::tried_on(states, token, self.spin_limit)
                &&& 0 <= tries <= 4
                &&& states[0] == self.ctx
                &&& match out {
                    Ok(v) => {
                        &&& later.ctx == last
                        &&& later.readable(token)
                        &&& cloned(later.ctx.value(token)->0, v)
                    },
                    Err(EngineError::NotReady { token: which }) => {
                        &&& which == token
                        &&& later.ctx == last
                        &&& !later.readable(token)
                        &&& tries == 4 || last.graph.nodes@[token as int].recalc_state is Ready
                    },
                    Err(error) => {
                        &&& tries < 4
                        &&& last.value(token) is None
                        &&& !(last.graph.nodes@[token as int].recalc_state is Ready)
                        &&& last.pushed(&later.ctx, token, self.spin_limit, Err(error))
                    },
                }
            }
    }

    /// One stabilization and, if it went well, the read that follows it.
    pub open spec fn fetched(&self, later: &Self, token: AnchorToken, out: Result<V, EngineError>) -> bool where V: Clone {
        ||| exists|mid: Self| #[trigger] self.stabilized(&mid, Ok(())) && mid.brought(later, token, out)
        ||| exists|error: EngineError| #[trigger] self.stabilized(later, Err(error)) && out == Err::<V, EngineError>(error)
    }

    /// There has been read `k`, and work was left after it.
    pub open spec fn fetched_again(states: Seq<Self>, k: int, token: AnchorToken) -> bool where V: Clone {
        &&& states[k + 1].busy()
        &&& exists|v: V| #[trigger] states[k].fetched(&states[k + 1], token, Ok(v))
    }

    /// Each of `states` comes from the one before it by a read after which work was left.
    pub open spec fn fetched_on(states: Seq<Self>, token: AnchorToken) -> bool where V: Clone {
        forall|k: int| 0 <= k < states.len() - 1 ==> #[trigger] Self::fetched_again(states, k, token)
    }

    /// What a read makes of an engine, and what it gives: stabilizing and reading go on until no work is left, an error
    /// comes up, or there have been too many rounds.
    pub open spec fn got(&self, later: &Self, token: AnchorToken, out: Result<V, EngineError>) -> bool where V: Clone {
        exists|states: Seq<Self>|
            {
                let rounds = states.len() - 1;
                &&& #[trigger] Self::fetched_on(states, token)
                &&& 0 <= rounds <= MAX_STABLE_GET_ROUNDS
                &&& states[0] == *self
                &&& states.last().fetched(later, token, out)
                &&& out is Ok ==> !later.busy() || rounds == MAX_STABLE_GET_ROUNDS
            }
    }

    /// Brings the node of `token` up to date, and reads it.
    fn read_ready_output(&mut self, token: AnchorToken) -> (out: Result<V, EngineError>) where V: Clone
        requires
            old(self).ctx.settled(),
            alive(old(self).ctx.graph.nodes@, token),
        ensures
            final(self).ctx.settled(),
            old(self).ctx.same_fixed(&final(self).ctx),
            final(self).lock_strict == old(self).lock_strict,
            final(self).spin_limit == old(self).spin_limit,
            out is Ok ==> final(self).readable(token) && cloned(final(self).ctx.value(token)->0, out->Ok_0),
            out is Err ==> final(self).broke_off(out->Err_0) || out->Err_0 == (EngineError::NotReady { token }),
            out == Err::<V, EngineError>(EngineError::NotReady { token }) ==> !final(self).readable(token),
            old(self).readable(token) ==> out is Ok && *final(self) == *old(self),
            old(self).brought(final(self), token, out),
    {
        let ghost was = *self;
        let ghost mut states: Seq<EngineContextMut<N, V>> = seq![self.ctx];
        let mut retries: u8 = 0;
        proof {
            reveal(EngineContextMut::wf);
        }
        loop
            invariant
                was == *old(self),
                self.ctx.settled(),
                was.ctx.same_fixed(&self.ctx),
                self.lock_strict == was.lock_strict,
                self.spin_limit == was.spin_limit,
                retries <= 4,
                alive(self.ctx.graph.nodes@, token),
                was.readable(token) ==> *self == was,
                states.len() == retries + 1,
                states[0] == was.ctx,
                states.last() == self.ctx,
                Self::tried_on(states, token, was.spin_limit),
            decreases 5 - retries,
        {
            proof {
                reveal(EngineContextMut::wf);
            }
            match self.ctx.graph.read(token) {
                Some(v) => {
                    return Ok(v.clone());
                },
                None => {
                },
            }
            if self.ctx.graph.nodes[token].recalc_state == RecalcState::Ready || retries > 3 {
                return Err(EngineError::NotReady { token });
            }
            let ghost before = self.ctx;
            self.ctx.enqueue(token);
            let ghost queued = self.ctx;
            assert(before.enqueues(&queued, token));
            match self.stabilize_with_pending_queue() {
                Ok(()) => {
                    proof {
                        assert(queued.round(&self.ctx, was.spin_limit, Ok(())));
                        let earlier = states;
                        states = states.push(self.ctx);
                        assert forall|k: int| 0 <= k < states.len() - 1 implies #[trigger] Self::tried(states, k, token, was.spin_limit) by {
                            if k < earlier.len() - 1 {
                                assert(Self::tried(earlier, k, token, was.spin_limit));
                            }
                        }
                    }
                },
                Err(error) => {
                    assert(before.pushed(&self.ctx, token, was.spin_limit, Err(error)));
                    proof {
                        before.lemma_same_fixed_transitive(&queued, &self.ctx);
                        was.ctx.lemma_same_fixed_transitive(&before, &self.ctx);
                    }
                    return Err(error);
                },
            }
            proof {
                before.lemma_same_fixed_transitive(&queued, &self.ctx);
                was.ctx.lemma_same_fixed_transitive(&before, &self.ctx);
            }
            retries = retries + 1;
        }
    }

    /// The output of an anchor, brought up to date.
    pub fn get(&mut self, anchor: &Anchor<V>) -> (out: Result<V, EngineError>) where V: Clone
        requires
            old(self).ctx.settled(),
        ensures
            final(self).ctx.settled(),
            final(self).lock_strict == old(self).lock_strict,
            final(self).spin_limit == old(self).spin_limit,
            out == Err::<V, EngineError>(EngineError::Deleted { token: anchor.token }) <==> !alive(
                old(self).ctx.graph.nodes@,
                anchor.token,
            ),
            same_needs(old(self).ctx.graph.nodes@, final(self).ctx.graph.nodes@),
            final(self).ctx.pending_stats.grown(old(self).ctx.pending_stats),
            !alive(old(self).ctx.graph.nodes@, anchor.token) ==> *final(self) == *old(self),
            out is Ok ==> final(self).readable(anchor.token) && cloned(
                final(self).ctx.value(anchor.token)->0,
                out->Ok_0,
            ),
            out is Err ==> final(self).broke_off(out->Err_0) || out->Err_0 == (EngineError::NotReady {
                token: anchor.token,
            }) || out->Err_0 == (EngineError::Deleted { token: anchor.token }),
            out == Err::<V, EngineError>(EngineError::NotReady { token: anchor.token }) ==> !final(self).readable(anchor.token),
            alive(old(self).ctx.graph.nodes@, anchor.token) && !(!old(self).busy() && old(self).readable(anchor.token))
                ==> past(old(self).ctx.generation, final(self).ctx.generation) && old(self).got(final(self), anchor.token, out),
            !old(self).busy() && old(self).readable(anchor.token) ==> out is Ok && *final(self) == *old(self),
    {
        if !self.ctx.is_token_alive(anchor.token) {
            return Err(EngineError::Deleted { token: anchor.token });
        }
        match self.fast_path_ready_value(anchor) {
            Some(v) => {
                return Ok(v);
            },
            None => {
            },
        }
        self.slow_get(anchor.token)
    }

    fn slow_get(&mut self, token: AnchorToken) -> (out: Result<V, EngineError>) where V: Clone
        requires
            old(self).ctx.settled(),
            alive(old(self).ctx.graph.nodes@, token),
        ensures
            final(self).ctx.settled(),
            final(self).lock_strict == old(self).lock_strict,
            final(self).spin_limit == old(self).spin_limit,
            same_needs(old(self).ctx.graph.nodes@, final(self).ctx.graph.nodes@),
            final(self).ctx.pending_stats.grown(old(self).ctx.pending_stats),
            past(old(self).ctx.generation, final(self).ctx.generation),
            out is Ok ==> final(self).readable(token) && cloned(final(self).ctx.value(token)->0, out->Ok_0),
            out is Err ==> final(self).broke_off(out->Err_0) || out->Err_0 == (EngineError::NotReady { token }),
            out == Err::<V, EngineError>(EngineError::NotReady { token }) ==> !final(self).readable(token),
            old(self).got(final(self), token, out),
    {
        let ghost was = *self;
        let ghost mut states: Seq<Self> = seq![*self];
        let mut rounds: usize = 0;
        loop
            invariant
                was == *old(self),
                self.ctx.settled(),
                self.lock_strict == was.lock_strict,
                self.spin_limit == was.spin_limit,
                same_needs(was.ctx.graph.nodes@, self.ctx.graph.nodes@),
                self.ctx.pending_stats.grown(was.ctx.pending_stats),
                alive(self.ctx.graph.nodes@, token),
                rounds <= MAX_STABLE_GET_ROUNDS,
                rounds > 0 ==> past(was.ctx.generation, self.ctx.generation),
                rounds == 0 ==> self.ctx.generation == was.ctx.generation,
                states.len() == rounds + 1,
                states[0] == was,
                states.last() == *self,
                Self::fetched_on(states, token),
            decreases MAX_STABLE_GET_ROUNDS - rounds,
        {
            let ghost before = *self;
            match self.stabilize() {
                Ok(()) => {
                    assert(before.stabilized(self, Ok(())));
                },
                Err(error) => {
                    assert(before.stabilized(self, Err(error)));
                    assert(before.fetched(self, token, Err(error)));
                    return Err(error);
                },
            }
            let out = self.read_ready_output(token);
            assert(before.fetched(self, token, out));
            if out.is_err() {
                return out;
            }
            if !self.has_pending_work() || rounds >= MAX_STABLE_GET_ROUNDS {
                return out;
            }
            proof {
                let earlier = states;
                states = states.push(*self);
                assert(before.fetched(self, token, Ok(out->Ok_0)));
                assert forall|k: int| 0 <= k < states.len() - 1 implies #[trigger] Self::fetched_again(states, k, token) by {
                    if k < earlier.len() - 1 {
                        assert(Self::fetched_again(earlier, k, token));
                        let v = choose|v: V| #[trigger] earlier[k].fetched(&earlier[k + 1], token, Ok(v));
                        assert(states[k] == earlier[k] && states[k + 1] == earlier[k + 1]);
                        assert(states[k].fetched(&states[k + 1], token, Ok(v)));
                    } else {
                        assert(states[k] == before && states[k + 1] == *self);
                        assert(states[k].fetched(&states[k + 1], token, Ok(out->Ok_0)));
                    }
                }
            }
            rounds = rounds + 1;
        }
    }

    /// An engine with no anchors, whose nodes can stand at 256 heights.
    pub fn new() -> (engine: Self)
        ensures
            engine.ctx.settled(),
            !engine.busy(),
            engine.ctx.ledger@.lost == Set::<AnchorToken>::empty(),
            engine.ctx.ledger@.silent == Set::<AnchorToken>::empty(),
            engine.ctx.graph.nodes@.len() == 0,
            engine.ctx.graph.recalc_queues@.len() == 256,
            engine.ctx.graph.last_deleted is None,
            engine.ctx.pending_stats == AnchorsPendingStats::zero(),
            engine.lock_strict,
            engine.spin_limit == 0,
            !engine.ctx.defer_disabled,
    {
        Self::new_with_max_height(256)
    }

    /// An engine with no anchors, whose nodes can stand at `max_height` heights.
    pub fn new_with_max_height(max_height: usize) -> (engine: Self)
        ensures
            engine.ctx.settled(),
            !engine.busy(),
            engine.ctx.ledger@.lost == Set::<AnchorToken>::empty(),
            engine.ctx.ledger@.silent == Set::<AnchorToken>::empty(),
            engine.ctx.graph.nodes@.len() == 0,
            engine.ctx.graph.recalc_queues@.len() == max_height,
            engine.ctx.graph.last_deleted is None,
            engine.ctx.pending_stats == AnchorsPendingStats::zero(),
            engine.lock_strict,
            engine.spin_limit == 0,
            !engine.ctx.defer_disabled,
    {
        let mut recalc_queues: Vec<Vec<AnchorToken>> = Vec::new();
        while recalc_queues.len() < max_height
            invariant
                recalc_queues@.len() <= max_height,
                forall|h: int| 0 <= h < recalc_queues@.len() ==> (#[trigger] recalc_queues@[h])@.len() == 0,
            decreases max_height - recalc_queues@.len(),
        {
            recalc_queues.push(Vec::new());
        }
        let ctx = EngineContextMut {
            graph: Graph2 { nodes: Vec::new(), recalc_queues, last_deleted: None },
            dirty_marks: Vec::new(),
            generation: 0,
            pending_requests: PendingQueue::new(),
            pending_stats: AnchorsPendingStats::default(),
            invalid_token_log: TokenLog::new(),
            unexpected_pending_log: TokenLog::new(),
            defer_disabled: false,
            node: NOBODY,
            pending_on_anchor_get: false,
            invalid_token_requested: false,
            ledger: Ghost(
                Ledger {
                    outs: Map::empty(),
                    told: Map::empty(),
                    seen: Map::empty(),
                    calls: Seq::empty(),
                    lost: Set::empty(),
                    silent: Set::empty(),
                    refused: false,
                },
            ),
        };
        proof {
            reveal(EngineContextMut::wf);
            reveal(told_wf);
            reveal(seen_wf);
            reveal(outs_wf);
            reveal(steady);
            reveal(lawful);
            reveal(caught_up);
            reveal(calm);
            assert(links_wf(ctx.graph.nodes@));
        }
        Engine { ctx, lock_strict: true, spin_limit: 0 }
    }

    /// Puts an anchor into the graph, and returns a handle on it.
    pub fn mount(&mut self, inner: N) -> (anchor: Anchor<V>)
        requires
            old(self).ctx.settled(),
            old(self).ctx.graph.recalc_queues@.len() > 0,
            old(self).ctx.graph.nodes@.len() < usize::MAX,
            inner.inv(),
            inner.holds(Map::empty()),
        ensures
            final(self).ctx.settled(),
            anchor.token == old(self).ctx.graph.nodes@.len(),
            final(self).lock_strict == old(self).lock_strict,
            final(self).spin_limit == old(self).spin_limit,
            final(self).ctx.graph.nodes@.len() == old(self).ctx.graph.nodes@.len() + 1,
            forall|j: int|
                0 <= j < old(self).ctx.graph.nodes@.len() ==> #[trigger] final(self).ctx.graph.nodes@[j]
                    == old(self).ctx.graph.nodes@[j],
            fresh(final(self).ctx.graph.nodes@[anchor.token as int], inner),
            final(self).ctx.graph.recalc_queues == old(self).ctx.graph.recalc_queues,
            final(self).ctx.graph.last_deleted == old(self).ctx.graph.last_deleted,
            final(self).ctx == (EngineContextMut {
                graph: final(self).ctx.graph,
                ledger: final(self).ctx.ledger,
                ..old(self).ctx
            }),
            final(self).ctx.ledger@ == (Ledger {
                told: old(self).ctx.ledger@.told.insert(anchor.token, Map::empty()),
                seen: old(self).ctx.ledger@.seen.insert(anchor.token, Map::empty()),
                lost: old(self).ctx.ledger@.lost.remove(anchor.token),
                silent: old(self).ctx.ledger@.silent.remove(anchor.token),
                ..old(self).ctx.ledger@
            }),
    {
        let ghost was = self.ctx;
        let token: AnchorToken = self.ctx.graph.nodes.len();
        self.ctx.graph.nodes.push(
            Node {
                anchor: Some(inner),
                alive: true,
                observed: false,
                visited: false,
                necessary_count: 0,
                last_ready: None,
                last_update: None,
                anchor_locked: false,
                pending_recalc: false,
                pending_dirty: Vec::new(),
                recalc_retry: 0,
                recalc_state: RecalcState::NeedsRecalc,
                height: 0,
                clean_parents: Vec::new(),
                necessary_children: Vec::new(),
            },
        );
        self.ctx.ledger = Ghost(
            Ledger {
                told: self.ctx.ledger@.told.insert(token, Map::empty()),
                seen: self.ctx.ledger@.seen.insert(token, Map::empty()),
                lost: self.ctx.ledger@.lost.remove(token),
                silent: self.ctx.ledger@.silent.remove(token),
                ..self.ctx.ledger@
            },
        );
        proof {
            was.lemma_mounted(&self.ctx, token);
        }
        Anchor::new_from_expert(token)
    }
}

/// The node of an anchor that has just been mounted.
pub open spec fn fresh<N>(node: Node<N>, inner: N) -> bool {
    &&& node.anchor == Some(inner)
    &&& node.alive
    &&& !node.observed
    &&& !node.visited
    &&& node.necessary_count == 0
    &&& node.last_ready is None
    &&& node.last_update is None
    &&& !node.anchor_locked
    &&& !node.pending_recalc
    &&& node.pending_dirty@.len() == 0
    &&& node.recalc_retry == 0
    &&& node.recalc_state is NeedsRecalc
    &&& node.height == 0
    &&& node.clean_parents@.len() == 0
    &&& node.necessary_children@.len() == 0
}

impl<V, N: AnchorInner<EngineContextMut<N, V>, Output = V>> EngineContextMut<N, V> {
    proof fn lemma_mounted(&self, later: &Self, token: AnchorToken)
        requires
            self.settled(),
            self.graph.recalc_queues@.len() > 0,
            self.graph.nodes@.len() < usize::MAX,
            token == self.graph.nodes@.len(),
            later.graph.nodes@.len() == token + 1,
            later.graph.nodes@[token as int].anchor is Some,
            later.graph.nodes@[token as int].anchor->0.inv(),
            later.graph.nodes@[token as int].anchor->0.holds(Map::empty()),
            fresh(later.graph.nodes@[token as int], later.graph.nodes@[token as int].anchor->0),
            forall|j: int| 0 <= j < token ==> #[trigger] later.graph.nodes@[j] == self.graph.nodes@[j],
            later.graph.recalc_queues == self.graph.recalc_queues,
            *later == (EngineContextMut { graph: later.graph, ledger: later.ledger, ..*self }),
            later.ledger@ == (Ledger {
                told: self.ledger@.told.insert(token, Map::empty()),
                seen: self.ledger@.seen.insert(token, Map::empty()),
                lost: self.ledger@.lost.remove(token),
                silent: self.ledger@.silent.remove(token),
                ..self.ledger@
            }),
        ensures
            later.settled(),
    {
        reveal(EngineContextMut::wf);
        reveal(told_wf);
        reveal(seen_wf);
        reveal(steady);
        reveal(lawful);
        reveal(caught_up);
        reveal(calm);
        let a = self.graph.nodes@;
        let b = later.graph.nodes@;
        let queues = self.graph.recalc_queues@;
        assert forall|c: int| 0 <= c < a.len() implies #[trigger] necessary_parents(b, c) == necessary_parents(a, c) by {
            assert(necessary_parents(b, c) =~= necessary_parents(a, c)) by {
                assert forall|p: int| necessary_parents(b, c).contains(p) <==> necessary_parents(a, c).contains(p) by {
                    if 0 <= p < a.len() {
                        assert(b[p] == a[p]);
                    }
                }
            }
        }
        assert(necessary_parents(b, token as int) =~= Set::empty()) by {
            assert forall|p: int| !necessary_parents(b, token as int).contains(p) by {
                if 0 <= p < a.len() {
                    assert(b[p] == a[p]);
                    assert(in_range(a[p].necessary_children@, a.len()));
                }
            }
        }
        assert forall|i: int| 0 <= i < b.len() implies {
            &&& in_range((#[trigger] b[i]).clean_parents@, b.len())
            &&& in_range(b[i].necessary_children@, b.len())
            &&& in_range(b[i].pending_dirty@, b.len())
            &&& b[i].clean_parents@.no_duplicates()
            &&& !lists(b[i].clean_parents@, i)
            &&& b[i].necessary_children@.no_duplicates()
            &&& b[i].necessary_count == necessary_parents(b, i).len()
        } by {
            if i < a.len() {
                assert(in_range(a[i].clean_parents@, a.len()));
                assert(b[i] == a[i]);
            }
        }
        assert forall|i: int| 0 <= i < b.len() implies (#[trigger] b[i]).height < queues.len() && (b[i].recalc_state is Pending ==> queued(queues, i)) by {
            if i < a.len() {
                assert(a[i].height < queues.len());
            }
        }
        assert forall|h: int, k: int| #[trigger] at(queues, h, k) implies queues[h]@[k] < b.len() && b[queues[h]@[k] as int].recalc_state is Pending by {
            assert(a[queues[h]@[k] as int].recalc_state is Pending);
        }
        assert forall|i: int| 0 <= i < b.len() implies #[trigger] tidy_at(b, i) by {
            if i < a.len() {
                assert(tidy_at(a, i));
            }
        }
        if ordered(a) {
            assert forall|c: int, k: int| 0 <= c < b.len() && 0 <= k < b[c].clean_parents@.len() && !b[c].visited implies b[c].height < b[(#[trigger] b[c].clean_parents@[k]) as int].height by {
                let p = a[c].clean_parents@[k];
                assert(b[c].clean_parents@[k] == p);
                assert(in_range(a[c].clean_parents@, a.len()));
                assert(p < a.len());
                assert(a[c].height < a[p as int].height);
                assert(b[p as int].height == a[p as int].height);
            }
        }
        assert forall|i: int| 0 <= i < b.len() && ((#[trigger] b[i]).last_ready is Some || b[i].last_update is Some) implies later.ledger@.outs.contains_key(i as usize) by {
            assert(a[i].last_ready is Some || a[i].last_update is Some);
        }
        assert(!self.ledger@.outs.contains_key(token));
        lemma_outs_less(a, b, self.ledger@.outs);
        assert forall|j: AnchorToken, d: AnchorToken| #![trigger later.ledger@.told[j].contains_key(d)] j < b.len() && later.ledger@.told[j].contains_key(d) implies j < a.len() && self.ledger@.told[j].contains_key(d) && d < a.len() by {
            if j < a.len() {
                assert(self.ledger@.told[j].contains_key(d));
            }
        }
        assert forall|j: AnchorToken, d: AnchorToken| #![trigger later.ledger@.seen[j].contains_key(d)] j < b.len() && later.ledger@.seen[j].contains_key(d) implies j < a.len() && self.ledger@.seen[j].contains_key(d) by {
            if j < a.len() {
                assert(self.ledger@.seen[j].contains_key(d));
            }
        }
        assert forall|j: AnchorToken, d: AnchorToken| #![trigger later.ledger@.seen[j].contains_key(d)] j < b.len() && !later.ledger@.lost.contains(j) && later.ledger@.seen[j].contains_key(d) implies !outrun(b, later.ledger@, j, d) by {
            assert(self.ledger@.seen[j].contains_key(d));
            assert(!outrun(a, self.ledger@, j, d));
        }
        assert forall|k: int| 0 <= k < b.len() && k != -1 && (#[trigger] b[k]).anchor is Some && !later.ledger@.lost.contains(k as usize) implies node_lawful(
            b[k],
            later.ledger@.told[k as usize],
            later.ledger@.seen[k as usize],
            lists(later.dirty_marks@, k),
        ) by {
            if k < a.len() {
                assert(a[k] == b[k]);
            }
        }
    }
}

} // verus!
