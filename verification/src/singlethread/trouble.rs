//! How nodes come into trouble.

use crate::expert::{AnchorInner, AnchorToken, Call, Poll};
use crate::singlethread::context::{alive, display, reading, told_wf, EngineContextMut, Ledger};
use crate::singlethread::engine::Engine;
use crate::singlethread::pending::{in_order, total, PendingRequest};
use crate::singlethread::recalc::{EngineError, Recalculation};
use crate::singlethread::stabilize::{outrun, quiet, NOBODY};
use vstd::prelude::*;

verus! {

/// A step that brings a node into trouble.
pub ghost enum Cause<N, V> {
    /// A node was recalculated.
    Poll {
        before: EngineContextMut<N, V>,
        after: EngineContextMut<N, V>,
        node: AnchorToken,
        done: Result<bool, EngineError>,
        by: Recalculation<N, V>,
    },
    /// A request was made again that had been put down.
    Retry { before: EngineContextMut<N, V>, after: EngineContextMut<N, V>, request: PendingRequest, poll: Poll },
    /// Work broke off with an error.
    Break { before: EngineContextMut<N, V>, failed: Option<AnchorToken> },
}

/// In the poll `by` of node `i`, one of its calls asked for a node that was gone, or for one that the node cannot stand
/// above, or was not told of a change.
pub open spec fn asked_in_vain<V, N: AnchorInner<EngineContextMut<N, V>, Output = V>>(by: Recalculation<N, V>, i: AnchorToken) -> bool {
    exists|x: EngineContextMut<N, V>, y: EngineContextMut<N, V>, call: Call|
        {
            &&& by.entered.called_on(&x)
            &&& #[trigger] x.called(&y, call)
            &&& y.called_on(&by.now)
            &&& x.node == i
            &&& x.troubled(call)
        }
}

impl<V, N: AnchorInner<EngineContextMut<N, V>, Output = V>> Cause<N, V> {
    /// The step brings node `d` into trouble. A poll does so to the polled node if it asked in vain, if it had not been told
    /// of a change of what it was given, or if it was frozen; and to any node whose output is read differently after it
    /// without an announcement. A request that is made again does so to the node it is made for, if that cannot stand above
    /// what it asks for. An error does so to the node that failed, and to those that were not recalculated after a change.
    pub open spec fn brings(self, d: AnchorToken) -> bool {
        match self {
            Cause::Poll { before, after, node, done, by } => {
                &&& before.recalculated_by(&after, node, done, by)
                &&& {
                    ||| d == node && asked_in_vain(by, node)
                    ||| d == node && !before.ledger@.told[node].submap_of(before.ledger@.outs)
                    ||| d == node && !by.poll.ready() && done == Ok::<bool, EngineError>(true)
                    ||| by.now.differs(by.settled.graph.nodes@, d) && !(d == node && by.poll is Updated)
                }
            },
            Cause::Retry { before, after, request, poll } => {
                &&& before.retried(&after, request)
                &&& before.asking(request.parent).refuses(request.child, poll)
                &&& d == request.parent
            },
            Cause::Break { before, failed } => failed == Some(d) || exists|e: AnchorToken| #[trigger]
                outrun(before.graph.nodes@, before.ledger@, d, e),
        }
    }
}

impl<V, N: AnchorInner<EngineContextMut<N, V>, Output = V>> EngineContextMut<N, V> {
    /// A node that is troubled only after a recalculation was brought into trouble by it.
    pub proof fn recalculating_troubles(&self, later: &Self, i: AnchorToken, done: Result<bool, EngineError>, d: AnchorToken) -> (cause: Cause<N, V>)
        requires
            self.recalculated(later, i, done),
            !self.ledger@.troubled(d),
            later.ledger@.troubled(d),
        ensures
            cause is Poll,
            cause.brings(d),
    {
        let by = choose|by: Recalculation<N, V>| #[trigger] self.recalculated_by(later, i, done, by);
        let cause = Cause::Poll { before: *self, after: *later, node: i, done, by };
        let now = by.now;
        let entered = by.entered;
        if by.now.differs(by.settled.graph.nodes@, d) && !(d == i && by.poll is Updated) {
        } else {
            assert(!later.ledger@.silent.contains(d));
            assert(d == i);
            if now.ledger@.lost.contains(i) {
                let trouble = entered.trouble_has_a_call(&now);
                assert(trouble.0.called(&trouble.1, trouble.2));
                assert(asked_in_vain(by, i));
            } else if !now.ledger@.impaired(i) {
                if !by.poll.ready() {
                    assert(now.stands_by(i, by.answering));
                }
            } else if entered.ledger@.told[i].submap_of(entered.ledger@.outs) {
                assert(now.ledger@.told[i].submap_of(now.ledger@.outs)) by {
                    assert forall|e: AnchorToken| #[trigger] now.ledger@.told[i].dom().contains(e) implies now.ledger@.outs.dom().contains(e) && now.ledger@.told[i][e] == now.ledger@.outs[e] by {
                        if entered.ledger@.told[i].contains_key(e) {
                            assert(entered.ledger@.told[i].dom().contains(e));
                        } else {
                            assert(now.ledger@.told[i].contains_key(e));
                        }
                    }
                }
            }
        }
        cause
    }

    /// An anchor that answers `Unchanged` only where its output is the one it had keeps no change to itself.
    pub proof fn honest_anchors_announce(&self, later: &Self, i: AnchorToken, done: Result<bool, EngineError>, by: Recalculation<N, V>)
        requires
            self.recalculated_by(later, i, done, by),
            self.graph.nodes@[i as int].last_ready is Some,
            i < self.graph.nodes@.len(),
            by.answering.honest(),
            by.poll is Unchanged,
        ensures
            !by.now.differs(by.settled.graph.nodes@, i),
    {
        let nodes = by.settled.graph.nodes@;
        assert(by.now.graph.nodes@[i as int].last_ready is Some);
        if display(nodes, i) is Some {
            let fuel = choose|fuel: nat| #[trigger] reading(nodes, i, fuel) is Some;
            assert(reading(nodes, i, fuel) == Some(by.answering.own()));
        }
    }

    /// A node that has completed a poll can be relied upon just if its anchor is sound, and right, for what it was told,
    /// whatever was the matter before; and one that announces a change has kept none to itself.
    pub proof fn trouble_ends(&self, later: &Self, i: AnchorToken, done: Result<bool, EngineError>, by: Recalculation<N, V>)
        requires
            self.recalculated_by(later, i, done, by),
            by.poll.ready(),
        ensures
            later.ledger@.lost.contains(i) <==> !by.now.answers_for(i, by.answering),
            by.poll is Updated ==> !later.ledger@.silent.contains(i),
    {
    }

    /// A node that has completed a poll, and can be relied upon, has been given nothing but what its output was calculated
    /// from: what it chose before, and no longer does, can be removed without harm to it.
    pub proof fn former_inputs_are_forgotten(
        &self,
        later: &Self,
        i: AnchorToken,
        done: Result<bool, EngineError>,
        by: Recalculation<N, V>,
        d: AnchorToken,
    )
        requires
            self.recalculated_by(later, i, done, by),
            by.poll.ready(),
            !later.ledger@.lost.contains(i),
            !by.answering.leans_on(by.now.ledger@.told[i], d),
        ensures
            !later.ledger@.told[i].contains_key(d),
            !later.ledger@.without(d).lost.contains(i),
    {
    }

    proof fn lemma_turn_troubles(&self, later: &Self, done: Result<bool, EngineError>, d: AnchorToken) -> (cause: Cause<N, V>)
        requires
            self.turn(later, done),
            !self.ledger@.troubled(d),
            later.ledger@.troubled(d),
        ensures
            cause.brings(d),
            done is Ok ==> !(cause is Break),
    {
        let (taken, worked, height, i) = choose|taken: Self, worked: Self, height: usize, i: AnchorToken|
            {
                &&& #[trigger] self.takes(&taken, height, i)
                &&& #[trigger] taken.works(&worked, height, i, done)
                &&& match done {
                    Ok(true) => *later == (EngineContextMut { node: NOBODY, ..worked }),
                    Ok(false) => worked.requeued(later),
                    Err(_) => {
                        &&& *later == (EngineContextMut { node: NOBODY, ledger: later.ledger, ..worked })
                        &&& later.ledger@ == worked.broken(Some(i))
                    },
                }
            };
        if worked.ledger@.troubled(d) {
            taken.recalculating_troubles(&worked, i, done, d)
        } else {
            let cause = Cause::Break { before: worked, failed: Some(i) };
            if i != d {
                let e = choose|e: AnchorToken| #[trigger]
                    worked.ledger@.seen[d].contains_key(e) && outrun(worked.graph.nodes@, worked.ledger@, d, e);
                assert(outrun(worked.graph.nodes@, worked.ledger@, d, e));
            }
            cause
        }
    }

    proof fn lemma_turns_trouble(states: Seq<Self>, n: int, d: AnchorToken) -> (cause: Cause<N, V>)
        requires
            Self::turns(states),
            0 <= n < states.len(),
            !states[0].ledger@.troubled(d),
            states[n].ledger@.troubled(d),
        ensures
            cause.brings(d),
            !(cause is Break),
        decreases n,
    {
        let k = n - 1;
        if states[k].ledger@.troubled(d) {
            Self::lemma_turns_trouble(states, k, d)
        } else {
            assert(Self::turned(states, k));
            if states[k].turn(&states[k + 1], Ok(true)) {
                states[k].lemma_turn_troubles(&states[k + 1], Ok(true), d)
            } else {
                states[k].lemma_turn_troubles(&states[k + 1], Ok(false), d)
            }
        }
    }

    proof fn lemma_run_troubles(&self, later: &Self, spin_limit: usize, done: Result<(), EngineError>, d: AnchorToken) -> (cause: Cause<N, V>)
        requires
            self.ran(later, spin_limit, done),
            !self.ledger@.troubled(d),
            later.ledger@.troubled(d),
        ensures
            cause.brings(d),
            done is Ok ==> !(cause is Break),
    {
        let limit = if spin_limit > 0 {
            spin_limit as int
        } else {
            u64::MAX as int
        };
        let states = choose|states: Seq<Self>|
            {
                &&& #[trigger] Self::turns(states)
                &&& 0 < states.len() <= limit + 1
                &&& states[0] == *self
                &&& match done {
                    Ok(_) => *later == states.last() && quiet(later.graph.nodes@),
                    Err(EngineError::Spinning) => {
                        &&& states.len() == limit + 1
                        &&& !quiet(later.graph.nodes@)
                        &&& *later == (EngineContextMut { graph: later.graph, ledger: later.ledger, ..states.last() })
                        &&& later.graph.nodes@ == states.last().graph.nodes@
                        &&& later.ledger@ == states.last().broken(None)
                    },
                    Err(error) => states.last().turn(later, Err(error)),
                }
            };
        let last = states.last();
        if last.ledger@.troubled(d) {
            Self::lemma_turns_trouble(states, states.len() - 1, d)
        } else {
            match done {
                Err(EngineError::Spinning) => {
                    let e = choose|e: AnchorToken| #[trigger]
                        last.ledger@.seen[d].contains_key(e) && outrun(last.graph.nodes@, last.ledger@, d, e);
                    assert(outrun(last.graph.nodes@, last.ledger@, d, e));
                    Cause::Break { before: last, failed: None }
                },
                Err(error) => last.lemma_turn_troubles(later, Err(error), d),
                Ok(_) => arbitrary(),
            }
        }
    }

    proof fn lemma_retries_trouble(states: Seq<Self>, requests: Seq<PendingRequest>, n: int, d: AnchorToken) -> (cause: Cause<N, V>)
        requires
            Self::retries(states, requests),
            0 <= n < states.len(),
            !states[0].ledger@.troubled(d),
            states[n].ledger@.troubled(d),
        ensures
            cause.brings(d),
            !(cause is Break),
        decreases n,
    {
        let k = n - 1;
        if states[k].ledger@.troubled(d) {
            Self::lemma_retries_trouble(states, requests, k, d)
        } else {
            let before = states[k];
            let after = states[k + 1];
            let request = requests[k];
            assert(before.retried(&after, request));
            assert(alive(before.graph.nodes@, request.parent) && alive(before.graph.nodes@, request.child));
            let (made, poll) = choose|made: Self, poll: Poll|
                #![trigger before.asking(request.parent).answered(&made, request.child, request.necessary, poll)]
                {
                    &&& before.asking(request.parent).answered(&made, request.child, request.necessary, poll)
                    &&& after.ledger@.silent == before.ledger@.silent
                    &&& after.ledger@.lost == (if before.asking(request.parent).refuses(request.child, poll) {
                        before.ledger@.lost.insert(request.parent)
                    } else {
                        before.ledger@.lost
                    })
                };
            Cause::Retry { before, after, request, poll }
        }
    }

    proof fn lemma_round_troubles(&self, later: &Self, spin_limit: usize, done: Result<(), EngineError>, d: AnchorToken) -> (cause: Cause<N, V>)
        requires
            self.round(later, spin_limit, done),
            !self.ledger@.troubled(d),
            later.ledger@.troubled(d),
        ensures
            cause.brings(d),
            done is Ok ==> !(cause is Break),
    {
        if done is Ok {
            let mid = choose|mid: Self| #[trigger] self.ran(&mid, spin_limit, Ok(())) && mid.drains(later);
            if mid.ledger@.troubled(d) {
                self.lemma_run_troubles(&mid, spin_limit, Ok(()), d)
            } else {
                let requests = in_order(mid.pending_requests.model());
                assert(!mid.defer_disabled && total(mid.pending_requests.model()) > 0);
                let states = choose|states: Seq<Self>|
                    {
                        &&& #[trigger] Self::retries(states, requests)
                        &&& states[0].ledger == mid.ledger
                        &&& later.ledger == states.last().ledger
                    };
                Self::lemma_retries_trouble(states, requests, states.len() - 1, d)
            }
        } else {
            self.lemma_run_troubles(later, spin_limit, done, d)
        }
    }

    proof fn lemma_refresh_troubles(&self, later: &Self, first: bool, spin_limit: usize, done: Result<(), EngineError>, d: AnchorToken) -> (cause: Cause<N, V>)
        requires
            self.refreshed(later, first, spin_limit, done),
            !self.ledger@.troubled(d),
            later.ledger@.troubled(d),
        ensures
            cause.brings(d),
            done is Ok ==> !(cause is Break),
    {
        let (marked, begun) = choose|marked: Self, begun: Self|
            {
                &&& #[trigger] self.takes_marks(&marked)
                &&& begun.ledger == marked.ledger
                &&& #[trigger] begun.round(later, spin_limit, done)
            };
        begun.lemma_round_troubles(later, spin_limit, done, d)
    }

    proof fn lemma_push_troubles(&self, later: &Self, i: AnchorToken, spin_limit: usize, done: Result<(), EngineError>, d: AnchorToken) -> (cause: Cause<N, V>)
        requires
            self.pushed(later, i, spin_limit, done),
            !self.ledger@.troubled(d),
            later.ledger@.troubled(d),
        ensures
            cause.brings(d),
            done is Ok ==> !(cause is Break),
    {
        let queued = choose|queued: Self| #[trigger] self.enqueues(&queued, i) && queued.round(later, spin_limit, done);
        queued.lemma_round_troubles(later, spin_limit, done, d)
    }
}

/// Removing a node does no harm to a node that was not calculated from it.
pub proof fn removing_harms_only_what_leans_on_it<V>(ledger: Ledger<V>, token: AnchorToken, i: AnchorToken)
    requires
        !ledger.troubled_below(i),
        !ledger.calculated_from(i, token),
    ensures
        !ledger.without(token).troubled_below(i),
{
    let (nodes, rank) = choose|nodes: Set<AnchorToken>, rank: spec_fn(AnchorToken) -> nat| #[trigger] ledger.based(i, nodes, rank);
    let among = Set::new(|d: AnchorToken| nodes.contains(d) && ledger.calculated_from(i, d));
    let later = ledger.without(token);
    assert(ledger.calculated_from(i, i)) by {
        let path = seq![i];
        assert(ledger.leads(path) && path[0] == i && path.last() == i);
    }
    assert forall|j: AnchorToken, d: AnchorToken| #[trigger] ledger.told[j].contains_key(d) && ledger.calculated_from(i, j) implies ledger.calculated_from(i, d) by {
        let path = choose|path: Seq<AnchorToken>| #[trigger] ledger.leads(path) && path.len() > 0 && path[0] == i && path.last() == j;
        let more = path.push(d);
        assert(ledger.leads(more)) by {
            assert forall|k: int| 0 <= k < more.len() - 1 implies #[trigger] ledger.given_at(more, k) by {
                if k < path.len() - 1 {
                    assert(ledger.given_at(path, k));
                }
            }
        }
        assert(more[0] == i && more.last() == d);
    }
    assert forall|j: AnchorToken| #[trigger] among.contains(j) implies !later.troubled(j) by {
        assert(!ledger.troubled(j));
        assert(!ledger.told[j].contains_key(token));
    }
    assert forall|j: AnchorToken, d: AnchorToken| #[trigger] later.told[j].contains_key(d) implies ledger.told[j].contains_key(d) by {
    }
    assert(!ledger.told[i].contains_key(token));
    assert(later.grounded(among, rank));
    assert(later.based(i, among, rank));
}

impl<V, N: AnchorInner<EngineContextMut<N, V>, Output = V>> Engine<N, V> {
    /// Unless some request closed a cycle, trouble below a node is the trouble of a node that it was calculated from, or its
    /// own.
    pub proof fn trouble_lies_below(&self, i: AnchorToken) -> (d: AnchorToken)
        requires
            self.ctx.settled(),
            !self.ctx.ledger@.refused,
            i < self.ctx.graph.nodes@.len(),
            self.ctx.ledger@.troubled_below(i),
        ensures
            self.ctx.ledger@.calculated_from(i, d),
            self.ctx.ledger@.troubled(d),
            d == i ==> self.ctx.ledger@.lost.contains(i),
    {
        reveal(EngineContextMut::wf);
        reveal(told_wf);
        let ledger = self.ctx.ledger@;
        let nodes = self.ctx.graph.nodes@;
        let among = Set::new(|d: AnchorToken| d < nodes.len() && d != i && ledger.calculated_from(i, d));
        let rank = |d: AnchorToken| nodes[d as int].height as nat;
        assert(ledger.calculated_from(i, i)) by {
            let path = seq![i];
            assert(ledger.leads(path) && path[0] == i && path.last() == i);
        }
        assert forall|j: AnchorToken, d: AnchorToken| #[trigger] ledger.told[j].contains_key(d) && (among.contains(j) || j == i) implies among.contains(d) && rank(d) < rank(j) by {
            let path = choose|path: Seq<AnchorToken>| #[trigger] ledger.leads(path) && path.len() > 0 && path[0] == i && path.last() == j;
            let more = path.push(d);
            assert(ledger.leads(more)) by {
                assert forall|k: int| 0 <= k < more.len() - 1 implies #[trigger] ledger.given_at(more, k) by {
                    if k < path.len() - 1 {
                        assert(ledger.given_at(path, k));
                    }
                }
            }
            assert(more[0] == i && more.last() == d);
            let parents = nodes[d as int].clean_parents@;
            let k = choose|k: int| 0 <= k < parents.len() && #[trigger] parents[k] == j;
            assert(nodes[d as int].clean_parents@[k] == j);
            self.lemma_lower(i, more);
        }
        if !ledger.lost.contains(i) && (forall|d: AnchorToken| #[trigger] among.contains(d) ==> !ledger.troubled(d)) {
            assert(ledger.grounded(among, rank));
            assert(ledger.based(i, among, rank));
        }
        if ledger.lost.contains(i) {
            i
        } else {
            choose|d: AnchorToken| #[trigger] among.contains(d) && ledger.troubled(d)
        }
    }

    /// What a node was calculated from, through others or not, stands below it.
    proof fn lemma_lower(&self, i: AnchorToken, path: Seq<AnchorToken>)
        requires
            self.ctx.settled(),
            !self.ctx.ledger@.refused,
            i < self.ctx.graph.nodes@.len(),
            self.ctx.ledger@.leads(path),
            path.len() > 1,
            path[0] == i,
        ensures
            path.last() < self.ctx.graph.nodes@.len(),
            self.ctx.graph.nodes@[path.last() as int].height < self.ctx.graph.nodes@[i as int].height,
        decreases path.len(),
    {
        reveal(EngineContextMut::wf);
        reveal(told_wf);
        let ledger = self.ctx.ledger@;
        let nodes = self.ctx.graph.nodes@;
        let n = path.len() - 2;
        let j = path[n];
        let d = path[n + 1];
        if n > 0 {
            let fewer = path.drop_last();
            assert forall|k: int| 0 <= k < fewer.len() - 1 implies #[trigger] ledger.given_at(fewer, k) by {
                assert(ledger.given_at(path, k));
            }
            self.lemma_lower(i, fewer);
        }
        assert(ledger.given_at(path, n));
        let parents = nodes[d as int].clean_parents@;
        let k = choose|k: int| 0 <= k < parents.len() && #[trigger] parents[k] == j;
        assert(nodes[d as int].clean_parents@[k] == j);
    }

    proof fn lemma_rounds_trouble(states: Seq<EngineContextMut<N, V>>, n: int, spin_limit: usize, d: AnchorToken) -> (cause: Cause<N, V>)
        requires
            Self::went_on(states, spin_limit),
            0 <= n < states.len(),
            !states[0].ledger@.troubled(d),
            states[n].ledger@.troubled(d),
        ensures
            cause.brings(d),
            !(cause is Break),
        decreases n,
    {
        let k = n - 1;
        if states[k].ledger@.troubled(d) {
            Self::lemma_rounds_trouble(states, k, spin_limit, d)
        } else {
            assert(Self::went_round(states, k, spin_limit));
            states[k].lemma_refresh_troubles(&states[k + 1], k == 0, spin_limit, Ok(()), d)
        }
    }

    /// A node that is troubled only after a stabilization was brought into trouble by a step of it. Unless the stabilization
    /// ended with an error, that is a poll which asked for a node that is gone, or closed a cycle, or was not told of a
    /// change, or was frozen, or kept a change to itself, or a request that was made again and closed a cycle.
    pub proof fn stabilizing_troubles(&self, later: &Self, done: Result<(), EngineError>, d: AnchorToken) -> (cause: Cause<N, V>)
        requires
            self.stabilized(later, done),
            !self.ctx.ledger@.troubled(d),
            later.ctx.ledger@.troubled(d),
        ensures
            cause.brings(d),
            done is Ok ==> !(cause is Break),
    {
        let states = choose|states: Seq<EngineContextMut<N, V>>|
            {
                let rounds = states.len() - 1;
                &&& #[trigger] Self::went_on(states, self.spin_limit)
                &&& states[0] == self.ctx
                &&& match done {
                    Ok(_) => 1 <= rounds && later.ctx == states.last(),
                    Err(error) => 0 <= rounds && states.last().refreshed(&later.ctx, rounds == 0, self.spin_limit, Err(error)),
                }
            };
        let rounds = states.len() - 1;
        if states.last().ledger@.troubled(d) {
            Self::lemma_rounds_trouble(states, rounds, self.spin_limit, d)
        } else {
            states.last().lemma_refresh_troubles(&later.ctx, rounds == 0, self.spin_limit, done, d)
        }
    }

    proof fn lemma_tries_trouble(states: Seq<EngineContextMut<N, V>>, n: int, token: AnchorToken, spin_limit: usize, d: AnchorToken) -> (cause: Cause<N, V>)
        requires
            Self::tried_on(states, token, spin_limit),
            0 <= n < states.len(),
            !states[0].ledger@.troubled(d),
            states[n].ledger@.troubled(d),
        ensures
            cause.brings(d),
            !(cause is Break),
        decreases n,
    {
        let k = n - 1;
        if states[k].ledger@.troubled(d) {
            Self::lemma_tries_trouble(states, k, token, spin_limit, d)
        } else {
            assert(Self::tried(states, k, token, spin_limit));
            states[k].lemma_push_troubles(&states[k + 1], token, spin_limit, Ok(()), d)
        }
    }

    proof fn lemma_fetch_troubles(&self, later: &Self, token: AnchorToken, out: Result<V, EngineError>, d: AnchorToken) -> (cause: Cause<N, V>) where V: Clone
        requires
            self.fetched(later, token, out),
            !self.ctx.ledger@.troubled(d),
            later.ctx.ledger@.troubled(d),
        ensures
            cause.brings(d),
            out is Ok ==> !(cause is Break),
    {
        if exists|mid: Self| #[trigger] self.stabilized(&mid, Ok(())) && mid.brought(later, token, out) {
            let mid = choose|mid: Self| #[trigger] self.stabilized(&mid, Ok(())) && mid.brought(later, token, out);
            if mid.ctx.ledger@.troubled(d) {
                self.stabilizing_troubles(&mid, Ok(()), d)
            } else {
                let states = choose|states: Seq<EngineContextMut<N, V>>|
                    {
                        let last = states.last();
                        &&& #[trigger] Self::tried_on(states, token, mid.spin_limit)
                        &&& 0 < states.len()
                        &&& states[0] == mid.ctx
                        &&& match out {
                            Ok(v) => later.ctx == last,
                            Err(EngineError::NotReady { token: which }) => later.ctx == last,
                            Err(error) => last.pushed(&later.ctx, token, mid.spin_limit, Err(error)),
                        }
                    };
                if states.last().ledger@.troubled(d) {
                    Self::lemma_tries_trouble(states, states.len() - 1, token, mid.spin_limit, d)
                } else {
                    states.last().lemma_push_troubles(&later.ctx, token, mid.spin_limit, Err(out->Err_0), d)
                }
            }
        } else {
            let error = choose|error: EngineError| #[trigger] self.stabilized(later, Err(error)) && out == Err::<V, EngineError>(error);
            self.stabilizing_troubles(later, Err(error), d)
        }
    }

    proof fn lemma_fetches_trouble(states: Seq<Self>, n: int, token: AnchorToken, d: AnchorToken) -> (cause: Cause<N, V>) where V: Clone
        requires
            Self::fetched_on(states, token),
            0 <= n < states.len(),
            !states[0].ctx.ledger@.troubled(d),
            states[n].ctx.ledger@.troubled(d),
        ensures
            cause.brings(d),
            !(cause is Break),
        decreases n,
    {
        let k = n - 1;
        if states[k].ctx.ledger@.troubled(d) {
            Self::lemma_fetches_trouble(states, k, token, d)
        } else {
            assert(Self::fetched_again(states, k, token));
            let v = choose|v: V| #[trigger] states[k].fetched(&states[k + 1], token, Ok(v));
            states[k].lemma_fetch_troubles(&states[k + 1], token, Ok(v), d)
        }
    }

    /// A node that is troubled only after a read was brought into trouble by a step of it; where the read gave an output,
    /// not by an error.
    pub proof fn getting_troubles(&self, later: &Self, token: AnchorToken, out: Result<V, EngineError>, d: AnchorToken) -> (cause: Cause<N, V>) where V: Clone
        requires
            self.got(later, token, out),
            !self.ctx.ledger@.troubled(d),
            later.ctx.ledger@.troubled(d),
        ensures
            cause.brings(d),
            out is Ok ==> !(cause is Break),
    {
        let states = choose|states: Seq<Self>|
            {
                &&& #[trigger] Self::fetched_on(states, token)
                &&& 0 < states.len()
                &&& states[0] == *self
                &&& states.last().fetched(later, token, out)
            };
        if states.last().ctx.ledger@.troubled(d) {
            Self::lemma_fetches_trouble(states, states.len() - 1, token, d)
        } else {
            states.last().lemma_fetch_troubles(later, token, out, d)
        }
    }
}

} // verus!
