//! What else an engine offers: observing nodes, setting variables, removing anchors, and figures.

use crate::expert::{Anchor, AnchorInner, AnchorToken, AsVar, UpdateContext, VarInner};
use crate::singlethread::context::{
    alive, check_observed_raw, freshness, lemma_outs_less, observed_state, seen_wf, shows_less, steady, told_wf, EngineContextMut,
    Ledger, ObservedState,
};
use crate::singlethread::engine::Engine;
use crate::singlethread::graph2::{
    lemma_same_links, lemma_same_states, lists, released, tidy_at, unneeded, Graph2, Node, RecalcState,
};
use crate::singlethread::recalc::{caught_up, lawful, lemma_ordered_same, node_lawful, same_needs, EngineError};
use crate::singlethread::stabilize::{calm, outrun, past};
use crate::singlethread::stats::{AnchorsMetrics, AnchorsPendingStats, TokenAudit};
use vstd::prelude::*;

verus! {

/// `b` is `a` but for which nodes are observed and which keep which necessary, and for nodes that
/// are queued.
pub open spec fn reappraised<N>(a: Seq<Node<N>>, b: Seq<Node<N>>) -> bool {
    &&& a.len() == b.len()
    &&& forall|j: int|
        0 <= j < a.len() ==> {
            &&& #[trigger] b[j] == (Node {
                observed: b[j].observed,
                necessary_count: b[j].necessary_count,
                necessary_children: b[j].necessary_children,
                recalc_state: b[j].recalc_state,
                ..a[j]
            })
            &&& b[j].recalc_state == a[j].recalc_state || b[j].recalc_state is Pending
        }
}

impl<V, N: AnchorInner<EngineContextMut<N, V>, Output = V>> EngineContextMut<N, V> {
    proof fn lemma_reappraised(&self, later: &Self)
        requires
            self.settled(),
            later.graph.wf(),
            reappraised(self.graph.nodes@, later.graph.nodes@),
            *later == (EngineContextMut { graph: later.graph, ..*self }),
            forall|i: int| 0 <= i < later.graph.nodes@.len() ==> #[trigger] tidy_at(later.graph.nodes@, i),
            forall|i: int|
                0 <= i < later.graph.nodes@.len() && (#[trigger] later.graph.nodes@[i]).alive
                    && later.graph.nodes@[i].recalc_state is NeedsRecalc && unneeded(self.graph.nodes@[i]) ==> unneeded(
                    later.graph.nodes@[i],
                ),
        ensures
            later.settled(),
    {
        reveal(EngineContextMut::wf);
        reveal(told_wf);
        reveal(seen_wf);
        reveal(steady);
        reveal(lawful);
        reveal(caught_up);
        reveal(calm);
        let a = self.graph.nodes@;
        let b = later.graph.nodes@;
        assert forall|j: int| 0 <= j < b.len() implies {
            &&& (#[trigger] b[j]).alive == a[j].alive
            &&& b[j].visited == a[j].visited
            &&& b[j].last_ready == a[j].last_ready
            &&& b[j].last_update == a[j].last_update
            &&& b[j].anchor_locked == a[j].anchor_locked
            &&& b[j].anchor == a[j].anchor
            &&& b[j].height == a[j].height
            &&& b[j].clean_parents == a[j].clean_parents
        } by {
            assert(b[j] == (Node {
                observed: b[j].observed,
                necessary_count: b[j].necessary_count,
                necessary_children: b[j].necessary_children,
                recalc_state: b[j].recalc_state,
                ..a[j]
            }));
        }
        lemma_ordered_same(a, b);
        assert forall|j: int| 0 <= j < b.len() && ((#[trigger] b[j]).last_ready is Some || b[j].last_update is Some) implies later.ledger@.outs.contains_key(j as usize) by {
            assert(a[j].last_ready == b[j].last_ready && a[j].last_update == b[j].last_update);
        }
        assert forall|i: int| 0 <= i < b.len() && i != later.node && (#[trigger] b[i]).alive && b[i].recalc_state is NeedsRecalc && !later.ledger@.lost.contains(i as usize) implies unneeded(b[i]) by {
            assert(a[i].alive && a[i].recalc_state is NeedsRecalc);
        }
        assert(shows_less(a, b));
        lemma_outs_less(a, b, self.ledger@.outs);
        assert forall|k: int| 0 <= k < b.len() && k != -1 && (#[trigger] b[k]).anchor is Some && !later.ledger@.lost.contains(k as usize) implies node_lawful(
            b[k],
            later.ledger@.told[k as usize],
            later.ledger@.seen[k as usize],
            lists(later.dirty_marks@, k),
        ) by {
            assert(node_lawful(a[k], self.ledger@.told[k as usize], self.ledger@.seen[k as usize], lists(self.dirty_marks@, k)));
        }
        assert forall|j: AnchorToken, d: AnchorToken| #![trigger later.ledger@.seen[j].contains_key(d)] j < b.len() && !later.ledger@.lost.contains(j) && later.ledger@.seen[j].contains_key(d) implies !outrun(b, later.ledger@, j, d) by {
            assert(!outrun(a, self.ledger@, j, d));
            assert(b[j as int].last_ready == a[j as int].last_ready);
            if d < b.len() {
                assert(b[d as int].last_update == a[d as int].last_update);
            }
        }
    }
}

impl<V, N: AnchorInner<EngineContextMut<N, V>, Output = V>> Engine<N, V> {
    /// Observes an anchor: from now on every stabilization brings it up to date.
    pub fn mark_observed(&mut self, anchor: &Anchor<V>)
        requires
            old(self).ctx.settled(),
            alive(old(self).ctx.graph.nodes@, anchor.token),
        ensures
            final(self).ctx.settled(),
            final(self).lock_strict == old(self).lock_strict,
            final(self).spin_limit == old(self).spin_limit,
            final(self).ctx == (EngineContextMut { graph: final(self).ctx.graph, ..old(self).ctx }),
            final(self).ctx.graph.last_deleted == old(self).ctx.graph.last_deleted,
            final(self).ctx.graph.recalc_queues@.len() == old(self).ctx.graph.recalc_queues@.len(),
            final(self).ctx.graph.nodes@ == old(self).ctx.graph.nodes@.update(
                anchor.token as int,
                Node {
                    observed: true,
                    recalc_state: if old(self).ctx.graph.nodes@[anchor.token as int].recalc_state is Ready {
                        RecalcState::Ready
                    } else {
                        RecalcState::Pending
                    },
                    ..old(self).ctx.graph.nodes@[anchor.token as int]
                },
            ),
    {
        let ghost was = self.ctx;
        proof {
            reveal(EngineContextMut::wf);
        }
        let i: AnchorToken = anchor.token;
        self.ctx.graph.nodes[i].observed = true;
        proof {
            lemma_same_links(was.graph.nodes@, self.ctx.graph.nodes@);
            lemma_same_states(was.graph.nodes@, self.ctx.graph.nodes@, self.ctx.graph.recalc_queues@);
        }
        if self.ctx.graph.nodes[i].recalc_state != RecalcState::Ready {
            self.ctx.graph.queue_recalc(i);
        }
        proof {
            let b = self.ctx.graph.nodes@;
            assert forall|j: int| 0 <= j < b.len() implies #[trigger] tidy_at(b, j) by {
                assert(tidy_at(was.graph.nodes@, j));
            }
            was.lemma_reappraised(&self.ctx);
            assert(b =~= was.graph.nodes@.update(i as int, b[i as int]));
        }
    }

    /// Observes an anchor no longer. What was necessary only because of it is necessary no longer.
    pub fn mark_unobserved(&mut self, anchor: &Anchor<V>)
        requires
            old(self).ctx.settled(),
            alive(old(self).ctx.graph.nodes@, anchor.token),
        ensures
            final(self).ctx.settled(),
            final(self).lock_strict == old(self).lock_strict,
            final(self).spin_limit == old(self).spin_limit,
            final(self).ctx == (EngineContextMut { graph: final(self).ctx.graph, ..old(self).ctx }),
            final(self).ctx.graph.last_deleted == old(self).ctx.graph.last_deleted,
            final(self).ctx.graph.recalc_queues == old(self).ctx.graph.recalc_queues,
            unobserved(old(self).ctx.graph.nodes@, final(self).ctx.graph.nodes@, anchor.token as int),
    {
        let ghost was = self.ctx;
        proof {
            reveal(EngineContextMut::wf);
        }
        let i: AnchorToken = anchor.token;
        self.ctx.graph.nodes[i].observed = false;
        let ghost cleared = self.ctx.graph.nodes@;
        proof {
            lemma_same_links(was.graph.nodes@, cleared);
            lemma_same_states(was.graph.nodes@, cleared, self.ctx.graph.recalc_queues@);
        }
        self.ctx.graph.update_necessary_children(i);
        proof {
            let b = self.ctx.graph.nodes@;
            assert forall|j: int| 0 <= j < b.len() implies #[trigger] tidy_at(b, j) by {
                assert(tidy_at(was.graph.nodes@, j));
                if j != i {
                    assert(tidy_at(cleared, j));
                }
            }
            assert forall|j: int| 0 <= j < b.len() implies {
                &&& #[trigger] b[j] == (Node {
                    observed: b[j].observed,
                    necessary_count: b[j].necessary_count,
                    necessary_children: b[j].necessary_children,
                    recalc_state: b[j].recalc_state,
                    ..was.graph.nodes@[j]
                })
                &&& b[j].recalc_state == was.graph.nodes@[j].recalc_state
            } by {
                assert(b[j] == (Node {
                    necessary_count: b[j].necessary_count,
                    necessary_children: b[j].necessary_children,
                    ..cleared[j]
                }));
            }
            assert forall|j: int| 0 <= j < b.len() && (#[trigger] b[j]).alive && b[j].recalc_state is NeedsRecalc && unneeded(was.graph.nodes@[j]) implies unneeded(b[j]) by {
                assert(released(i as int, cleared, b, j));
            }
            was.lemma_reappraised(&self.ctx);
            assert forall|j: int| 0 <= j < b.len() implies #[trigger] released(i as int, was.graph.nodes@, b, j) by {
                assert(released(i as int, cleared, b, j));
            }
        }
    }

    /// Whether an anchor is observed, necessary, or neither.
    pub fn check_observed(&self, anchor: &Anchor<V>) -> (state: ObservedState)
        requires
            alive(self.ctx.graph.nodes@, anchor.token),
        ensures
            state == observed_state(self.ctx.graph.nodes@[anchor.token as int]),
    {
        check_observed_raw(&self.ctx.graph.nodes[anchor.token])
    }

    /// Whether a token still identifies an anchor.
    pub fn is_token_alive(&self, token: AnchorToken) -> (b: bool)
        ensures
            b == alive(self.ctx.graph.nodes@, token),
    {
        self.ctx.is_token_alive(token)
    }

    /// The output of an anchor if it is up to date; nothing is recalculated.
    pub fn peek_value(&self, anchor: &Anchor<V>) -> (out: Option<V>) where V: Clone
        requires
            self.ctx.wf(),
            alive(self.ctx.graph.nodes@, anchor.token),
        ensures
            out is Some <==> self.readable(anchor.token),
            out is Some ==> cloned(self.ctx.value(anchor.token)->0, out->0),
    {
        proof {
            reveal(EngineContextMut::wf);
        }
        match self.ctx.graph.read(anchor.token) {
            Some(v) => Some(v.clone()),
            None => None,
        }
    }

    /// Hands the output of an anchor, brought up to date, to `func`.
    pub fn get_with<F: FnOnce(&V) -> R, R>(&mut self, anchor: &Anchor<V>, func: F) -> (out: Result<R, EngineError>) where
        V: Clone,

        requires
            old(self).ctx.settled(),
            forall|v: V| call_requires(func, (&v,)),
        ensures
            final(self).ctx.settled(),
            final(self).lock_strict == old(self).lock_strict,
            final(self).spin_limit == old(self).spin_limit,
            same_needs(old(self).ctx.graph.nodes@, final(self).ctx.graph.nodes@),
            final(self).ctx.pending_stats.grown(old(self).ctx.pending_stats),
            out == Err::<R, EngineError>(EngineError::Deleted { token: anchor.token }) <==> !alive(
                old(self).ctx.graph.nodes@,
                anchor.token,
            ),
            out is Ok ==> final(self).readable(anchor.token) && exists|v: V|
                cloned(final(self).ctx.value(anchor.token)->0, v) && call_ensures(func, (&v,), out->Ok_0),
            out is Err ==> final(self).broke_off(out->Err_0) || out->Err_0 == (EngineError::NotReady {
                token: anchor.token,
            }) || out->Err_0 == (EngineError::Deleted { token: anchor.token }),
            out == Err::<R, EngineError>(EngineError::NotReady { token: anchor.token }) ==> !final(self).readable(anchor.token),
            alive(old(self).ctx.graph.nodes@, anchor.token) && !(!old(self).busy() && old(self).readable(anchor.token))
                ==> past(old(self).ctx.generation, final(self).ctx.generation) && match out {
                Ok(r) => exists|v: V| #[trigger] old(self).got(final(self), anchor.token, Ok(v)) && call_ensures(func, (&v,), r),
                Err(error) => old(self).got(final(self), anchor.token, Err(error)),
            },
            !old(self).busy() && old(self).readable(anchor.token) ==> out is Ok && *final(self) == *old(self),
    {
        match self.get(anchor) {
            Ok(v) => Ok(func(&v)),
            Err(error) => Err(error),
        }
    }

    /// The anchor of a token, if it is there.
    pub fn anchor(&self, token: AnchorToken) -> (inner: Option<&N>)
        ensures
            inner is Some <==> token < self.ctx.graph.nodes@.len() && self.ctx.graph.nodes@[token as int].anchor is Some,
            inner is Some ==> self.ctx.graph.nodes@[token as int].anchor == Some(*inner->0),
    {
        if token < self.ctx.graph.nodes.len() {
            self.ctx.graph.nodes[token].anchor.as_ref()
        } else {
            None
        }
    }

    pub fn pending_stats_snapshot(&self) -> (stats: AnchorsPendingStats)
        ensures
            stats == self.ctx.pending_stats,
    {
        self.ctx.pending_stats
    }

    /// Figures on the engine, with the memory in use as the system reports it.
    pub fn metrics_snapshot(&self, rss_bytes: u64) -> (metrics: AnchorsMetrics)
        ensures
            metrics.active_nodes == active_nodes(self.ctx.graph.nodes@),
            metrics.rss_bytes == rss_bytes,
    {
        AnchorsMetrics { active_nodes: self.ctx.graph.active_nodes(), rss_bytes }
    }

    /// Which tokens have been handed out and taken back.
    pub fn token_audit_snapshot(&self) -> (audit: TokenAudit)
        ensures
            audit.next_token == self.ctx.graph.nodes@.len(),
            audit.last_deleted_token is Some <==> self.ctx.graph.last_deleted is Some,
            audit.last_deleted_token is Some ==> audit.last_deleted_token->0 == self.ctx.graph.last_deleted->0,
    {
        TokenAudit {
            next_token: self.ctx.graph.nodes.len() as u64,
            last_deleted_token: match self.ctx.graph.last_deleted {
                Some(token) => Some(token as u64),
                None => None,
            },
        }
    }
}

impl<V, N: AnchorInner<EngineContextMut<N, V>, Output = V>> Engine<N, V> {
    /// Removes an anchor from the graph. Its token is not used again.
    pub fn remove(&mut self, token: AnchorToken)
        requires
            old(self).ctx.settled(),
            alive(old(self).ctx.graph.nodes@, token),
        ensures
            final(self).ctx.settled(),
            final(self).lock_strict == old(self).lock_strict,
            final(self).spin_limit == old(self).spin_limit,
            !alive(final(self).ctx.graph.nodes@, token),
            final(self).ctx.graph.nodes@[token as int].anchor is None,
            final(self).ctx.graph.last_deleted == Some(token),
            final(self).ctx == (EngineContextMut {
                graph: final(self).ctx.graph,
                ledger: final(self).ctx.ledger,
                ..old(self).ctx
            }),
            final(self).ctx.ledger@ == old(self).ctx.ledger@.without(token),
            final(self).ctx.graph.recalc_queues == old(self).ctx.graph.recalc_queues,
            final(self).ctx.graph.nodes@.len() == old(self).ctx.graph.nodes@.len(),
            forall|j: int|
                0 <= j < old(self).ctx.graph.nodes@.len() && j != token ==> #[trigger] final(self).ctx.graph.nodes@[j]
                    == (Node {
                    necessary_count: final(self).ctx.graph.nodes@[j].necessary_count,
                    necessary_children: final(self).ctx.graph.nodes@[j].necessary_children,
                    ..old(self).ctx.graph.nodes@[j]
                }),
            forall|j: int|
                0 <= j < old(self).ctx.graph.nodes@.len() ==> #[trigger] released(
                    token as int,
                    old(self).ctx.graph.nodes@,
                    final(self).ctx.graph.nodes@,
                    j,
                ),
    {
        let ghost was = self.ctx;
        proof {
            reveal(EngineContextMut::wf);
        }
        self.ctx.graph.nodes[token].alive = false;
        self.ctx.graph.nodes[token].anchor = None;
        self.ctx.graph.nodes[token].last_ready = None;
        self.ctx.graph.nodes[token].observed = false;
        let ghost emptied = self.ctx.graph.nodes@;
        proof {
            lemma_same_links(was.graph.nodes@, emptied);
            lemma_same_states(was.graph.nodes@, emptied, self.ctx.graph.recalc_queues@);
        }
        self.ctx.graph.update_necessary_children(token);
        self.ctx.graph.last_deleted = Some(token);
        self.ctx.ledger = Ghost(self.ctx.ledger@.without(token));
        proof {
            let b = self.ctx.graph.nodes@;
            assert forall|j: int| 0 <= j < b.len() implies #[trigger] released(token as int, was.graph.nodes@, b, j) by {
                assert(released(token as int, emptied, b, j));
            }
            assert forall|j: int| 0 <= j < b.len() implies #[trigger] tidy_at(b, j) by {
                assert(tidy_at(was.graph.nodes@, j));
                if j != token {
                    assert(tidy_at(emptied, j));
                }
            }
            assert forall|j: int| 0 <= j < b.len() && j != token implies #[trigger] b[j] == (Node {
                necessary_count: b[j].necessary_count,
                necessary_children: b[j].necessary_children,
                ..was.graph.nodes@[j]
            }) by {
                assert(b[j] == (Node {
                    necessary_count: b[j].necessary_count,
                    necessary_children: b[j].necessary_children,
                    ..emptied[j]
                }));
            }
            was.lemma_removed(&self.ctx, token);
        }
    }
}

impl<V, N: AnchorInner<EngineContextMut<N, V>, Output = V>> EngineContextMut<N, V> {
    proof fn lemma_removed(&self, later: &Self, token: AnchorToken)
        requires
            self.settled(),
            alive(self.graph.nodes@, token),
            later.graph.wf(),
            *later == (EngineContextMut { graph: later.graph, ledger: later.ledger, ..*self }),
            later.ledger@ == self.ledger@.without(token),
            later.graph.nodes@.len() == self.graph.nodes@.len(),
            forall|i: int| 0 <= i < later.graph.nodes@.len() ==> #[trigger] tidy_at(later.graph.nodes@, i),
            forall|j: int|
                0 <= j < self.graph.nodes@.len() && j != token ==> #[trigger] later.graph.nodes@[j] == (Node {
                    necessary_count: later.graph.nodes@[j].necessary_count,
                    necessary_children: later.graph.nodes@[j].necessary_children,
                    ..self.graph.nodes@[j]
                }),
            forall|j: int|
                0 <= j < self.graph.nodes@.len() ==> #[trigger] released(
                    token as int,
                    self.graph.nodes@,
                    later.graph.nodes@,
                    j,
                ),
            later.graph.nodes@[token as int] == (Node {
                alive: false,
                anchor: None,
                last_ready: None,
                observed: false,
                necessary_count: later.graph.nodes@[token as int].necessary_count,
                necessary_children: later.graph.nodes@[token as int].necessary_children,
                ..self.graph.nodes@[token as int]
            }),
        ensures
            later.settled(),
    {
        reveal(EngineContextMut::wf);
        reveal(told_wf);
        reveal(seen_wf);
        reveal(steady);
        reveal(lawful);
        reveal(caught_up);
        reveal(calm);
        let a = self.graph.nodes@;
        let b = later.graph.nodes@;
        assert forall|j: int| 0 <= j < b.len() implies {
            &&& (#[trigger] b[j]).visited == a[j].visited
            &&& b[j].last_update == a[j].last_update
            &&& b[j].anchor_locked == a[j].anchor_locked
            &&& b[j].height == a[j].height
            &&& b[j].clean_parents == a[j].clean_parents
            &&& b[j].recalc_state == a[j].recalc_state
            &&& j != token ==> b[j].anchor == a[j].anchor && b[j].last_ready == a[j].last_ready && b[j].alive == a[j].alive
                && b[j].observed == a[j].observed
        } by {
            if j != token {
                assert(b[j] == (Node {
                    necessary_count: b[j].necessary_count,
                    necessary_children: b[j].necessary_children,
                    ..a[j]
                }));
            }
        }
        lemma_ordered_same(a, b);
        assert forall|j: int| 0 <= j < b.len() && ((#[trigger] b[j]).last_ready is Some || b[j].last_update is Some) implies later.ledger@.outs.contains_key(j as usize) by {
            assert(b[j].last_update == a[j].last_update);
            assert(a[j].last_ready is Some || a[j].last_update is Some);
        }
        assert forall|i: int| 0 <= i < b.len() && i != later.node && (#[trigger] b[i]).alive && b[i].recalc_state is NeedsRecalc && !later.ledger@.lost.contains(i as usize) implies unneeded(b[i]) by {
            assert(i != token);
            assert(!self.ledger@.lost.contains(i as usize));
            assert(unneeded(a[i]));
            assert(released(token as int, a, b, i));
        }
        assert forall|j: AnchorToken, d: AnchorToken| #![trigger later.ledger@.told[j].contains_key(d)] j < b.len() && later.ledger@.told[j].contains_key(d) implies {
            &&& d < b.len()
            &&& lists(b[d as int].clean_parents@, j as int)
            &&& later.ledger@.outs.contains_key(d)
            &&& later.ledger@.told[j][d] == later.ledger@.outs[d] || later.ledger@.silent.contains(d)
            &&& b[d as int].alive
            &&& d == later.node || later.ledger@.lost.contains(d) || !(b[d as int].recalc_state is NeedsRecalc)
        } by {
            assert(self.ledger@.told[j].contains_key(d));
            assert(d != token);
        }
        lemma_outs_less(a, b, self.ledger@.outs);
        assert forall|k: int| 0 <= k < b.len() && k != -1 && (#[trigger] b[k]).anchor is Some && !later.ledger@.lost.contains(k as usize) implies node_lawful(
            b[k],
            later.ledger@.told[k as usize],
            later.ledger@.seen[k as usize],
            lists(later.dirty_marks@, k),
        ) by {
            assert(!self.ledger@.lost.contains(k as usize));
            assert(!self.ledger@.told[k as usize].contains_key(token));
            assert(later.ledger@.told[k as usize] =~= self.ledger@.told[k as usize]);
            assert(node_lawful(a[k], self.ledger@.told[k as usize], self.ledger@.seen[k as usize], lists(self.dirty_marks@, k)));
        }
        assert forall|j: AnchorToken, d: AnchorToken| #![trigger later.ledger@.seen[j].contains_key(d)] j < b.len() && !later.ledger@.lost.contains(j) && later.ledger@.seen[j].contains_key(d) implies !outrun(b, later.ledger@, j, d) by {
            assert(self.ledger@.seen[j].contains_key(d));
            assert(!self.ledger@.lost.contains(j));
            assert(!outrun(a, self.ledger@, j, d));
            if d < b.len() {
                assert(b[d as int].last_update == a[d as int].last_update);
            }
        }
        assert forall|j: AnchorToken, d: AnchorToken| #![trigger later.ledger@.seen[j].contains_key(d)] j < b.len() && d < b.len() && !later.ledger@.lost.contains(j) && later.ledger@.seen[j].contains_key(d) && freshness(b[d as int].last_update, b[j as int].last_ready, later.generation) is Unchanged implies later.ledger@.seen[j][d] == later.ledger@.outs[d] || later.ledger@.silent.contains(d) by {
            assert(self.ledger@.seen[j].contains_key(d));
            assert(!self.ledger@.lost.contains(j));
            assert(b[d as int].last_update == a[d as int].last_update);
            assert(j != token);
        }
    }
}

impl<V, N: AnchorInner<EngineContextMut<N, V>, Output = V>> Engine<N, V> {
    /// Sets the value of a variable. The anchors calculated from it hear of it at the next
    /// stabilization.
    pub fn set<T>(&mut self, token: AnchorToken, val: T) where N: VarInner<EngineContextMut<N, V>, T>
        requires
            old(self).ctx.settled(),
            alive(old(self).ctx.graph.nodes@, token),
            old(self).ctx.graph.nodes@[token as int].anchor->0.is_var(),
        ensures
            final(self).ctx.settled(),
            final(self).lock_strict == old(self).lock_strict,
            final(self).spin_limit == old(self).spin_limit,
            final(self).ctx == (EngineContextMut {
                graph: final(self).ctx.graph,
                dirty_marks: final(self).ctx.dirty_marks,
                ..old(self).ctx
            }),
            final(self).ctx.graph.recalc_queues == old(self).ctx.graph.recalc_queues,
            old(self).ctx.graph.same_but(&final(self).ctx.graph, token as int),
            final(self).ctx.graph.nodes@[token as int] == (Node {
                anchor: final(self).ctx.graph.nodes@[token as int].anchor,
                ..old(self).ctx.graph.nodes@[token as int]
            }),
            final(self).ctx.graph.nodes@[token as int].anchor is Some,
            final(self).ctx.graph.nodes@[token as int].anchor->0.is_var(),
            final(self).ctx.graph.nodes@[token as int].anchor->0.last_set() == val,
            final(self).ctx.graph.nodes@[token as int].anchor->0.outside() == <N as AsVar<T>>::handing(
                &old(self).ctx.graph.nodes@[token as int].anchor->0,
                val,
            ),
            exists|marks: bool| #[trigger]
                old(self).ctx.graph.nodes@[token as int].anchor->0.set_to(
                    &final(self).ctx.graph.nodes@[token as int].anchor->0,
                    val,
                    marks,
                ) && final(self).ctx.dirty_marks@ == (if marks {
                    old(self).ctx.dirty_marks@.push(token)
                } else {
                    old(self).ctx.dirty_marks@
                }),
            old(self).ctx.graph.nodes@[token as int].recalc_state is Ready && final(self).ctx.dirty_marks@
                == old(self).ctx.dirty_marks@ ==> final(self).ctx.graph.nodes@[token as int].anchor->0.current(),
    {
        let ghost was = self.ctx;
        proof {
            reveal(EngineContextMut::wf);
        }
        let mut inner: N = self.ctx.graph.nodes[token].anchor.take().unwrap();
        let ghost before = inner;
        let marks: bool = inner.set_value(val);
        proof {
            VarInner::<EngineContextMut<N, V>, T>::set_keeps(&before, &inner, val, marks);
        }
        self.ctx.graph.nodes[token].anchor = Some(inner);
        if marks {
            self.ctx.dirty_marks.push(token);
        }
        proof {
            was.lemma_set(&self.ctx, token, marks);
            if marks {
                assert(self.ctx.dirty_marks@.len() == was.dirty_marks@.len() + 1);
            } else if was.graph.nodes@[token as int].recalc_state is Ready {
                assert(was.graph.nodes@[token as int].last_ready is Some);
            }
        }
    }
}

impl<V, N: AnchorInner<EngineContextMut<N, V>, Output = V>> EngineContextMut<N, V> {
    proof fn lemma_set(&self, later: &Self, token: AnchorToken, marks: bool)
        requires
            self.settled(),
            alive(self.graph.nodes@, token),
            *later == (EngineContextMut { graph: later.graph, dirty_marks: later.dirty_marks, ..*self }),
            later.dirty_marks@ == (if marks {
                self.dirty_marks@.push(token)
            } else {
                self.dirty_marks@
            }),
            later.graph.recalc_queues == self.graph.recalc_queues,
            self.graph.same_but(&later.graph, token as int),
            later.graph.nodes@[token as int] == (Node {
                anchor: later.graph.nodes@[token as int].anchor,
                ..self.graph.nodes@[token as int]
            }),
            later.graph.nodes@[token as int].anchor is Some,
            ({
                let x = self.graph.nodes@[token as int].anchor->0;
                let y = later.graph.nodes@[token as int].anchor->0;
                &&& y.inv()
                &&& y.had() == x.had()
                &&& y.alias() == x.alias()
                &&& y.own() == x.own()
                &&& forall|told: Map<AnchorToken, V>| x.holds(told) ==> #[trigger] y.holds(told)
                &&& forall|told: Map<AnchorToken, V>| x.sound(told) ==> #[trigger] y.sound(told)
                &&& forall|seen: Map<AnchorToken, V>| x.right(seen) ==> #[trigger] y.right(seen)
                &&& !marks ==> !y.had() || y.current()
            }),
        ensures
            later.settled(),
    {
        reveal(EngineContextMut::wf);
        reveal(told_wf);
        reveal(seen_wf);
        reveal(steady);
        reveal(lawful);
        reveal(caught_up);
        reveal(calm);
        let a = self.graph.nodes@;
        let b = later.graph.nodes@;
        lemma_same_links(a, b);
        lemma_same_states(a, b, self.graph.recalc_queues@);
        assert forall|j: int| 0 <= j < b.len() implies #[trigger] tidy_at(b, j) by {
            assert(tidy_at(a, j));
        }
        lemma_ordered_same(a, b);
        assert forall|k: int| 0 <= k < b.len() && (#[trigger] b[k]).anchor is Some && b[k].recalc_state is Ready && b[k].anchor->0.outside() is Some && !lists(later.dirty_marks@, k) implies b[k].anchor->0.current() by {
            assert(a[k].anchor is Some);
            if lists(self.dirty_marks@, k) {
                let m = choose|m: int| 0 <= m < self.dirty_marks@.len() && #[trigger] self.dirty_marks@[m] == k;
                assert(later.dirty_marks@[m] == k);
            }
            if k == token && marks {
                assert(later.dirty_marks@[later.dirty_marks@.len() - 1] == k);
            }
        }
        lemma_outs_less(a, b, self.ledger@.outs);
        assert forall|k: int| 0 <= k < b.len() && k != -1 && (#[trigger] b[k]).anchor is Some && !later.ledger@.lost.contains(k as usize) implies node_lawful(
            b[k],
            later.ledger@.told[k as usize],
            later.ledger@.seen[k as usize],
            lists(later.dirty_marks@, k),
        ) by {
            assert(a[k].anchor is Some);
            assert(node_lawful(a[k], self.ledger@.told[k as usize], self.ledger@.seen[k as usize], lists(self.dirty_marks@, k)));
            if lists(self.dirty_marks@, k) {
                let m = choose|m: int| 0 <= m < self.dirty_marks@.len() && #[trigger] self.dirty_marks@[m] == k;
                assert(later.dirty_marks@[m] == k);
            }
            if k == token && marks {
                assert(later.dirty_marks@[later.dirty_marks@.len() - 1] == k);
            }
        }
        assert forall|j: AnchorToken, d: AnchorToken| #![trigger later.ledger@.seen[j].contains_key(d)] j < b.len() && !later.ledger@.lost.contains(j) && later.ledger@.seen[j].contains_key(d) implies !outrun(b, later.ledger@, j, d) by {
            assert(!outrun(a, self.ledger@, j, d));
        }
    }
}

/// What becomes of the nodes when `i` is observed no longer.
pub open spec fn unobserved<N>(a: Seq<Node<N>>, b: Seq<Node<N>>, i: int) -> bool {
    &&& reappraised(a, b)
    &&& !b[i].observed
    &&& tidy_at(b, i)
    &&& forall|j: int|
        0 <= j < a.len() ==> {
            &&& (#[trigger] b[j]).recalc_state == a[j].recalc_state
            &&& j != i ==> b[j].observed == a[j].observed
        }
    &&& forall|j: int| 0 <= j < a.len() ==> #[trigger] released(i, a, b, j)
}

/// How many nodes have not been removed.
pub open spec fn active_nodes<N>(nodes: Seq<Node<N>>) -> nat
    decreases nodes.len(),
{
    if nodes.len() == 0 {
        0
    } else {
        active_nodes(nodes.drop_last()) + (if nodes.last().alive {
            1nat
        } else {
            0
        })
    }
}

impl<N> Graph2<N> {
    /// How many nodes have not been removed.
    pub fn active_nodes(&self) -> (n: usize)
        ensures
            n == active_nodes(self.nodes@),
    {
        let mut n: usize = 0;
        let mut k: usize = 0;
        proof {
            assert(self.nodes@.take(0) =~= Seq::empty());
        }
        while k < self.nodes.len()
            invariant
                k <= self.nodes@.len(),
                n <= k,
                n == active_nodes(self.nodes@.take(k as int)),
            decreases self.nodes@.len() - k,
        {
            proof {
                assert(self.nodes@.take(k as int + 1).drop_last() =~= self.nodes@.take(k as int));
            }
            if self.nodes[k].alive {
                n = n + 1;
            }
            k = k + 1;
        }
        proof {
            assert(self.nodes@.take(self.nodes@.len() as int) =~= self.nodes@);
        }
        n
    }
}

} // verus!
