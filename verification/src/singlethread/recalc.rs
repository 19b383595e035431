//! Recalculating a node.

use crate::expert::{unready_since, AnchorInner, AnchorOutput, AnchorToken, Call, Poll, UpdateContext};
use crate::singlethread::context::{
    alive, anchors_wf, announced_wf, display, freshness, generations_past, gone_wf, lemma_displayed, lemma_outs_less,
    lemma_reading_less, outs_wf, reading, seen_wf, served, shows_less, steady, told_wf, EngineContextMut, Ledger,
};
use crate::singlethread::dirty::{cleared, heard, notified, reported};
use crate::singlethread::graph2::{
    at, in_range, lemma_same_links, lemma_same_states, links_wf, lists, necessary_parents, ordered, queue_wf, queued,
    tidy, tidy_at, unneeded, Node, RecalcState,
};
use vstd::prelude::*;

verus! {

/// Why an engine cannot go on.
#[derive(Clone, Copy, Debug, PartialEq, Eq, Structural)]
pub enum EngineError {
    /// A node had to be recalculated while it was being recalculated.
    AnchorLocked { token: AnchorToken },
    /// A node that has no output yet depends on one that is gone.
    InvalidToken { token: AnchorToken },
    /// A node that has no output yet waits for nothing that the engine knows of.
    UnexpectedPending { token: AnchorToken },
    /// The node is still not ready after it has been recalculated several times.
    NotReady { token: AnchorToken },
    /// The node is gone.
    Deleted { token: AnchorToken },
    /// Nodes keep being recalculated.
    Spinning,
}

/// The result of recalculating node `token`, by the answer it gave, by whether it asked for
/// something that is not ready, and by whether it was ready before.
pub open spec fn outcome(poll: Poll, asked: bool, completed: bool, token: AnchorToken) -> Result<bool, EngineError> {
    if poll.ready() {
        Ok(true)
    } else if poll.waiting() && asked {
        Ok(false)
    } else if completed {
        Ok(true)
    } else if poll is PendingInvalidToken {
        Err(EngineError::InvalidToken { token })
    } else {
        Err(EngineError::UnexpectedPending { token })
    }
}

/// One more, as far as the type goes.
pub open spec fn capped_inc(n: u32) -> u32 {
    if n == u32::MAX {
        n
    } else {
        (n + 1) as u32
    }
}

/// What holds of a node's anchor at any time: it stands by what it has been told, and its output is
/// right for what it knew when it last completed a poll.
pub open spec fn standing<V, N: AnchorInner<EngineContextMut<N, V>, Output = V>>(
    node: Node<N>,
    told: Map<AnchorToken, V>,
    seen: Map<AnchorToken, V>,
) -> bool {
    &&& node.anchor->0.holds(told)
    &&& node.last_ready is Some ==> node.anchor->0.right(seen)
}

/// What holds of a node: its anchor is standing, and while it is ready it is sound.
pub open spec fn node_lawful<V, N: AnchorInner<EngineContextMut<N, V>, Output = V>>(
    node: Node<N>,
    told: Map<AnchorToken, V>,
    seen: Map<AnchorToken, V>,
    marked: bool,
) -> bool {
    let inner = node.anchor->0;
    &&& standing(node, told, seen)
    &&& node.last_ready is Some && !(node.recalc_state is Pending) ==> seen.submap_of(told)
    &&& node.recalc_state is Ready ==> {
        &&& inner.sound(told)
        &&& marked || inner.current()
        &&& inner.alias() is Some ==> told.contains_key(inner.alias()->0)
    }
}

/// What holds of all nodes but `skip` and those that are lost.
#[verifier::opaque]
pub open spec fn lawful<V, N: AnchorInner<EngineContextMut<N, V>, Output = V>>(
    nodes: Seq<Node<N>>,
    ledger: Ledger<V>,
    marks: Seq<AnchorToken>,
    skip: int,
) -> bool {
    forall|i: int|
        0 <= i < nodes.len() && i != skip && (#[trigger] nodes[i]).anchor is Some && !ledger.lost.contains(i as usize)
            ==> node_lawful(nodes[i], ledger.told[i as usize], ledger.seen[i as usize], lists(marks, i))
}

/// A ready node that takes its output from outside the graph has taken up what was handed to it, unless it is marked.
#[verifier::opaque]
pub open spec fn caught_up<V, N: AnchorInner<EngineContextMut<N, V>, Output = V>>(
    nodes: Seq<Node<N>>,
    marks: Seq<AnchorToken>,
) -> bool {
    forall|i: int|
        0 <= i < nodes.len() && (#[trigger] nodes[i]).anchor is Some && nodes[i].recalc_state is Ready
            && nodes[i].anchor->0.outside() is Some && !lists(marks, i) ==> nodes[i].anchor->0.current()
}

/// The same nodes are there, the same are observed, and their anchors were handed the same from outside.
pub open spec fn same_needs<N: AnchorOutput>(a: Seq<Node<N>>, b: Seq<Node<N>>) -> bool {
    &&& a.len() == b.len()
    &&& forall|i: int|
        0 <= i < a.len() ==> {
            &&& (#[trigger] b[i]).alive == a[i].alive
            &&& b[i].observed == a[i].observed
            &&& a[i].anchor is Some ==> b[i].anchor is Some && b[i].anchor->0.outside() == a[i].anchor->0.outside()
        }
}

/// What an anchor makes of several reports, one after the other.
pub open spec fn hears_all<N, V>(x: N, y: N, reports: Seq<AnchorToken>) -> bool where
    N: AnchorInner<EngineContextMut<N, V>, Output = V>,

    decreases reports.len(),
{
    if reports.len() == 0 {
        y == x
    } else {
        exists|m: N| hears_all::<N, V>(x, m, reports.drop_last()) && #[trigger] m.hears(&y, reports.last())
    }
}

/// The steps in which a node is recalculated.
pub ghost struct Recalculation<N, V> {
    /// The engine as it is handed to the anchor.
    pub entered: EngineContextMut<N, V>,
    /// The anchor as it has been taken out of its node.
    pub inner: N,
    /// The engine after the poll.
    pub now: EngineContextMut<N, V>,
    /// The anchor after the poll.
    pub answering: N,
    pub poll: Poll,
    /// The engine once the anchor is back in its node.
    pub settled: EngineContextMut<N, V>,
}

/// How often in a row a node was found locked, if it is recalculated now.
pub open spec fn tries<N>(node: Node<N>) -> u32 {
    if node.anchor_locked {
        capped_inc(node.recalc_retry)
    } else {
        node.recalc_retry
    }
}

/// Nobody is being polled, but perhaps `i`.
pub open spec fn idle_but<N>(nodes: Seq<Node<N>>, i: int) -> bool {
    forall|j: int|
        0 <= j < nodes.len() && j != i ==> {
            &&& (#[trigger] nodes[j]).alive ==> nodes[j].anchor is Some
            &&& !nodes[j].anchor_locked
        }
}

impl<V, N: AnchorInner<EngineContextMut<N, V>, Output = V>> EngineContextMut<N, V> {
    /// The law, which all nodes but `skip` and those that are lost are under, and what holds in any case.
    pub open spec fn law(&self, skip: int) -> bool {
        &&& self.wf()
        &&& caught_up::<V, N>(self.graph.nodes@, self.dirty_marks@)
        &&& lawful(self.graph.nodes@, self.ledger@, self.dirty_marks@, skip)
    }

    /// What is known of an anchor that has been taken out of node `i` to be polled.
    pub open spec fn entered(&self, i: AnchorToken, inner: N) -> bool {
        &&& inner.inv()
        &&& self.graph.nodes@[i as int].last_ready is Some ==> inner.had()
        &&& self.graph.nodes@[i as int].last_ready is Some && inner.alias() is None ==> self.ledger@.outs.contains_key(i)
            && inner.own() == self.ledger@.outs[i]
        &&& !self.ledger@.lost.contains(i) ==> {
            &&& inner.holds(self.ledger@.told[i])
            &&& self.graph.nodes@[i as int].last_ready is Some ==> inner.right(self.ledger@.seen[i])
        }
    }

    /// The anchor `inner` has been taken out of node `i`, and the engine, as it is `later`, is handed to it.
    pub open spec fn hands_over(&self, later: &Self, i: AnchorToken, inner: N) -> bool {
        let node = self.graph.nodes@[i as int];
        &&& inner.honest() == node.anchor->0.honest()
        &&& inner.outside() == node.anchor->0.outside()
        &&& inner.had() == node.anchor->0.had()
        &&& inner.alias() == node.anchor->0.alias()
        &&& inner.own() == node.anchor->0.own()
        &&& hears_all::<N, V>(node.anchor->0, inner, node.pending_dirty@)
        &&& later.ledger@ == (Ledger { calls: Seq::<Call>::empty(), ..self.ledger@ })
        &&& *later == (EngineContextMut {
            graph: later.graph,
            node: i,
            pending_on_anchor_get: false,
            invalid_token_requested: false,
            ledger: later.ledger,
            ..*self
        })
        &&& self.graph.same_but(&later.graph, i as int)
        &&& later.graph.recalc_queues == self.graph.recalc_queues
        &&& later.graph.nodes@[i as int] == (Node {
            anchor: None,
            anchor_locked: true,
            recalc_retry: tries(node),
            pending_dirty: later.graph.nodes@[i as int].pending_dirty,
            ..node
        })
        &&& later.graph.nodes@[i as int].pending_dirty@.len() == 0
    }

    /// A lock that was left on node `i` is gone, and the try is counted.
    pub open spec fn takes_over(&self, later: &Self, i: AnchorToken) -> bool {
        &&& *later == (EngineContextMut { graph: later.graph, ..*self })
        &&& later.graph.recalc_queues == self.graph.recalc_queues
        &&& self.graph.same_but(&later.graph, i as int)
        &&& later.graph.nodes@[i as int] == (Node {
            recalc_retry: tries(self.graph.nodes@[i as int]),
            anchor_locked: false,
            ..self.graph.nodes@[i as int]
        })
    }

    /// Locks node `i` and takes its anchor out to be polled. The anchor has heard of everything
    /// that was reported to it while it was locked.
    fn enter(&mut self, i: AnchorToken) -> (inner: N)
        requires
            old(self).law(i as int),
            i < old(self).graph.nodes@.len(),
            old(self).graph.nodes@[i as int].anchor is Some,
            !old(self).graph.nodes@[i as int].anchor_locked,
            old(self).node == i,
            !old(self).ledger@.lost.contains(i) ==> standing(
                old(self).graph.nodes@[i as int],
                old(self).ledger@.told[i],
                old(self).ledger@.seen[i],
            ),
            idle_but(old(self).graph.nodes@, i as int),
        ensures
            final(self).law(i as int),
            final(self).entered(i, inner),
            final(self).graph.nodes@[i as int].alive,
            old(self).hands_over(final(self), i, inner),
    {
        let ghost was = *self;
        proof {
            reveal(EngineContextMut::wf);
        }
        self.graph.nodes[i].anchor_locked = true;
        let mut inner: N = self.graph.nodes[i].anchor.take().unwrap();
        let mut reports: Vec<AnchorToken> = Vec::new();
        std::mem::swap(&mut reports, &mut self.graph.nodes[i].pending_dirty);
        self.node = i;
        self.pending_on_anchor_get = false;
        self.invalid_token_requested = false;
        self.ledger = Ghost(Ledger { calls: Seq::empty(), ..self.ledger@ });
        proof {
            self.lemma_entered(&was, i);
        }
        let ghost taken = inner;
        let ghost told = self.ledger@.told[i];
        let ghost seen = self.ledger@.seen[i];
        let mut k: usize = 0;
        while k < reports.len()
            invariant
                k <= reports@.len(),
                inner.inv(),
                inner.had() == taken.had(),
                inner.alias() == taken.alias(),
                inner.own() == taken.own(),
                inner.honest() == taken.honest(),
                inner.outside() == taken.outside(),
                taken.holds(told) ==> inner.holds(told),
                taken.right(seen) ==> inner.right(seen),
                hears_all::<N, V>(taken, inner, reports@.take(k as int)),
            decreases reports@.len() - k,
        {
            let ghost before = inner;
            inner.dirty(reports[k]);
            proof {
                assert(reports@.take(k + 1).drop_last() =~= reports@.take(k as int));
                assert(before.hears(&inner, reports@.take(k + 1).last()));
            }
            k = k + 1;
        }
        assert(reports@.take(k as int) =~= was.graph.nodes@[i as int].pending_dirty@);
        inner
    }

    /// What is known of the anchor of node `i` once it has been polled with the answer `poll`.
    pub open spec fn polled(&self, i: AnchorToken, inner: N, poll: Poll) -> bool {
        let completed = self.graph.nodes@[i as int].last_ready is Some;
        &&& inner.inv()
        &&& completed ==> inner.had()
        &&& poll.ready() ==> inner.had() && inner.current()
        &&& inner.outside() is Some ==> poll.ready()
        &&& !poll.ready() && completed && inner.alias() is None ==> self.ledger@.outs.contains_key(i) && inner.own()
            == self.ledger@.outs[i]
        &&& poll is Unchanged && completed && inner.honest() ==> {
            &&& inner.alias() is None
            &&& self.ledger@.outs.contains_key(i)
            &&& inner.own() == self.ledger@.outs[i]
        }
        &&& !self.ledger@.impaired(i) ==> {
            &&& inner.holds(self.ledger@.told[i])
            &&& poll.ready() ==> self.answers_for(i, inner)
            &&& !poll.ready() && completed ==> inner.right(self.ledger@.seen[i])
        }
    }

    /// The anchor `inner` of node `i` is sound, and right, for what it was told.
    pub open spec fn answers_for(&self, i: AnchorToken, inner: N) -> bool {
        &&& inner.holds(self.ledger@.told[i])
        &&& inner.sound(self.ledger@.told[i])
        &&& inner.right(self.ledger@.told[i])
        &&& inner.alias() is Some ==> self.ledger@.told[i].contains_key(inner.alias()->0)
    }

    /// The anchor `inner` of node `i` still stands by what it was told.
    pub open spec fn stands_by(&self, i: AnchorToken, inner: N) -> bool {
        &&& inner.holds(self.ledger@.told[i])
        &&& self.graph.nodes@[i as int].last_ready is Some ==> inner.right(self.ledger@.seen[i])
    }

    /// What is to be read of node `d`, now that the nodes are `nodes`, is something else than before.
    pub open spec fn differs(&self, nodes: Seq<Node<N>>, d: AnchorToken) -> bool {
        &&& self.ledger@.outs.contains_key(d)
        &&& display(nodes, d) is Some
        &&& display(nodes, d)->0 != self.ledger@.outs[d]
    }

    /// What is to be read now that node `i` is ready and the nodes are `nodes`.
    pub open spec fn displayed(&self, nodes: Seq<Node<N>>, i: AnchorToken) -> Map<AnchorToken, V> {
        let outs = self.ledger@.outs;
        Map::new(
            |d: AnchorToken| d == i || outs.contains_key(d) || display(nodes, d) is Some,
            |d: AnchorToken|
                match display(nodes, d) {
                    Some(v) => v,
                    None => outs[d],
                },
        )
    }

    /// What nodes have been told, where node `i` is told no more than its anchor `inner` was calculated from.
    pub open spec fn trimmed(&self, i: AnchorToken, inner: N) -> Map<AnchorToken, Map<AnchorToken, V>> {
        let told = self.ledger@.told[i];
        if self.answers_for(i, inner) {
            self.ledger@.told.insert(
                i,
                Map::new(|d: AnchorToken| told.contains_key(d) && inner.leans_on(told, d), |d: AnchorToken| told[d]),
            )
        } else {
            self.ledger@.told
        }
    }

    /// The ledger once node `i` has completed a poll and the nodes are `nodes`. The node can be relied upon if it is right
    /// for what it was told. What is read differently is unannounced, but for a change of `i` that it announces.
    pub open spec fn entry(&self, nodes: Seq<Node<N>>, i: AnchorToken, inner: N, updated: bool) -> Ledger<V> {
        let old = self.ledger@;
        Ledger {
            outs: self.displayed(nodes, i),
            told: if updated {
                Map::new(|j: AnchorToken| true, |j: AnchorToken| self.trimmed(i, inner)[j].remove(i))
            } else {
                self.trimmed(i, inner)
            },
            seen: old.seen.insert(i, self.trimmed(i, inner)[i]),
            lost: if self.answers_for(i, inner) {
                old.lost.remove(i)
            } else {
                old.lost.insert(i)
            },
            silent: Set::new(
                |d: AnchorToken| (old.silent.contains(d) || self.differs(nodes, d)) && !(d == i && updated),
            ),
            ..old
        }
    }

    /// The ledger once node `i` has been polled and is not ready, and the nodes are `nodes`. If it is frozen, or does not
    /// stand by what it was told, it cannot be relied upon.
    pub open spec fn entry_unready(&self, nodes: Seq<Node<N>>, i: AnchorToken, inner: N, frozen: bool) -> Ledger<V> {
        let old = self.ledger@;
        Ledger {
            outs: if frozen {
                self.displayed(nodes, i)
            } else {
                old.outs
            },
            lost: if frozen || !self.stands_by(i, inner) {
                old.lost.insert(i)
            } else {
                old.lost
            },
            silent: if frozen {
                Set::new(|d: AnchorToken| old.silent.contains(d) || self.differs(nodes, d))
            } else {
                old.silent
            },
            ..old
        }
    }

    /// The outputs are in order once they are what there is to read.
    proof fn lemma_displayed_outs(&self, nodes: Seq<Node<N>>, i: AnchorToken)
        requires
            outs_wf(self.graph.nodes@, self.ledger@.outs),
            i < nodes.len(),
            nodes[i as int].alive,
            nodes[i as int].anchor is Some,
            nodes[i as int].recalc_state is Ready,
            nodes.len() == self.graph.nodes@.len(),
            nodes.len() <= usize::MAX,
            forall|j: int|
                0 <= j < nodes.len() && j != i && (#[trigger] nodes[j]).anchor is Some && nodes[j].last_ready is Some
                    && nodes[j].anchor->0.alias() is None ==> {
                    &&& self.graph.nodes@[j].anchor is Some
                    &&& self.graph.nodes@[j].last_ready is Some
                    &&& self.graph.nodes@[j].anchor->0.alias() is None
                    &&& self.graph.nodes@[j].anchor->0.own() == nodes[j].anchor->0.own()
                },
        ensures
            outs_wf(nodes, self.displayed(nodes, i)),
    {
        reveal(outs_wf);
        let outs = self.displayed(nodes, i);
        assert forall|d: AnchorToken, fuel: nat| #[trigger] reading(nodes, d, fuel) is Some implies outs.contains_key(d) && reading(nodes, d, fuel)->0 == outs[d] by {
            lemma_displayed(nodes, d, fuel);
        }
        assert forall|j: int| 0 <= j < nodes.len() && (#[trigger] nodes[j]).anchor is Some && nodes[j].last_ready is Some && nodes[j].anchor->0.alias() is None implies outs.contains_key(j as usize) && nodes[j].anchor->0.own() == outs[j as usize] by {
            if j == i {
                assert(reading(nodes, i, 0) is Some);
                lemma_displayed(nodes, i, 0);
            } else {
                assert(self.graph.nodes@[j].anchor is Some);
                if display(nodes, j as usize) is Some {
                    let fuel = choose|fuel: nat| #[trigger] reading(nodes, j as usize, fuel) is Some;
                    assert(reading(nodes, j as usize, fuel) == Some(nodes[j].anchor->0.own()));
                }
            }
        }
    }

    /// Node `i`, whose anchor has been polled, is ready; if its output has changed, the nodes
    /// calculated from it hear of it.
    fn complete(&mut self, i: AnchorToken, inner: N, updated: bool)
        requires
            old(self).law(i as int),
            i < old(self).graph.nodes@.len(),
            old(self).node == i,
            old(self).graph.nodes@[i as int].alive,
            old(self).graph.nodes@[i as int].anchor is None,
            old(self).graph.nodes@[i as int].recalc_state is NeedsRecalc,
            old(self).polled(i, inner, if updated { Poll::Updated } else { Poll::Unchanged }),
        ensures
            final(self).law(-1),
            final(self).ledger@ == old(self).entry(final(self).graph.nodes@, i, inner, updated),
            *final(self) == (EngineContextMut { graph: final(self).graph, ledger: final(self).ledger, ..*old(self) }),
            final(self).graph.last_deleted == old(self).graph.last_deleted,
            final(self).graph.recalc_queues@.len() == old(self).graph.recalc_queues@.len(),
            finished::<N, V>(
                old(self).graph.nodes@,
                final(self).graph.nodes@,
                i,
                inner,
                updated,
                old(self).generation,
            ),
    {
        let ghost was = *self;
        proof {
            reveal(EngineContextMut::wf);
        }
        self.graph.nodes[i].recalc_retry = 0;
        self.graph.nodes[i].anchor = Some(inner);
        let ghost put = self.graph.nodes@;
        proof {
            lemma_same_links(was.graph.nodes@, put);
            lemma_same_states(was.graph.nodes@, put, self.graph.recalc_queues@);
        }
        let generation: u64 = self.generation;
        let ghost parents = put[i as int].clean_parents@;
        if updated {
            assert(!lists(parents, i as int)) by {
                assert(in_range(put[i as int].clean_parents@, put.len()));
            }
            self.mark_dirty(i, true);
            proof {
                let drained = choose|drained: Seq<Node<N>>|
                    cleared(put, drained, i as int) && #[trigger] reported::<N, V>(drained, self.graph.nodes@, parents, i);
                assert(self.graph.nodes@[i as int] == drained[i as int]);
                assert(drained[i as int].clean_parents@ =~= Seq::empty());
                assert forall|j: int| 0 <= j < put.len() && j != i implies if lists(parents, j) {
                    notified::<N, V>(was.graph.nodes@[j], #[trigger] self.graph.nodes@[j], i)
                } else {
                    self.graph.nodes@[j] == was.graph.nodes@[j]
                } by {
                    assert(drained[j] == put[j]);
                }
            }
        }
        let ghost told = self.graph;
        if updated {
            self.graph.nodes[i].last_update = Some(generation);
        }
        self.graph.nodes[i].last_ready = Some(generation);
        self.graph.nodes[i].recalc_state = RecalcState::Ready;
        self.ledger = Ghost(was.entry(self.graph.nodes@, i, inner, updated));
        proof {
            lemma_same_links(told.nodes@, self.graph.nodes@);
            lemma_settled_queue(told.nodes@, self.graph.nodes@, self.graph.recalc_queues@, i as int);
            was.lemma_completed(self, i, inner, updated);
        }
    }

    /// Puts the anchor of node `i`, which has been polled and is not ready, back into its place. If
    /// it is to be frozen the node counts as ready with the output that it had.
    fn put_back(&mut self, i: AnchorToken, inner: N, frozen: bool)
        requires
            old(self).law(i as int),
            i < old(self).graph.nodes@.len(),
            old(self).node == i,
            old(self).graph.nodes@[i as int].alive,
            old(self).graph.nodes@[i as int].anchor is None,
            old(self).graph.nodes@[i as int].recalc_state is NeedsRecalc,
            old(self).polled(i, inner, Poll::Pending),
            frozen ==> old(self).graph.nodes@[i as int].last_ready is Some,
        ensures
            final(self).law(if frozen { -1 } else { i as int }),
            !final(self).ledger@.lost.contains(i) ==> standing(
                final(self).graph.nodes@[i as int],
                final(self).ledger@.told[i],
                final(self).ledger@.seen[i],
            ),
            final(self).ledger@ == old(self).entry_unready(final(self).graph.nodes@, i, inner, frozen),
            *final(self) == (EngineContextMut { graph: final(self).graph, ledger: final(self).ledger, ..*old(self) }),
            final(self).graph.recalc_queues == old(self).graph.recalc_queues,
            old(self).graph.same_but(&final(self).graph, i as int),
            final(self).graph.nodes@[i as int] == (Node {
                anchor: Some(inner),
                recalc_retry: 0,
                recalc_state: if frozen {
                    RecalcState::Ready
                } else {
                    RecalcState::NeedsRecalc
                },
                last_ready: if frozen {
                    Some(old(self).generation)
                } else {
                    old(self).graph.nodes@[i as int].last_ready
                },
                ..old(self).graph.nodes@[i as int]
            }),
    {
        let ghost was = *self;
        proof {
            reveal(EngineContextMut::wf);
        }
        self.graph.nodes[i].recalc_retry = 0;
        self.graph.nodes[i].anchor = Some(inner);
        if frozen {
            let generation: u64 = self.generation;
            self.graph.nodes[i].last_ready = Some(generation);
            self.graph.nodes[i].recalc_state = RecalcState::Ready;
        }
        self.ledger = Ghost(was.entry_unready(self.graph.nodes@, i, inner, frozen));
        proof {
            if frozen {
                was.lemma_displayed_outs(self.graph.nodes@, i);
            } else {
                assert(shows_less(was.graph.nodes@, self.graph.nodes@));
                reveal(outs_wf);
                assert forall|d: AnchorToken, fuel: nat| #[trigger] reading(self.graph.nodes@, d, fuel) is Some implies self.ledger@.outs.contains_key(d) && reading(self.graph.nodes@, d, fuel)->0 == self.ledger@.outs[d] by {
                    lemma_reading_less(was.graph.nodes@, self.graph.nodes@, d, fuel);
                }
            }
            was.lemma_put_back_told(self, i, inner, frozen);
            reveal(seen_wf);
            reveal(steady);
            reveal(lawful);
            reveal(caught_up);
            let a = was.graph.nodes@;
            let b = self.graph.nodes@;
            lemma_same_links(a, b);
            lemma_settled_queue(a, b, self.graph.recalc_queues@, i as int);
            assert forall|j: int| 0 <= j < b.len() implies #[trigger] tidy_at(b, j) by {
                assert(tidy_at(a, j));
            }
            lemma_ordered_same(a, b);
        }
    }

    /// What becomes of the engine when node `i` answers `poll`, with the anchor `inner`, and what is said of it.
    pub open spec fn settles(
        &self,
        later: &Self,
        i: AnchorToken,
        inner: N,
        poll: Poll,
        done: Result<bool, EngineError>,
    ) -> bool {
        let node = self.graph.nodes@[i as int];
        &&& done == outcome(poll, self.pending_on_anchor_get, node.last_ready is Some, i)
        &&& *later == (EngineContextMut {
            graph: later.graph,
            ledger: later.ledger,
            unexpected_pending_log: later.unexpected_pending_log,
            ..*self
        })
        &&& later.graph.last_deleted == self.graph.last_deleted
        &&& later.graph.recalc_queues@.len() == self.graph.recalc_queues@.len()
        &&& if poll.ready() {
            &&& later.ledger@ == self.entry(later.graph.nodes@, i, inner, poll is Updated)
            &&& finished::<N, V>(self.graph.nodes@, later.graph.nodes@, i, inner, poll is Updated, self.generation)
        } else {
            &&& later.ledger@ == self.entry_unready(later.graph.nodes@, i, inner, done == Ok::<bool, EngineError>(true))
            &&& later.graph.recalc_queues == self.graph.recalc_queues
            &&& self.graph.same_but(&later.graph, i as int)
            &&& later.graph.nodes@[i as int] == (Node {
                anchor: Some(inner),
                recalc_retry: 0,
                recalc_state: if done == Ok::<bool, EngineError>(true) {
                    RecalcState::Ready
                } else {
                    RecalcState::NeedsRecalc
                },
                last_ready: if done == Ok::<bool, EngineError>(true) {
                    Some(self.generation)
                } else {
                    node.last_ready
                },
                ..node
            })
        }
        &&& if poll.waiting() && !self.pending_on_anchor_get {
            self.unexpected_pending_log.bumped(&later.unexpected_pending_log, i as u64)
        } else {
            later.unexpected_pending_log == self.unexpected_pending_log
        }
    }

    /// What becomes of a node that answered `poll`, with the anchor `inner`: it is ready, frozen,
    /// or has to be queued again.
    pub fn settle(&mut self, i: AnchorToken, inner: N, poll: Poll) -> (done: Result<bool, EngineError>)
        requires
            old(self).law(i as int),
            i < old(self).graph.nodes@.len(),
            old(self).node == i,
            old(self).graph.nodes@[i as int].alive,
            old(self).graph.nodes@[i as int].anchor is None,
            old(self).graph.nodes@[i as int].recalc_state is NeedsRecalc,
            old(self).polled(i, inner, poll),
        ensures
            old(self).settles(final(self), i, inner, poll, done),
            final(self).law(if done == Ok::<bool, EngineError>(false) { i as int } else { -1 }),
            !final(self).ledger@.lost.contains(i) ==> standing(
                final(self).graph.nodes@[i as int],
                final(self).ledger@.told[i],
                final(self).ledger@.seen[i],
            ),
    {
        let completed: bool = self.graph.nodes[i].last_ready.is_some();
        match poll {
            Poll::Updated => {
                self.complete(i, inner, true);
                proof {
                    self.lemma_standing(i);
                }
                Ok(true)
            },
            Poll::Unchanged => {
                self.complete(i, inner, false);
                proof {
                    self.lemma_standing(i);
                }
                Ok(true)
            },
            Poll::PendingInvalidToken => {
                self.put_back(i, inner, completed);
                if completed {
                    return Ok(true);
                }
                proof {
                    self.lemma_never_ready(i);
                }
                Err(EngineError::InvalidToken { token: i })
            },
            Poll::Pending | Poll::PendingDefer => {
                if self.pending_on_anchor_get {
                    self.put_back(i, inner, false);
                    return Ok(false);
                }
                self.put_back(i, inner, completed);
                if !completed {
                    proof {
                        self.lemma_never_ready(i);
                    }
                }
                let count: u32 = self.unexpected_pending_log.bump(i as u64);
                proof {
                    reveal(EngineContextMut::wf);
                }
                if completed {
                    return Ok(true);
                }
                Err(EngineError::UnexpectedPending { token: i })
            },
        }
    }

    /// Node `i` is unlocked, and queued if it was to be queued while it was locked.
    pub open spec fn unlocks(&self, later: &Self, i: AnchorToken) -> bool {
        let node = self.graph.nodes@[i as int];
        &&& *later == (EngineContextMut { graph: later.graph, ..*self })
        &&& later.graph.recalc_queues@.len() == self.graph.recalc_queues@.len()
        &&& self.graph.same_but(&later.graph, i as int)
        &&& later.graph.nodes@[i as int] == (Node {
            anchor_locked: false,
            pending_recalc: false,
            recalc_state: if node.pending_recalc {
                RecalcState::Pending
            } else {
                node.recalc_state
            },
            ..node
        })
    }

    /// Unlocks node `i`, and queues it if it was to be queued while it was locked.
    fn unlock(&mut self, i: AnchorToken, Ghost(skip): Ghost<int>)
        requires
            old(self).law(skip),
            i < old(self).graph.nodes@.len(),
            old(self).node == i,
            !old(self).ledger@.lost.contains(i) && old(self).graph.nodes@[i as int].anchor is Some ==> standing(
                old(self).graph.nodes@[i as int],
                old(self).ledger@.told[i],
                old(self).ledger@.seen[i],
            ),
        ensures
            final(self).law(skip),
            old(self).graph.nodes@[i as int].pending_recalc && skip == i ==> final(self).law(-1),
            old(self).unlocks(final(self), i),
    {
        let ghost was = *self;
        proof {
            reveal(EngineContextMut::wf);
        }
        self.graph.nodes[i].anchor_locked = false;
        let again: bool = self.graph.nodes[i].pending_recalc;
        self.graph.nodes[i].pending_recalc = false;
        proof {
            lemma_same_links(was.graph.nodes@, self.graph.nodes@);
            lemma_same_states(was.graph.nodes@, self.graph.nodes@, self.graph.recalc_queues@);
        }
        if again {
            self.graph.queue_recalc_force(i);
        }
        proof {
            reveal(told_wf);
            reveal(seen_wf);
                        reveal(steady);
            reveal(lawful);
            reveal(caught_up);
            let a = was.graph.nodes@;
            let b = self.graph.nodes@;
            assert forall|j: int| 0 <= j < b.len() implies #[trigger] tidy_at(b, j) by {
                assert(tidy_at(a, j));
            }
            lemma_ordered_same(a, b);
            lemma_outs_less(a, b, was.ledger@.outs);
        }
    }

    /// What a series of calls by node `i` makes of the engine is still within the law.
    proof fn lemma_evolved(&self, later: &Self, i: AnchorToken)
        requires
            self.law(i as int),
            self.node == i,
            i < self.graph.nodes@.len(),
            self.evolves(later),
        ensures
            later.law(i as int),
    {
        reveal(lawful);
        reveal(caught_up);
        let a = self.graph.nodes@;
        let b = later.graph.nodes@;
        assert forall|k: int| 0 <= k < b.len() && k != i && (#[trigger] b[k]).anchor is Some && !later.ledger@.lost.contains(k as usize) implies node_lawful(
            b[k],
            later.ledger@.told[k as usize],
            later.ledger@.seen[k as usize],
            lists(later.dirty_marks@, k),
        ) by {
            reveal(EngineContextMut::wf);
            assert(b[k].anchor == a[k].anchor && b[k].last_ready == a[k].last_ready);
            assert(later.ledger@.told[k as usize] == self.ledger@.told[k as usize]);
            assert(!self.ledger@.lost.contains(k as usize));
            if lists(self.dirty_marks@, k) {
                let m = choose|m: int| 0 <= m < self.dirty_marks@.len() && #[trigger] self.dirty_marks@[m] == k;
                assert(later.dirty_marks@.subrange(0, self.dirty_marks@.len() as int)[m] == k);
                assert(later.dirty_marks@[m] == k);
            }
        }
    }

    /// The anchor of node `i` has been taken out and polled, and what it answered settles what becomes of the node.
    pub open spec fn recalculated(&self, later: &Self, i: AnchorToken, done: Result<bool, EngineError>) -> bool {
        exists|by: Recalculation<N, V>| #[trigger] self.recalculated_by(later, i, done, by)
    }

    /// `by` is how node `i` was recalculated.
    pub open spec fn recalculated_by(
        &self,
        later: &Self,
        i: AnchorToken,
        done: Result<bool, EngineError>,
        by: Recalculation<N, V>,
    ) -> bool {
        &&& self.hands_over(&by.entered, i, by.inner)
        &&& by.entered.evolves(&by.now)
        &&& by.now.pending_on_anchor_get == unready_since(by.now.ledger@.calls, 0)
        &&& by.inner.polls(&by.answering, &by.entered, &by.now, by.poll)
        &&& by.answering.honest() == by.inner.honest()
        &&& by.answering.outside() == by.inner.outside()
        &&& by.now.polled(i, by.answering, by.poll)
        &&& by.now.settles(&by.settled, i, by.answering, by.poll, done)
        &&& by.settled.unlocks(later, i)
    }

    /// Recalculates node `i`, which has been taken out of the queue, and says whether the
    /// calculation is complete; if not, the node has to be queued again.
    #[verifier::rlimit(60)]
    #[verifier::spinoff_prover]
    pub fn recalculate(&mut self, i: AnchorToken, lock_strict: bool) -> (done: Result<bool, EngineError>)
        requires
            old(self).law(i as int),
            i < old(self).graph.nodes@.len(),
            old(self).node == i,
            old(self).graph.nodes@[i as int].recalc_state is NeedsRecalc,
            !old(self).ledger@.lost.contains(i) && old(self).graph.nodes@[i as int].anchor is Some ==> standing(
                old(self).graph.nodes@[i as int],
                old(self).ledger@.told[i],
                old(self).ledger@.seen[i],
            ),
            idle_but(old(self).graph.nodes@, i as int),
        ensures
            done == Err::<bool, EngineError>(EngineError::AnchorLocked { token: i }) <==> lock_strict
                && old(self).graph.nodes@[i as int].anchor_locked,
            lock_strict && old(self).graph.nodes@[i as int].anchor_locked ==> *final(self) == *old(self),
            !(lock_strict && old(self).graph.nodes@[i as int].anchor_locked) ==> {
                &&& idle_but(final(self).graph.nodes@, i as int)
                &&& !final(self).graph.nodes@[i as int].anchor_locked
                &&& final(self).graph.nodes@[i as int].anchor is Some <==> old(self).graph.nodes@[i as int].anchor is Some
                &&& old(self).graph.nodes@[i as int].anchor is None ==> done == Ok::<bool, EngineError>(true)
                &&& !final(self).ledger@.lost.contains(i) && final(self).graph.nodes@[i as int].anchor is Some ==> standing(
                    final(self).graph.nodes@[i as int],
                    final(self).ledger@.told[i],
                    final(self).ledger@.seen[i],
                )
                &&& done == Ok::<bool, EngineError>(true) && old(self).graph.nodes@[i as int].anchor is Some ==> {
                    &&& final(self).graph.nodes@[i as int].last_ready == Some(old(self).generation)
                    &&& !(final(self).graph.nodes@[i as int].recalc_state is NeedsRecalc)
                }
                &&& final(self).law(if done == Ok::<bool, EngineError>(false) { i as int } else { -1 })
                &&& done is Err ==> done == Err::<bool, EngineError>(EngineError::InvalidToken { token: i }) || done == Err::<
                    bool,
                    EngineError,
                >(EngineError::UnexpectedPending { token: i })
                &&& done is Err ==> old(self).graph.nodes@[i as int].last_ready is None
                    && final(self).graph.nodes@[i as int].last_ready is None
                &&& old(self).graph.nodes@[i as int].anchor is Some ==> old(self).recalculated(final(self), i, done)
                &&& old(self).graph.nodes@[i as int].anchor is None ==> exists|start: Self| #[trigger]
                    old(self).takes_over(&start, i) && start.unlocks(final(self), i)
            },
            final(self).graph.nodes@.len() == old(self).graph.nodes@.len(),
            final(self).graph.nodes@[i as int].alive == old(self).graph.nodes@[i as int].alive,
            final(self).node == i,
            old(self).same_fixed(final(self)),
    {
        let ghost was = *self;
        if self.graph.nodes[i].anchor_locked {
            if lock_strict {
                return Err(EngineError::AnchorLocked { token: i });
            }
            let retry: u32 = self.graph.nodes[i].recalc_retry.saturating_add(1);
            self.graph.nodes[i].recalc_retry = retry;
            self.graph.nodes[i].anchor_locked = false;
        }
        proof {
            self.lemma_retried(&was, i);
        }
        let ghost start = *self;
        assert(was.takes_over(&start, i));
        if self.graph.nodes[i].anchor.is_none() {
            self.unlock(i, Ghost(i as int));
            proof {
                reveal(lawful);
                reveal(caught_up);
            }
            return Ok(true);
        }
        let mut inner: N = self.enter(i);
        let ghost entered = *self;
        let ghost before = inner;
        proof {
            reveal(EngineContextMut::wf);
        }
        assert(was.hands_over(&entered, i, before));
        let poll = inner.poll_updated(self);
        proof {
            entered.lemma_evolved(self, i);
            entered.evolves_keeps(self);
            assert(self.graph.nodes@[i as int].anchor == entered.graph.nodes@[i as int].anchor);
            assert(self.polled(i, inner, poll));
        }
        let ghost now = *self;
        let done = self.settle(i, inner, poll);
        let ghost settled = *self;
        self.unlock(i, Ghost(if done == Ok::<bool, EngineError>(false) { i as int } else { -1 }));
        assert(was.recalculated(self, i, done)) by {
            let by = Recalculation { entered, inner: before, now, answering: inner, poll, settled };
            assert(was.recalculated_by(self, i, done, by));
        }
        proof {
            let a = was.graph.nodes@;
            let b = self.graph.nodes@;
            assert forall|j: int| 0 <= j < b.len() && j != i implies {
                &&& (#[trigger] b[j]).alive ==> b[j].anchor is Some
                &&& !b[j].anchor_locked
            } by {
                assert(entered.graph.nodes@[j] == a[j]);
                assert(now.graph.nodes@[j].anchor == a[j].anchor);
                if poll.ready() {
                    if poll is Updated && lists(now.graph.nodes@[i as int].clean_parents@, j) {
                        assert(notified::<N, V>(now.graph.nodes@[j], settled.graph.nodes@[j], i));
                    }
                }
                assert(b[j] == settled.graph.nodes@[j]);
            }
            assert forall|j: int| 0 <= j < a.len() implies {
                &&& (#[trigger] b[j]).alive == a[j].alive
                &&& b[j].observed == a[j].observed
                &&& a[j].anchor is Some ==> b[j].anchor is Some && b[j].anchor->0.outside() == a[j].anchor->0.outside()
            } by {
                if j != i {
                    assert(entered.graph.nodes@[j] == a[j]);
                    assert(now.graph.nodes@[j].anchor == a[j].anchor);
                    assert(b[j] == settled.graph.nodes@[j]);
                } else {
                    assert(settled.graph.nodes@[j].anchor == Some(inner));
                }
                assert(now.graph.nodes@[j].alive == a[j].alive && now.graph.nodes@[j].observed == a[j].observed);
                if j != i && poll is Updated && lists(now.graph.nodes@[i as int].clean_parents@, j) {
                    assert(notified::<N, V>(now.graph.nodes@[j], settled.graph.nodes@[j], i));
                }
            }
        }
        done
    }

    proof fn lemma_retried(&self, was: &Self, i: AnchorToken)
        requires
            was.law(i as int),
            i < was.graph.nodes@.len(),
            was.node == i,
            *self == (EngineContextMut { graph: self.graph, ..*was }),
            self.graph.recalc_queues == was.graph.recalc_queues,
            was.graph.same_but(&self.graph, i as int),
            self.graph.nodes@[i as int] == (Node {
                recalc_retry: self.graph.nodes@[i as int].recalc_retry,
                anchor_locked: false,
                ..was.graph.nodes@[i as int]
            }),
        ensures
            self.law(i as int),
    {
        reveal(EngineContextMut::wf);
        reveal(told_wf);
        reveal(seen_wf);
                reveal(steady);
        reveal(lawful);
        reveal(caught_up);
        let a = was.graph.nodes@;
        let b = self.graph.nodes@;
        lemma_same_links(a, b);
        lemma_same_states(a, b, self.graph.recalc_queues@);
        assert forall|j: int| 0 <= j < b.len() implies #[trigger] tidy_at(b, j) by {
            assert(tidy_at(a, j));
        }
        lemma_ordered_same(a, b);
        lemma_outs_less(a, b, was.ledger@.outs);
    }

    /// What a recalculation leaves as it is.
    pub open spec fn same_fixed(&self, later: &Self) -> bool {
        &&& later.generation == self.generation
        &&& later.defer_disabled == self.defer_disabled
        &&& later.graph.last_deleted == self.graph.last_deleted
        &&& later.graph.recalc_queues@.len() == self.graph.recalc_queues@.len()
        &&& later.pending_stats.grown(self.pending_stats)
        &&& self.dirty_marks@.is_prefix_of(later.dirty_marks@)
        &&& same_needs(self.graph.nodes@, later.graph.nodes@)
    }

    proof fn lemma_standing(&self, i: AnchorToken)
        requires
            self.law(-1),
            i < self.graph.nodes@.len(),
            self.graph.nodes@[i as int].anchor is Some,
        ensures
            !self.ledger@.lost.contains(i) ==> standing(self.graph.nodes@[i as int], self.ledger@.told[i], self.ledger@.seen[i]),
    {
        reveal(lawful);
        reveal(caught_up);
    }

    /// Of a node that was never ready the law asks only that its anchor is standing.
    proof fn lemma_never_ready(&self, i: AnchorToken)
        requires
            self.law(i as int),
            i < self.graph.nodes@.len(),
            self.graph.nodes@[i as int].last_ready is None,
            !self.ledger@.lost.contains(i) ==> standing(self.graph.nodes@[i as int], self.ledger@.told[i], self.ledger@.seen[i]),
        ensures
            self.law(-1),
    {
        reveal(EngineContextMut::wf);
        reveal(lawful);
        reveal(caught_up);
        assert forall|k: int| 0 <= k < self.graph.nodes@.len() && k != -1 && (#[trigger] self.graph.nodes@[k]).anchor is Some && !self.ledger@.lost.contains(k as usize) implies node_lawful(
            self.graph.nodes@[k],
            self.ledger@.told[k as usize],
            self.ledger@.seen[k as usize],
            lists(self.dirty_marks@, k),
        ) by {
            if k == i {
                assert(!(self.graph.nodes@[k].recalc_state is Ready));
            }
        }
    }

    /// What nodes were told stays in order when a node is put back.
    proof fn lemma_put_back_told(&self, later: &Self, i: AnchorToken, inner: N, frozen: bool)
        requires
            told_wf(self.graph.nodes@, self.ledger@),
            later.ledger@ == self.entry_unready(later.graph.nodes@, i, inner, frozen),
            self.graph.same_but(&later.graph, i as int),
            i < self.graph.nodes@.len(),
            later.graph.nodes@[i as int].clean_parents == self.graph.nodes@[i as int].clean_parents,
        ensures
            told_wf(later.graph.nodes@, later.ledger@),
    {
        reveal(told_wf);
        let b = later.graph.nodes@;
        assert forall|j: AnchorToken, d: AnchorToken| #![trigger later.ledger@.told[j].contains_key(d)] j < b.len() && later.ledger@.told[j].contains_key(d) implies {
            &&& d < b.len()
            &&& lists(b[d as int].clean_parents@, j as int)
            &&& later.ledger@.outs.contains_key(d)
            &&& later.ledger@.told[j][d] == later.ledger@.outs[d] || later.ledger@.silent.contains(d)
        } by {
            assert(self.ledger@.told[j].contains_key(d));
        }
    }

    proof fn lemma_completed(&self, later: &Self, i: AnchorToken, inner: N, updated: bool)
        requires
            self.law(i as int),
            i < self.graph.nodes@.len(),
            self.node == i,
            self.graph.nodes@[i as int].alive,
            self.graph.nodes@[i as int].anchor is None,
            self.polled(i, inner, if updated { Poll::Updated } else { Poll::Unchanged }),
            later.graph.wf(),
            later.ledger@ == self.entry(later.graph.nodes@, i, inner, updated),
            *later == (EngineContextMut { graph: later.graph, ledger: later.ledger, ..*self }),
            finished::<N, V>(self.graph.nodes@, later.graph.nodes@, i, inner, updated, self.generation),
        ensures
            later.law(-1),
    {
        reveal(EngineContextMut::wf);
        let a = self.graph.nodes@;
        let b = later.graph.nodes@;
        self.lemma_completed_plain(later, i, inner, updated);
        assert(caught_up::<V, N>(b, later.dirty_marks@)) by {
            reveal(caught_up);
            assert forall|j: int| 0 <= j < b.len() && (#[trigger] b[j]).anchor is Some && b[j].recalc_state is Ready && b[j].anchor->0.outside() is Some && !lists(later.dirty_marks@, j) implies b[j].anchor->0.current() by {
                if j != i && updated && lists(a[i as int].clean_parents@, j) {
                    assert(notified::<N, V>(a[j], b[j], i));
                }
                if j != i {
                    assert(a[j].anchor is Some);
                }
            }
        }
        self.lemma_completed_outs(later, i, inner, updated);
        self.lemma_completed_ledger(later, i, inner, updated);
        self.lemma_completed_law(later, i, inner, updated);
    }

    /// The outputs stay in order when a poll is completed.
    proof fn lemma_completed_outs(&self, later: &Self, i: AnchorToken, inner: N, updated: bool)
        requires
            self.law(i as int),
            i < self.graph.nodes@.len(),
            self.graph.nodes@[i as int].alive,
            later.ledger@ == self.entry(later.graph.nodes@, i, inner, updated),
            finished::<N, V>(self.graph.nodes@, later.graph.nodes@, i, inner, updated, self.generation),
        ensures
            outs_wf(later.graph.nodes@, later.ledger@.outs),
    {
        reveal(EngineContextMut::wf);
        let a = self.graph.nodes@;
        let b = later.graph.nodes@;
        assert forall|j: int| 0 <= j < b.len() && j != i && (#[trigger] b[j]).anchor is Some && b[j].last_ready is Some && b[j].anchor->0.alias() is None implies {
            &&& a[j].anchor is Some
            &&& a[j].last_ready is Some
            &&& a[j].anchor->0.alias() is None
            &&& a[j].anchor->0.own() == b[j].anchor->0.own()
        } by {
            if updated && lists(a[i as int].clean_parents@, j) {
                assert(notified::<N, V>(a[j], b[j], i));
            }
        }
        self.lemma_displayed_outs(b, i);
    }

    /// What does not rest on the ledger stays in order when a poll is completed.
    proof fn lemma_completed_plain(&self, later: &Self, i: AnchorToken, inner: N, updated: bool)
        requires
            self.law(i as int),
            i < self.graph.nodes@.len(),
            self.node == i,
            self.graph.nodes@[i as int].alive,
            self.graph.nodes@[i as int].anchor is None,
            self.polled(i, inner, if updated { Poll::Updated } else { Poll::Unchanged }),
            later.graph.wf(),
            later.ledger@ == self.entry(later.graph.nodes@, i, inner, updated),
            *later == (EngineContextMut { graph: later.graph, ledger: later.ledger, ..*self }),
            finished::<N, V>(self.graph.nodes@, later.graph.nodes@, i, inner, updated, self.generation),
        ensures
            tidy(later.graph.nodes@),
            forall|j: int| 0 <= j < later.graph.nodes@.len() ==> !(#[trigger] later.graph.nodes@[j]).visited,
            generations_past(later.graph.nodes@, later.generation),
            anchors_wf(later.graph.nodes@),
            forall|j: int|
                0 <= j < later.graph.nodes@.len() && (#[trigger] later.graph.nodes@[j]).alive
                    && later.graph.nodes@[j].anchor is None ==> j == later.node,
            forall|j: int|
                0 <= j < later.graph.nodes@.len() && (#[trigger] later.graph.nodes@[j]).anchor_locked ==> j == later.node,
            ordered(self.graph.nodes@) ==> ordered(later.graph.nodes@),
            announced_wf(later.graph.nodes@, later.ledger@.outs),
            gone_wf(later.graph.nodes@),
            served(later.graph.nodes@, later.ledger@.lost, i),
    {
        reveal(EngineContextMut::wf);
        let a = self.graph.nodes@;
        let b = later.graph.nodes@;
        let parents = a[i as int].clean_parents@;
        assert forall|j: int| 0 <= j < b.len() implies {
            &&& (#[trigger] b[j]).observed == a[j].observed
            &&& b[j].alive == a[j].alive
            &&& b[j].visited == a[j].visited
            &&& b[j].anchor_locked == a[j].anchor_locked
            &&& b[j].necessary_count == a[j].necessary_count
            &&& b[j].necessary_children == a[j].necessary_children
            &&& b[j].height == a[j].height
            &&& j != i ==> b[j].clean_parents == a[j].clean_parents && b[j].last_ready == a[j].last_ready
                && b[j].last_update == a[j].last_update
            &&& b[j].recalc_state is NeedsRecalc ==> a[j].recalc_state is NeedsRecalc
            &&& b[j].anchor is Some ==> a[j].anchor is Some || j == i
        } by {
            if j != i && updated && lists(parents, j) {
                assert(notified::<N, V>(a[j], b[j], i));
            }
        }
        assert forall|j: int| 0 <= j < b.len() && !(#[trigger] b[j]).alive implies b[j].anchor is None && b[j].last_ready is None by {
            assert(!a[j].alive);
        }
        assert forall|j: int| 0 <= j < b.len() implies #[trigger] tidy_at(b, j) by {
            assert(tidy_at(a, j));
            assert(b[j].observed == a[j].observed);
        }
        assert forall|j: int| 0 <= j < b.len() && (#[trigger] b[j]).anchor is Some implies {
            &&& b[j].anchor->0.inv()
            &&& b[j].last_ready is Some ==> b[j].anchor->0.had()
            &&& b[j].recalc_state is Ready ==> b[j].last_ready is Some
        } by {
            if j != i && updated && lists(parents, j) {
                assert(notified::<N, V>(a[j], b[j], i));
                assert(a[j].anchor is Some);
            }
        }
        assert forall|j: int| 0 <= j < b.len() && (#[trigger] b[j]).alive && b[j].anchor is None implies j == later.node by {
            if j != i && updated && lists(parents, j) {
                assert(notified::<N, V>(a[j], b[j], i));
            }
            assert(a[j].alive);
        }
        if ordered(a) {
            assert forall|c: int, k: int| 0 <= c < b.len() && 0 <= k < b[c].clean_parents@.len() && !b[c].visited implies b[c].height < b[(#[trigger] b[c].clean_parents@[k]) as int].height by {
                let p = a[c].clean_parents@[k];
                assert(b[c].clean_parents@[k] == p);
                assert(in_range(a[c].clean_parents@, a.len()));
                assert(p < a.len());
                assert(a[c].height < a[p as int].height);
                assert(b[p as int].height == a[p as int].height);
            }
        }
        assert forall|j: int| 0 <= j < b.len() && ((#[trigger] b[j]).last_ready is Some || b[j].last_update is Some) implies later.ledger@.outs.contains_key(j as usize) by {
            if j != i {
                assert(a[j].last_ready == b[j].last_ready && a[j].last_update == b[j].last_update);
            }
        }
        assert forall|d: AnchorToken| #[trigger] later.ledger@.outs.contains_key(d) implies d < b.len() && (b[d as int].last_ready is Some || !b[d as int].alive) by {
            if display(b, d) is Some {
                let fuel = choose|fuel: nat| #[trigger] reading(b, d, fuel) is Some;
                assert(b[d as int].anchor is Some);
            } else if d != i {
                assert(self.ledger@.outs.contains_key(d));
                assert(b[d as int].alive == a[d as int].alive);
            }
        }
        assert forall|j: int| 0 <= j < b.len() && j != i && (#[trigger] b[j]).alive && b[j].recalc_state is NeedsRecalc && !later.ledger@.lost.contains(j as usize) implies unneeded(b[j]) by {
            assert(a[j].alive);
            assert(b[j].observed == a[j].observed);
        }
    }

    /// The ledger stays in order when a poll is completed.
    #[verifier::rlimit(30)]
    proof fn lemma_completed_ledger(&self, later: &Self, i: AnchorToken, inner: N, updated: bool)
        requires
            self.law(i as int),
            i < self.graph.nodes@.len(),
            self.node == i,
            self.graph.nodes@[i as int].alive,
            self.graph.nodes@[i as int].anchor is None,
            self.polled(i, inner, if updated { Poll::Updated } else { Poll::Unchanged }),
            later.graph.wf(),
            later.ledger@ == self.entry(later.graph.nodes@, i, inner, updated),
            *later == (EngineContextMut { graph: later.graph, ledger: later.ledger, ..*self }),
            finished::<N, V>(self.graph.nodes@, later.graph.nodes@, i, inner, updated, self.generation),
        ensures
            told_wf(later.graph.nodes@, later.ledger@),
            seen_wf(later.graph.nodes@, later.ledger@, later.generation),
            steady(later.graph.nodes@, later.ledger@, i),
    {
        reveal(EngineContextMut::wf);
        reveal(told_wf);
        reveal(seen_wf);
        reveal(steady);
        let a = self.graph.nodes@;
        let b = later.graph.nodes@;
        let parents = a[i as int].clean_parents@;
        let outs = self.ledger@.outs;
        let told = self.trimmed(i, inner);
        let seen = self.ledger@.seen;
        assert forall|j: AnchorToken, d: AnchorToken| #[trigger] told[j].contains_key(d) implies self.ledger@.told[j].contains_key(d) && told[j][d]
            == self.ledger@.told[j][d] by {
        }
        assert forall|j: int| 0 <= j < b.len() && j != i implies {
            &&& (#[trigger] b[j]).clean_parents == a[j].clean_parents
            &&& b[j].last_ready == a[j].last_ready
            &&& b[j].last_update == a[j].last_update
            &&& b[j].alive == a[j].alive
            &&& b[j].recalc_state is NeedsRecalc ==> a[j].recalc_state is NeedsRecalc
        } by {
            if updated && lists(parents, j) {
                assert(notified::<N, V>(a[j], b[j], i));
            }
        }
        assert(!told[i].contains_key(i)) by {
            if told[i].contains_key(i) {
                assert(lists(a[i as int].clean_parents@, i as int));
            }
        }
        assert forall|j: AnchorToken, d: AnchorToken| #![trigger later.ledger@.told[j].contains_key(d)] j < b.len() && later.ledger@.told[j].contains_key(d) implies {
            &&& d < b.len()
            &&& d != i || !updated
            &&& lists(b[d as int].clean_parents@, j as int)
            &&& later.ledger@.outs.contains_key(d)
            &&& later.ledger@.told[j][d] == later.ledger@.outs[d] || later.ledger@.silent.contains(d)
        } by {
            assert(told[j].contains_key(d));
        }
        assert forall|j: AnchorToken, d: AnchorToken| #![trigger later.ledger@.told[j].contains_key(d)] j < b.len() && d < b.len() && later.ledger@.told[j].contains_key(d) implies {
            &&& b[d as int].alive
            &&& d == i || later.ledger@.lost.contains(d) || !(b[d as int].recalc_state is NeedsRecalc)
        } by {
            assert(told[j].contains_key(d));
            if d != i {
                assert(b[d as int].alive == a[d as int].alive);
            }
        }
        assert forall|j: AnchorToken, d: AnchorToken| #![trigger later.ledger@.seen[j].contains_key(d)] j < b.len() && d < b.len() && !later.ledger@.lost.contains(j) && later.ledger@.seen[j].contains_key(d) && freshness(b[d as int].last_update, b[j as int].last_ready, later.generation) is Unchanged implies later.ledger@.seen[j][d] == later.ledger@.outs[d] || later.ledger@.silent.contains(d) by {
            if j == i {
                assert(told[i].contains_key(d));
                assert(d != i);
            } else {
                assert(seen[j].contains_key(d));
                assert(b[j as int].last_ready == a[j as int].last_ready);
                if d != i {
                    assert(b[d as int].last_update == a[d as int].last_update);
                }
                assert(!self.ledger@.lost.contains(j));
                if display(b, d) is Some && !self.ledger@.outs.contains_key(d) {
                    let fuel = choose|fuel: nat| #[trigger] reading(b, d, fuel) is Some;
                    assert(b[d as int].anchor is Some && b[d as int].recalc_state is Ready);
                    if d != i {
                        assert(a[d as int] == b[d as int]);
                    }
                }
            }
        }
    }

    /// The law stays in force when a poll is completed.
    proof fn lemma_completed_law(&self, later: &Self, i: AnchorToken, inner: N, updated: bool)
        requires
            self.law(i as int),
            i < self.graph.nodes@.len(),
            self.node == i,
            self.graph.nodes@[i as int].alive,
            self.graph.nodes@[i as int].anchor is None,
            self.polled(i, inner, if updated { Poll::Updated } else { Poll::Unchanged }),
            later.graph.wf(),
            later.ledger@ == self.entry(later.graph.nodes@, i, inner, updated),
            *later == (EngineContextMut { graph: later.graph, ledger: later.ledger, ..*self }),
            finished::<N, V>(self.graph.nodes@, later.graph.nodes@, i, inner, updated, self.generation),
        ensures
            lawful(later.graph.nodes@, later.ledger@, later.dirty_marks@, -1),
    {
        reveal(EngineContextMut::wf);
        reveal(told_wf);
        reveal(lawful);
        reveal(caught_up);
        let a = self.graph.nodes@;
        let b = later.graph.nodes@;
        let parents = a[i as int].clean_parents@;
        let told = self.trimmed(i, inner);
        assert forall|j: AnchorToken, d: AnchorToken| #[trigger] told[j].contains_key(d) implies self.ledger@.told[j].contains_key(d) && told[j][d]
            == self.ledger@.told[j][d] by {
        }
        if self.answers_for(i, inner) {
            assert(told[i].submap_of(self.ledger@.told[i]));
            inner.less_told(self.ledger@.told[i], told[i]);
        }
        assert(!told[i].contains_key(i)) by {
            if told[i].contains_key(i) {
                assert(lists(a[i as int].clean_parents@, i as int));
            }
        }
        assert(later.ledger@.told[i] =~= told[i]);
        assert forall|k: int| 0 <= k < b.len() && k != -1 && (#[trigger] b[k]).anchor is Some && !later.ledger@.lost.contains(k as usize) implies node_lawful(
            b[k],
            later.ledger@.told[k as usize],
            later.ledger@.seen[k as usize],
            lists(later.dirty_marks@, k),
        ) by {
            if k != i {
                if updated && lists(parents, k) {
                    assert(notified::<N, V>(a[k], b[k], i));
                    assert(a[k].anchor is Some);
                    assert(!a[k].anchor_locked);
                    assert(heard::<N, V>(a[k].anchor->0, b[k].anchor->0, i));
                    assert(a[k].anchor->0.holds(told[k as usize]));
                    assert(b[k].anchor->0.holds(told[k as usize].remove(i)));
                } else {
                    assert(a[k] == b[k]);
                    if updated {
                        if told[k as usize].contains_key(i) {
                            assert(lists(parents, k));
                        }
                        assert(later.ledger@.told[k as usize] =~= told[k as usize]);
                    }
                }
            }
        }
    }

    proof fn lemma_entered(&self, was: &Self, i: AnchorToken)
        requires
            was.law(i as int),
            i < was.graph.nodes@.len(),
            was.graph.nodes@[i as int].anchor is Some,
            was.node == i,
            idle_but(was.graph.nodes@, i as int),
            self.ledger@ == (Ledger { calls: Seq::<Call>::empty(), ..was.ledger@ }),
            *self == (EngineContextMut {
                graph: self.graph,
                node: i,
                pending_on_anchor_get: false,
                invalid_token_requested: false,
                ledger: self.ledger,
                ..*was
            }),
            was.graph.same_but(&self.graph, i as int),
            self.graph.recalc_queues == was.graph.recalc_queues,
            self.graph.nodes@[i as int] == (Node {
                anchor: None,
                anchor_locked: true,
                pending_dirty: self.graph.nodes@[i as int].pending_dirty,
                ..was.graph.nodes@[i as int]
            }),
            self.graph.nodes@[i as int].pending_dirty@.len() == 0,
        ensures
            self.law(i as int),
            was.graph.nodes@[i as int].last_ready is Some && was.graph.nodes@[i as int].anchor->0.alias() is None ==> was.ledger@.outs.contains_key(i)
                && was.graph.nodes@[i as int].anchor->0.own() == was.ledger@.outs[i],
    {
        reveal(EngineContextMut::wf);
        reveal(told_wf);
        reveal(seen_wf);
                reveal(steady);
        reveal(lawful);
        reveal(caught_up);
        let a = was.graph.nodes@;
        let b = self.graph.nodes@;
        lemma_links_at(a, b, i as int);
        lemma_same_states(a, b, self.graph.recalc_queues@);
        assert forall|j: int| 0 <= j < b.len() implies #[trigger] tidy_at(b, j) by {
            assert(tidy_at(a, j));
        }
        lemma_ordered_same(a, b);
        lemma_outs_less(a, b, was.ledger@.outs);
        assert(was.graph.nodes@[i as int].last_ready is Some && was.graph.nodes@[i as int].anchor->0.alias() is None ==> was.ledger@.outs.contains_key(i)
            && was.graph.nodes@[i as int].anchor->0.own() == was.ledger@.outs[i]) by {
            reveal(outs_wf);
        }
    }
}

/// How the nodes come out when node `i` completes a poll in generation `generation`.
pub open spec fn finished<N, V>(
    a: Seq<Node<N>>,
    b: Seq<Node<N>>,
    i: AnchorToken,
    inner: N,
    updated: bool,
    generation: u64,
) -> bool where N: AnchorInner<EngineContextMut<N, V>, Output = V> {
    &&& a.len() == b.len()
    &&& b[i as int] == (Node {
        anchor: Some(inner),
        recalc_retry: 0,
        recalc_state: RecalcState::Ready,
        last_ready: Some(generation),
        last_update: if updated {
            Some(generation)
        } else {
            a[i as int].last_update
        },
        clean_parents: b[i as int].clean_parents,
        ..a[i as int]
    })
    &&& b[i as int].clean_parents@ == (if updated {
        Seq::empty()
    } else {
        a[i as int].clean_parents@
    })
    &&& forall|j: int|
        0 <= j < a.len() && j != i ==> if updated && lists(a[i as int].clean_parents@, j) {
            notified::<N, V>(a[j], #[trigger] b[j], i)
        } else {
            b[j] == a[j]
        }
}

/// Links stay in order where node `i` has nothing to hear of any more.
proof fn lemma_links_at<N>(a: Seq<Node<N>>, b: Seq<Node<N>>, i: int)
    requires
        links_wf(a),
        a.len() == b.len(),
        0 <= i < a.len(),
        forall|j: int| 0 <= j < a.len() && j != i ==> #[trigger] b[j] == a[j],
        b[i].clean_parents@ == a[i].clean_parents@,
        b[i].necessary_children@ == a[i].necessary_children@,
        b[i].necessary_count == a[i].necessary_count,
        b[i].pending_dirty@.len() == 0 || b[i].pending_dirty@ == a[i].pending_dirty@,
    ensures
        links_wf(b),
{
    assert forall|c: int| #[trigger] necessary_parents(b, c) == necessary_parents(a, c) by {
        assert(necessary_parents(b, c) =~= necessary_parents(a, c));
    }
    assert forall|j: int| 0 <= j < b.len() implies {
        &&& in_range((#[trigger] b[j]).clean_parents@, b.len())
        &&& in_range(b[j].necessary_children@, b.len())
        &&& in_range(b[j].pending_dirty@, b.len())
        &&& b[j].clean_parents@.no_duplicates()
        &&& !lists(b[j].clean_parents@, j)
        &&& b[j].necessary_children@.no_duplicates()
        &&& b[j].necessary_count == necessary_parents(b, j).len()
    } by {
        assert(in_range(a[j].clean_parents@, a.len()));
    }
}

/// The queue stays in order when a node that is not in it becomes ready.
proof fn lemma_settled_queue<N>(a: Seq<Node<N>>, b: Seq<Node<N>>, queues: Seq<Vec<AnchorToken>>, i: int)
    requires
        queue_wf(a, queues),
        a.len() == b.len(),
        0 <= i < a.len(),
        forall|j: int| 0 <= j < a.len() && j != i ==> #[trigger] b[j] == a[j],
        !(a[i].recalc_state is Pending),
        !(b[i].recalc_state is Pending),
        b[i].height == a[i].height,
    ensures
        queue_wf(b, queues),
{
    assert forall|j: int| 0 <= j < b.len() implies (#[trigger] b[j]).height < queues.len() && (b[j].recalc_state is Pending ==> queued(queues, j)) by {
        assert(a[j].height < queues.len());
    }
    assert forall|h: int, k: int| #[trigger] at(queues, h, k) implies queues[h]@[k] < b.len() && b[queues[h]@[k] as int].recalc_state is Pending by {
        assert(a[queues[h]@[k] as int].recalc_state is Pending);
    }
}

/// The order of heights rests on heights and links alone.
pub proof fn lemma_ordered_same<N>(a: Seq<Node<N>>, b: Seq<Node<N>>)
    requires
        links_wf(a),
        a.len() == b.len(),
        forall|j: int|
            0 <= j < a.len() ==> (#[trigger] b[j]).height == a[j].height && b[j].clean_parents@ == a[j].clean_parents@
                && b[j].visited == a[j].visited,
    ensures
        ordered(a) ==> ordered(b),
{
    if ordered(a) {
        assert forall|c: int, k: int| 0 <= c < b.len() && 0 <= k < b[c].clean_parents@.len() && !b[c].visited implies b[c].height < b[(#[trigger] b[c].clean_parents@[k]) as int].height by {
            let p = a[c].clean_parents@[k];
            assert(b[c].clean_parents@[k] == p);
            assert(in_range(a[c].clean_parents@, a.len()));
            assert(p < a.len());
            assert(a[c].height < a[p as int].height);
            assert(b[p as int].height == a[p as int].height);
        }
    }
}

} // verus!
