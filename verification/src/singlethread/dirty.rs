//! How a change reaches the nodes that were calculated from what changed.

use crate::expert::{AnchorInner, AnchorToken};
use crate::singlethread::context::{check_observed_raw, EngineContextMut, ObservedState};
use crate::singlethread::graph2::{
    contains, in_range, lemma_same_links, lemma_same_states, links_wf, lists, necessary_parents, unneeded, Graph2, Node,
    RecalcState,
};
use vstd::prelude::*;

verus! {

/// What an anchor makes of the report that `child` has changed.
pub open spec fn heard<N, V>(x: N, y: N, child: AnchorToken) -> bool where
    N: AnchorInner<EngineContextMut<N, V>, Output = V>,
 {
    &&& y.inv()
    &&& x.hears(&y, child)
    &&& y.had() == x.had()
    &&& y.current() == x.current()
    &&& y.honest() == x.honest()
    &&& y.alias() == x.alias()
    &&& y.own() == x.own()
    &&& y.outside() == x.outside()
    &&& forall|told: Map<AnchorToken, V>|
        #![auto]
        x.holds(told) ==> y.holds(told) && y.holds(told.remove(child))
    &&& forall|seen: Map<AnchorToken, V>| #![auto] x.right(seen) ==> y.right(seen)
}

/// How a node comes out of the report that `child` has changed: it is queued, and its anchor has
/// heard of it or will hear of it when it is unlocked.
pub open spec fn notified<N, V>(a: Node<N>, b: Node<N>, child: AnchorToken) -> bool where
    N: AnchorInner<EngineContextMut<N, V>, Output = V>,
 {
    if a.anchor_locked {
        &&& b == (Node {
            pending_dirty: b.pending_dirty,
            pending_recalc: true,
            recalc_state: RecalcState::Pending,
            ..a
        })
        &&& b.pending_dirty@ == (if a.pending_dirty@.contains(child) {
            a.pending_dirty@
        } else {
            a.pending_dirty@.push(child)
        })
    } else {
        &&& b == (Node { anchor: b.anchor, recalc_state: RecalcState::Pending, ..a })
        &&& b.anchor is Some <==> a.anchor is Some
        &&& a.anchor is Some ==> heard::<N, V>(a.anchor->0, b.anchor->0, child)
    }
}

/// How many nodes are ready.
pub open spec fn ready_count<N>(nodes: Seq<Node<N>>) -> nat
    decreases nodes.len(),
{
    if nodes.len() == 0 {
        0
    } else {
        ready_count(nodes.drop_last()) + (if nodes.last().recalc_state is Ready {
            1nat
        } else {
            0
        })
    }
}

proof fn lemma_not_more_ready<N>(a: Seq<Node<N>>, b: Seq<Node<N>>)
    requires
        a.len() == b.len(),
        forall|j: int| 0 <= j < a.len() && (#[trigger] b[j]).recalc_state is Ready ==> a[j].recalc_state is Ready,
    ensures
        ready_count(b) <= ready_count(a),
    decreases a.len(),
{
    if a.len() > 0 {
        assert forall|j: int| 0 <= j < a.len() - 1 && (#[trigger] b.drop_last()[j]).recalc_state is Ready implies a.drop_last()[j].recalc_state is Ready by {
            assert(b[j].recalc_state is Ready);
        }
        lemma_not_more_ready(a.drop_last(), b.drop_last());
        assert(b[a.len() - 1].recalc_state is Ready ==> a[a.len() - 1].recalc_state is Ready);
    }
}

proof fn lemma_fewer_ready<N>(a: Seq<Node<N>>, b: Seq<Node<N>>, i: int)
    requires
        a.len() == b.len(),
        0 <= i < a.len(),
        forall|j: int| 0 <= j < a.len() && (#[trigger] b[j]).recalc_state is Ready ==> a[j].recalc_state is Ready,
        a[i].recalc_state is Ready,
        !(b[i].recalc_state is Ready),
    ensures
        ready_count(b) < ready_count(a),
    decreases a.len(),
{
    assert forall|j: int| 0 <= j < a.len() - 1 && (#[trigger] b.drop_last()[j]).recalc_state is Ready implies a.drop_last()[j].recalc_state is Ready by {
        assert(b[j].recalc_state is Ready);
    }
    assert(b[a.len() - 1].recalc_state is Ready ==> a[a.len() - 1].recalc_state is Ready);
    if i == a.len() - 1 {
        lemma_not_more_ready(a.drop_last(), b.drop_last());
    } else {
        lemma_fewer_ready(a.drop_last(), b.drop_last(), i);
    }
}

/// All anchors are in order.
pub open spec fn anchors_inv<N, V>(nodes: Seq<Node<N>>) -> bool where
    N: AnchorInner<EngineContextMut<N, V>, Output = V>,
 {
    forall|i: int| 0 <= i < nodes.len() && (#[trigger] nodes[i]).anchor is Some ==> nodes[i].anchor->0.inv()
}

/// `b` is what becomes of `a` when `child` reports a change to each of `parents`.
pub open spec fn reported<N, V>(a: Seq<Node<N>>, b: Seq<Node<N>>, parents: Seq<AnchorToken>, child: AnchorToken) -> bool where
    N: AnchorInner<EngineContextMut<N, V>, Output = V>,
 {
    &&& a.len() == b.len()
    &&& forall|j: int|
        0 <= j < a.len() ==> if lists(parents, j) {
            notified::<N, V>(a[j], #[trigger] b[j], child)
        } else {
            b[j] == a[j]
        }
}

/// What becomes of the nodes when `next` has to be calculated again: if it is observed or
/// necessary it is queued, else it is marked and the nodes calculated from it hear of it.
pub open spec fn marked0<N, V>(a: Seq<Node<N>>, b: Seq<Node<N>>, next: AnchorToken) -> bool where
    N: AnchorInner<EngineContextMut<N, V>, Output = V>,
 {
    if !unneeded(a[next as int]) {
        b == (if a[next as int].anchor_locked {
            a
        } else {
            a.update(next as int, Node { recalc_state: RecalcState::Pending, ..a[next as int] })
        })
    } else if a[next as int].recalc_state is Ready {
        reported::<N, V>(
            a.update(next as int, Node { recalc_state: RecalcState::NeedsRecalc, ..a[next as int] }),
            b,
            a[next as int].clean_parents@,
            next,
        )
    } else {
        b == a
    }
}

impl<N> Graph2<N> {
    /// Notes, once, that `child` reported a change while `parent` was locked.
    pub fn push_pending_dirty(&mut self, parent: AnchorToken, child: AnchorToken)
        requires
            old(self).wf(),
            parent < old(self).nodes@.len(),
            child < old(self).nodes@.len(),
        ensures
            final(self).wf(),
            final(self).recalc_queues == old(self).recalc_queues,
            old(self).same_but(final(self), parent as int),
            final(self).nodes@[parent as int] == (Node {
                pending_dirty: final(self).nodes@[parent as int].pending_dirty,
                ..old(self).nodes@[parent as int]
            }),
            final(self).nodes@[parent as int].pending_dirty@ == (if old(self).nodes@[parent as int].pending_dirty@.contains(
                child,
            ) {
                old(self).nodes@[parent as int].pending_dirty@
            } else {
                old(self).nodes@[parent as int].pending_dirty@.push(child)
            }),
    {
        if !contains(&self.nodes[parent].pending_dirty, child) {
            self.nodes[parent].pending_dirty.push(child);
            proof {
                let was = old(self);
                lemma_same_states(was.nodes@, self.nodes@, self.recalc_queues@);
                assert forall|c: int| #[trigger] necessary_parents(self.nodes@, c) == necessary_parents(was.nodes@, c) by {
                    assert(necessary_parents(self.nodes@, c) =~= necessary_parents(was.nodes@, c));
                }
                assert forall|i: int| 0 <= i < self.nodes@.len() implies in_range((#[trigger] self.nodes@[i]).pending_dirty@, self.nodes@.len()) by {
                    assert(in_range(was.nodes@[i].pending_dirty@, was.nodes@.len()));
                }
            }
        }
    }
}

impl<V, N: AnchorInner<EngineContextMut<N, V>, Output = V>> EngineContextMut<N, V> {
    /// Reports to `parent` that `child` has changed.
    fn notify(&mut self, parent: AnchorToken, child: AnchorToken)
        requires
            old(self).graph.wf(),
            parent < old(self).graph.nodes@.len(),
            child < old(self).graph.nodes@.len(),
            old(self).graph.nodes@[parent as int].anchor is Some ==> old(self).graph.nodes@[parent as int].anchor->0.inv(),
        ensures
            final(self).graph.wf(),
            *final(self) == (EngineContextMut { graph: final(self).graph, ..*old(self) }),
            old(self).graph.same_but(&final(self).graph, parent as int),
            final(self).graph.recalc_queues@.len() == old(self).graph.recalc_queues@.len(),
            notified::<N, V>(old(self).graph.nodes@[parent as int], final(self).graph.nodes@[parent as int], child),
    {
        let ghost was = *self;
        if self.graph.nodes[parent].anchor_locked {
            self.graph.push_pending_dirty(parent, child);
            let ghost pushed = self.graph;
            self.graph.nodes[parent].pending_recalc = true;
            proof {
                lemma_same_links(pushed.nodes@, self.graph.nodes@);
                lemma_same_states(pushed.nodes@, self.graph.nodes@, self.graph.recalc_queues@);
            }
            self.graph.queue_recalc_force(parent);
            return ;
        }
        match self.graph.nodes[parent].anchor.take() {
            Some(mut inner) => {
                inner.dirty(child);
                self.graph.nodes[parent].anchor = Some(inner);
            },
            None => {
            },
        }
        proof {
            lemma_same_links(was.graph.nodes@, self.graph.nodes@);
            lemma_same_states(was.graph.nodes@, self.graph.nodes@, self.graph.recalc_queues@);
        }
        self.graph.queue_recalc(parent);
    }

    /// `next` has to be calculated again.
    pub fn mark_dirty0(&mut self, next: AnchorToken)
        requires
            old(self).graph.wf(),
            next < old(self).graph.nodes@.len(),
            anchors_inv::<N, V>(old(self).graph.nodes@),
        ensures
            final(self).graph.wf(),
            anchors_inv::<N, V>(final(self).graph.nodes@),
            *final(self) == (EngineContextMut { graph: final(self).graph, ..*old(self) }),
            final(self).graph.last_deleted == old(self).graph.last_deleted,
            final(self).graph.recalc_queues@.len() == old(self).graph.recalc_queues@.len(),
            marked0::<N, V>(old(self).graph.nodes@, final(self).graph.nodes@, next),
        decreases ready_count(old(self).graph.nodes@),
    {
        let ghost was = *self;
        if check_observed_raw(&self.graph.nodes[next]) != ObservedState::Unnecessary {
            if !self.graph.nodes[next].anchor_locked {
                self.graph.queue_recalc(next);
            }
        } else if self.graph.nodes[next].recalc_state == RecalcState::Ready {
            self.graph.needs_recalc(next);
            let ghost fresh = self.graph.nodes@;
            let ghost parents = was.graph.nodes@[next as int].clean_parents@;
            proof {
                lemma_fewer_ready(was.graph.nodes@, fresh, next as int);
                assert(parents.take(0) =~= Seq::empty());
            }
            let mut k: usize = 0;
            while k < self.graph.nodes[next].clean_parents.len()
                invariant
                    self.graph.wf(),
                    next < self.graph.nodes@.len(),
                    fresh.len() == self.graph.nodes@.len(),
                    fresh == was.graph.nodes@.update(next as int, Node { recalc_state: RecalcState::NeedsRecalc, ..was.graph.nodes@[next as int] }),
                    links_wf(fresh),
                    anchors_inv::<N, V>(self.graph.nodes@),
                    *self == (EngineContextMut { graph: self.graph, ..was }),
                    self.graph.last_deleted == was.graph.last_deleted,
                    self.graph.recalc_queues@.len() == was.graph.recalc_queues@.len(),
                    k <= parents.len(),
                    parents == was.graph.nodes@[next as int].clean_parents@,
                    parents == fresh[next as int].clean_parents@,
                    ready_count(fresh) < ready_count(was.graph.nodes@),
                    was == *old(self),
                    reported::<N, V>(fresh, self.graph.nodes@, parents.take(k as int), next),
                decreases parents.len() - k,
            {
                let ghost before = self.graph.nodes@;
                assert(self.graph.nodes@[next as int].clean_parents == fresh[next as int].clean_parents) by {
                    if lists(parents.take(k as int), next as int) {
                        assert(notified::<N, V>(fresh[next as int], self.graph.nodes@[next as int], next));
                    }
                }
                let parent: AnchorToken = self.graph.nodes[next].clean_parents[k];
                assert(parent == parents[k as int]);
                assert(in_range(fresh[next as int].clean_parents@, fresh.len()));
                let locked: bool = self.graph.nodes[parent].anchor_locked;
                self.notify(parent, next);
                proof {
                    lemma_reported_next::<N, V>(fresh, before, self.graph.nodes@, parents, k as int, next);
                    lemma_reported_ready::<N, V>(fresh, self.graph.nodes@, parents.take(k as int + 1), next);
                }
                if !locked {
                    let ghost told = self.graph.nodes@;
                    self.mark_dirty0(parent);
                    assert(self.graph.nodes@ =~= told);
                }
                k = k + 1;
            }
            assert(parents.take(parents.len() as int) =~= parents);
        }
    }
}

impl<N> Graph2<N> {
    /// Takes the list of the nodes that hear of the changes of `i`.
    pub fn drain_parents(&mut self, i: AnchorToken) -> (parents: Vec<AnchorToken>)
        requires
            old(self).wf(),
            i < old(self).nodes@.len(),
        ensures
            final(self).wf(),
            final(self).recalc_queues == old(self).recalc_queues,
            old(self).same_but(final(self), i as int),
            final(self).nodes@[i as int] == (Node {
                clean_parents: final(self).nodes@[i as int].clean_parents,
                ..old(self).nodes@[i as int]
            }),
            final(self).nodes@[i as int].clean_parents@.len() == 0,
            parents@ == old(self).nodes@[i as int].clean_parents@,
    {
        let mut parents: Vec<AnchorToken> = Vec::new();
        std::mem::swap(&mut parents, &mut self.nodes[i].clean_parents);
        proof {
            let was = old(self);
            lemma_same_states(was.nodes@, self.nodes@, self.recalc_queues@);
            assert forall|c: int| #[trigger] necessary_parents(self.nodes@, c) == necessary_parents(was.nodes@, c) by {
                assert(necessary_parents(self.nodes@, c) =~= necessary_parents(was.nodes@, c));
            }
            assert forall|j: int| 0 <= j < self.nodes@.len() implies in_range((#[trigger] self.nodes@[j]).clean_parents@, self.nodes@.len()) && self.nodes@[j].clean_parents@.no_duplicates() by {
                assert(in_range(was.nodes@[j].clean_parents@, was.nodes@.len()));
            }
        }
        parents
    }
}

impl<V, N: AnchorInner<EngineContextMut<N, V>, Output = V>> EngineContextMut<N, V> {
    /// Reports to `parents` that `child` has changed.
    pub fn report(&mut self, parents: &Vec<AnchorToken>, child: AnchorToken)
        requires
            old(self).graph.wf(),
            child < old(self).graph.nodes@.len(),
            anchors_inv::<N, V>(old(self).graph.nodes@),
            in_range(parents@, old(self).graph.nodes@.len()),
            parents@.no_duplicates(),
        ensures
            final(self).graph.wf(),
            anchors_inv::<N, V>(final(self).graph.nodes@),
            *final(self) == (EngineContextMut { graph: final(self).graph, ..*old(self) }),
            final(self).graph.last_deleted == old(self).graph.last_deleted,
            final(self).graph.recalc_queues@.len() == old(self).graph.recalc_queues@.len(),
            reported::<N, V>(old(self).graph.nodes@, final(self).graph.nodes@, parents@, child),
    {
        let ghost was = *self;
        let mut k: usize = 0;
        assert(parents@.take(0) =~= Seq::empty());
        while k < parents.len()
            invariant
                self.graph.wf(),
                child < self.graph.nodes@.len(),
                self.graph.nodes@.len() == was.graph.nodes@.len(),
                anchors_inv::<N, V>(self.graph.nodes@),
                *self == (EngineContextMut { graph: self.graph, ..was }),
                self.graph.last_deleted == was.graph.last_deleted,
                self.graph.recalc_queues@.len() == was.graph.recalc_queues@.len(),
                k <= parents@.len(),
                in_range(parents@, was.graph.nodes@.len()),
                parents@.no_duplicates(),
                reported::<N, V>(was.graph.nodes@, self.graph.nodes@, parents@.take(k as int), child),
            decreases parents@.len() - k,
        {
            let ghost before = self.graph.nodes@;
            let parent: AnchorToken = parents[k];
            let locked: bool = self.graph.nodes[parent].anchor_locked;
            self.notify(parent, child);
            proof {
                lemma_reported_next::<N, V>(was.graph.nodes@, before, self.graph.nodes@, parents@, k as int, child);
            }
            if !locked {
                let ghost told = self.graph.nodes@;
                self.mark_dirty0(parent);
                assert(self.graph.nodes@ =~= told);
            }
            k = k + 1;
        }
        assert(parents@.take(parents@.len() as int) =~= parents@);
    }

    /// `node` has changed its output (`skip_self`), or has to be calculated again.
    pub fn mark_dirty(&mut self, node: AnchorToken, skip_self: bool)
        requires
            old(self).graph.wf(),
            node < old(self).graph.nodes@.len(),
            anchors_inv::<N, V>(old(self).graph.nodes@),
        ensures
            final(self).graph.wf(),
            anchors_inv::<N, V>(final(self).graph.nodes@),
            *final(self) == (EngineContextMut { graph: final(self).graph, ..*old(self) }),
            final(self).graph.last_deleted == old(self).graph.last_deleted,
            final(self).graph.recalc_queues@.len() == old(self).graph.recalc_queues@.len(),
            !skip_self ==> marked0::<N, V>(old(self).graph.nodes@, final(self).graph.nodes@, node),
            skip_self ==> exists|drained: Seq<Node<N>>|
                cleared(old(self).graph.nodes@, drained, node as int) && #[trigger] reported::<N, V>(
                    drained,
                    final(self).graph.nodes@,
                    old(self).graph.nodes@[node as int].clean_parents@,
                    node,
                ),
    {
        if skip_self {
            let parents: Vec<AnchorToken> = self.graph.drain_parents(node);
            let ghost drained = self.graph.nodes@;
            proof {
                assert(in_range(old(self).graph.nodes@[node as int].clean_parents@, drained.len()));
                assert(cleared(old(self).graph.nodes@, drained, node as int));
            }
            self.report(&parents, node);
        } else {
            self.mark_dirty0(node);
        }
    }
}

/// `b` is `a` with nobody hearing of the changes of `i`.
pub open spec fn cleared<N>(a: Seq<Node<N>>, b: Seq<Node<N>>, i: int) -> bool {
    &&& a.len() == b.len()
    &&& forall|j: int| 0 <= j < a.len() && j != i ==> #[trigger] b[j] == a[j]
    &&& b[i] == (Node { clean_parents: b[i].clean_parents, ..a[i] })
    &&& b[i].clean_parents@.len() == 0
}

proof fn lemma_reported_next<N, V>(
    a: Seq<Node<N>>,
    b: Seq<Node<N>>,
    c: Seq<Node<N>>,
    parents: Seq<AnchorToken>,
    k: int,
    child: AnchorToken,
) where N: AnchorInner<EngineContextMut<N, V>, Output = V>
    requires
        reported::<N, V>(a, b, parents.take(k), child),
        0 <= k < parents.len(),
        parents.no_duplicates(),
        parents[k] < a.len(),
        c.len() == b.len(),
        forall|j: int| 0 <= j < a.len() && j != parents[k] ==> #[trigger] c[j] == b[j],
        notified::<N, V>(b[parents[k] as int], c[parents[k] as int], child),
    ensures
        reported::<N, V>(a, c, parents.take(k + 1), child),
{
    let s = parents.take(k);
    let t = parents.take(k + 1);
    assert forall|j: int| 0 <= j < a.len() implies if lists(t, j) {
        notified::<N, V>(a[j], #[trigger] c[j], child)
    } else {
        c[j] == a[j]
    } by {
        if lists(s, j) {
            let m = choose|m: int| 0 <= m < s.len() && #[trigger] s[m] == j;
            assert(t[m] == j);
            assert(parents[m] != parents[k]);
        } else if lists(t, j) {
            let m = choose|m: int| 0 <= m < t.len() && #[trigger] t[m] == j;
            if m < k {
                assert(s[m] == j);
            }
        }
        if j == parents[k] {
            assert(t[k] == j);
            assert(!lists(s, j));
            assert(b[j] == a[j]);
        } else {
            assert(c[j] == b[j]);
        }
    }
}

proof fn lemma_reported_ready<N, V>(a: Seq<Node<N>>, b: Seq<Node<N>>, parents: Seq<AnchorToken>, child: AnchorToken) where
    N: AnchorInner<EngineContextMut<N, V>, Output = V>,

    requires
        reported::<N, V>(a, b, parents, child),
    ensures
        ready_count(b) <= ready_count(a),
{
    assert forall|j: int| 0 <= j < a.len() && (#[trigger] b[j]).recalc_state is Ready implies a[j].recalc_state is Ready by {
        if lists(parents, j) {
            assert(notified::<N, V>(a[j], b[j], child));
        }
    }
    lemma_not_more_ready(a, b);
}

} // verus!
