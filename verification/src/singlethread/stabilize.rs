//! Bringing the graph up to date.

use crate::expert::{AnchorInner, AnchorToken, Poll, UpdateContext};
use crate::singlethread::context::{
    alive, enqueue_outcome, freshness, granted, granted_at, kept, lemma_kept_transitive, lemma_outs_less, seen_wf, served,
    shows_less, steady, told_wf,
    EngineContextMut, Ledger,
};
use crate::singlethread::dirty::{anchors_inv, heard, marked0, notified};
use crate::singlethread::graph2::{in_range, links_wf, lists, tidy_at, unneeded, Node, RecalcState};
use crate::singlethread::height::raised;
use crate::singlethread::pending::{in_order, inserted, total, Entry, PendingRequest};
use crate::singlethread::recalc::{caught_up, idle_but, lawful, lemma_ordered_same, node_lawful, same_needs, standing, EngineError};
use crate::singlethread::stats::{capped_add, AnchorsPendingStats};
use vstd::prelude::*;

verus! {

/// The place of the polled node while no node is being polled.
pub const NOBODY: AnchorToken = usize::MAX;

/// The generation after `generation`.
pub open spec fn next(generation: u64) -> u64 {
    if generation == u64::MAX {
        generation
    } else {
        (generation + 1) as u64
    }
}

/// There has been a generation since `generation`. They are not counted beyond the largest number.
pub open spec fn past(generation: u64, now: u64) -> bool {
    now > generation || now == u64::MAX
}

/// The errors that a stabilization can end with: a node that has never been ready cannot become so, or there
/// is work left. No node is found locked.
pub open spec fn stalls<N>(nodes: Seq<Node<N>>, error: EngineError) -> bool {
    match error {
        EngineError::InvalidToken { token } => token < nodes.len() && nodes[token as int].last_ready is None,
        EngineError::UnexpectedPending { token } => token < nodes.len() && nodes[token as int].last_ready is None,
        EngineError::Spinning => !quiet(nodes),
        _ => false,
    }
}

/// Nothing has to be recalculated.
pub open spec fn quiet<N>(nodes: Seq<Node<N>>) -> bool {
    forall|i: int| 0 <= i < nodes.len() ==> !((#[trigger] nodes[i]).recalc_state is Pending)
}

/// How many recalculations one stabilization may take in a graph with `active_nodes` nodes: no limit, which is
/// zero, unless the recalculations are watched; the limit that is given; or else one that is generous for a graph
/// of that size.
pub fn spin_limit_for(watched: bool, given: Option<usize>, active_nodes: usize) -> (limit: usize)
    ensures
        !watched ==> limit == 0,
        watched && given is Some ==> limit == given->0,
        watched && given is None && active_nodes * 64 <= 5000 ==> limit == 5000,
        watched && given is None && 5000 < active_nodes * 64 <= usize::MAX ==> limit == active_nodes * 64,
        watched && given is None && active_nodes * 64 > usize::MAX ==> limit == usize::MAX,
{
    if !watched {
        return 0;
    }
    match given {
        Some(limit) => limit,
        None => {
            let by_size: usize = match active_nodes.checked_mul(64) {
                Some(n) => n,
                None => usize::MAX,
            };
            if by_size < 5000 {
                5000
            } else {
                by_size
            }
        },
    }
}

/// Node `j` was not recalculated after `d` had announced a change, in the generation in which `j` was last ready.
pub open spec fn outrun<N, V>(nodes: Seq<Node<N>>, ledger: Ledger<V>, j: AnchorToken, d: AnchorToken) -> bool {
    &&& d < nodes.len()
    &&& ledger.seen[j].contains_key(d)
    &&& nodes[d as int].last_update is Some
    &&& nodes[j as int].last_ready is Some
    &&& nodes[d as int].last_update->0 <= nodes[j as int].last_ready->0
    &&& ledger.seen[j][d] != ledger.outs[d]
    &&& !ledger.silent.contains(d)
}

/// What a node knew when it last completed a poll is so still, unless it changed in a later
/// generation or the change was not announced.
#[verifier::opaque]
pub open spec fn calm<N, V>(nodes: Seq<Node<N>>, ledger: Ledger<V>) -> bool {
    forall|j: AnchorToken, d: AnchorToken|
        #![trigger ledger.seen[j].contains_key(d)]
        j < nodes.len() && !ledger.lost.contains(j) && ledger.seen[j].contains_key(d) ==> !outrun(nodes, ledger, j, d)
}

impl<V, N: AnchorInner<EngineContextMut<N, V>, Output = V>> EngineContextMut<N, V> {
    /// No node is being polled, and the law is in force.
    pub open spec fn resting(&self) -> bool {
        &&& self.law(-1)
        &&& self.node == NOBODY
    }

    /// The next stabilization can begin.
    pub open spec fn settled(&self) -> bool {
        &&& self.resting()
        &&& calm(self.graph.nodes@, self.ledger@)
    }

    /// Node `i` has been taken out of the queue, where it was the last at `height`, with nothing below it.
    pub open spec fn takes(&self, later: &Self, height: usize, i: AnchorToken) -> bool {
        let before = self.graph.recalc_queues@;
        let after = later.graph.recalc_queues@;
        &&& *later == (EngineContextMut { graph: later.graph, node: i, ..*self })
        &&& i < self.graph.nodes@.len()
        &&& self.graph.nodes@[i as int].recalc_state is Pending
        &&& later.graph.nodes@ == self.graph.nodes@.update(
            i as int,
            Node { recalc_state: RecalcState::NeedsRecalc, ..self.graph.nodes@[i as int] },
        )
        &&& later.graph.last_deleted == self.graph.last_deleted
        &&& height < before.len()
        &&& after.len() == before.len()
        &&& forall|h: int| 0 <= h < height ==> (#[trigger] before[h])@.len() == 0
        &&& before[height as int]@ == after[height as int]@.push(i)
        &&& forall|h: int| 0 <= h < before.len() && h != height ==> #[trigger] after[h] == before[h]
    }

    /// Takes the next node out of the queue to be polled.
    fn take_next(&mut self) -> (next: Option<(usize, AnchorToken)>)
        requires
            old(self).resting(),
        ensures
            next is None ==> *final(self) == *old(self) && quiet(old(self).graph.nodes@),
            next matches Some((height, i)) ==> {
                &&& i < old(self).graph.nodes@.len()
                &&& final(self).law(i as int)
                &&& final(self).node == i
                &&& idle_but(final(self).graph.nodes@, -1)
                &&& !final(self).ledger@.lost.contains(i) && final(self).graph.nodes@[i as int].anchor is Some ==> standing(
                    final(self).graph.nodes@[i as int],
                    final(self).ledger@.told[i],
                    final(self).ledger@.seen[i],
                )
                &&& old(self).takes(final(self), height, i)
            },
    {
        let ghost was = *self;
        proof {
            reveal(EngineContextMut::wf);
        }
        match self.graph.recalc_pop_next() {
            None => None,
            Some((height, i)) => {
                self.node = i;
                proof {
                    reveal(told_wf);
                    reveal(seen_wf);
                    reveal(steady);
                    reveal(lawful);
                    reveal(caught_up);
                    let a = was.graph.nodes@;
                    let b = self.graph.nodes@;
                    assert forall|j: int| 0 <= j < b.len() implies #[trigger] tidy_at(b, j) by {
                        assert(tidy_at(a, j));
                    }
                    lemma_ordered_same(a, b);
                    lemma_outs_less(a, b, was.ledger@.outs);
                }
                Some((height, i))
            },
        }
    }

    /// The node that was polled is at rest.
    fn let_go(&mut self)
        requires
            old(self).law(-1),
            old(self).node < old(self).graph.nodes@.len(),
            idle_but(old(self).graph.nodes@, -1),
            !old(self).ledger@.lost.contains(old(self).node) && old(self).graph.nodes@[old(self).node as int].alive
                ==> !(old(self).graph.nodes@[old(self).node as int].recalc_state is NeedsRecalc),
        ensures
            final(self).resting(),
            *final(self) == (EngineContextMut { node: NOBODY, ..*old(self) }),
    {
        self.node = NOBODY;
        proof {
            reveal(EngineContextMut::wf);
            reveal(steady);
            reveal(told_wf);
        }
    }

    /// The ledger where work breaks off: the nodes that were not recalculated after a change cannot be relied upon, nor can
    /// the one that failed.
    pub open spec fn broken(&self, failed: Option<AnchorToken>) -> Ledger<V> {
        let old = self.ledger@;
        Ledger {
            lost: Set::new(
                |j: AnchorToken|
                    old.lost.contains(j) || failed == Some(j) || exists|d: AnchorToken| #[trigger]
                        old.seen[j].contains_key(d) && outrun(self.graph.nodes@, old, j, d),
            ),
            ..old
        }
    }

    /// Enters that work has broken off.
    fn break_off(&mut self, Ghost(failed): Ghost<Option<AnchorToken>>)
        requires
            old(self).wf(),
            caught_up::<V, N>(old(self).graph.nodes@, old(self).dirty_marks@),
            old(self).law(-1) || (failed is Some && old(self).law(failed->0 as int)),
        ensures
            final(self).law(-1),
            calm(final(self).graph.nodes@, final(self).ledger@),
            *final(self) == (EngineContextMut { ledger: final(self).ledger, ..*old(self) }),
            final(self).ledger@ == old(self).broken(failed),
    {
        let ghost was = *self;
        self.ledger = Ghost(self.broken(failed));
        proof {
            was.lemma_lost(self);
            reveal(lawful);
            reveal(calm);
        }
    }

    /// The node that was polled is in the queue again.
    pub open spec fn requeued(&self, later: &Self) -> bool {
        &&& *later == (EngineContextMut { graph: later.graph, node: NOBODY, ..*self })
        &&& later.graph.nodes@ == self.graph.nodes@.update(
            self.node as int,
            Node { recalc_state: RecalcState::Pending, ..self.graph.nodes@[self.node as int] },
        )
        &&& later.graph.last_deleted == self.graph.last_deleted
        &&& later.graph.recalc_queues@.len() == self.graph.recalc_queues@.len()
    }

    /// Queues the node that was polled again.
    fn requeue(&mut self)
        requires
            old(self).law(old(self).node as int),
            old(self).node < old(self).graph.nodes@.len(),
            idle_but(old(self).graph.nodes@, -1),
            !old(self).ledger@.lost.contains(old(self).node) && old(self).graph.nodes@[old(self).node as int].anchor is Some ==> standing(
                old(self).graph.nodes@[old(self).node as int],
                old(self).ledger@.told[old(self).node],
                old(self).ledger@.seen[old(self).node],
            ),
        ensures
            final(self).resting(),
            old(self).requeued(final(self)),
    {
        let ghost was = *self;
        proof {
            reveal(EngineContextMut::wf);
        }
        let i: AnchorToken = self.node;
        self.graph.queue_recalc(i);
        self.node = NOBODY;
        proof {
            reveal(told_wf);
            reveal(seen_wf);
            reveal(steady);
            reveal(lawful);
            reveal(caught_up);
            let a = was.graph.nodes@;
            let b = self.graph.nodes@;
            assert forall|j: int| 0 <= j < b.len() implies #[trigger] tidy_at(b, j) by {
                assert(tidy_at(a, j));
            }
            lemma_ordered_same(a, b);
            lemma_outs_less(a, b, was.ledger@.outs);
        }
    }

    /// Where nothing is queued, everything is as the nodes know it.
    proof fn lemma_quiet_calm(&self)
        requires
            self.resting(),
            quiet(self.graph.nodes@),
        ensures
            self.settled(),
    {
        reveal(EngineContextMut::wf);
        reveal(calm);
        reveal(told_wf);
        reveal(lawful);
        reveal(caught_up);
        let nodes = self.graph.nodes@;
        let seen = self.ledger@.seen;
        assert forall|j: AnchorToken, d: AnchorToken| #![trigger self.ledger@.seen[j].contains_key(d)] j < nodes.len() && !self.ledger@.lost.contains(j) && self.ledger@.seen[j].contains_key(d) implies !outrun(nodes, self.ledger@, j, d) by {
            if nodes[j as int].last_ready is Some {
                assert(nodes[j as int].alive);
                assert(nodes[j as int].anchor is Some);
                assert(node_lawful(nodes[j as int], self.ledger@.told[j], seen[j], lists(self.dirty_marks@, j as int)));
                assert(seen[j].dom().contains(d));
                assert(self.ledger@.told[j].contains_key(d));
            }
        }
    }
}

/// An anchor that has heard of changes at most.
pub open spec fn stood<N, V>(x: N, y: N) -> bool where N: AnchorInner<EngineContextMut<N, V>, Output = V> {
    &&& y.inv()
    &&& y.had() == x.had()
    &&& y.current() == x.current()
    &&& y.honest() == x.honest()
    &&& y.alias() == x.alias()
    &&& y.own() == x.own()
    &&& y.outside() == x.outside()
    &&& forall|told: Map<AnchorToken, V>| x.holds(told) ==> #[trigger] y.holds(told)
    &&& forall|seen: Map<AnchorToken, V>| x.right(seen) ==> #[trigger] y.right(seen)
}

/// `b` is `a` with some nodes queued, and some anchors having heard of changes; an anchor that has is queued.
pub open spec fn stirred<N, V>(a: Seq<Node<N>>, b: Seq<Node<N>>) -> bool where
    N: AnchorInner<EngineContextMut<N, V>, Output = V>,
 {
    &&& a.len() == b.len()
    &&& forall|j: int|
        0 <= j < a.len() ==> {
            &&& #[trigger] b[j] == (Node { anchor: b[j].anchor, recalc_state: b[j].recalc_state, ..a[j] })
            &&& b[j].recalc_state == a[j].recalc_state || b[j].recalc_state is Pending
            &&& b[j].anchor is Some <==> a[j].anchor is Some
            &&& b[j].recalc_state is Pending || b[j].anchor == a[j].anchor
            &&& a[j].anchor is Some ==> stood::<N, V>(a[j].anchor->0, b[j].anchor->0)
        }
}

/// What a mark on `next` makes of the nodes: it is queued, and if nothing needs it and it was ready, the nodes
/// that were calculated from it are queued too.
pub open spec fn marked<N, V>(a: Seq<Node<N>>, b: Seq<Node<N>>, next: AnchorToken) -> bool where
    N: AnchorInner<EngineContextMut<N, V>, Output = V>,
 {
    if alive(a, next) {
        exists|m: Seq<Node<N>>| #[trigger]
            marked0::<N, V>(a, m, next) && b == m.update(
                next as int,
                Node { recalc_state: RecalcState::Pending, ..m[next as int] },
            )
    } else {
        b == a
    }
}

/// What marks, taken one after the other, make of the nodes.
pub open spec fn marked_all<N, V>(a: Seq<Node<N>>, b: Seq<Node<N>>, marks: Seq<AnchorToken>) -> bool where
    N: AnchorInner<EngineContextMut<N, V>, Output = V>,

    decreases marks.len(),
{
    if marks.len() == 0 {
        b == a
    } else {
        exists|m: Seq<Node<N>>|
            marked_all::<N, V>(a, m, marks.drop_last()) && #[trigger] marked::<N, V>(m, b, marks.last())
    }
}

proof fn lemma_kept_self<N>(nodes: Seq<Node<N>>)
    ensures
        kept(nodes, nodes),
{
}

/// Every request has its turn.
proof fn lemma_in_order_len(model: Seq<Seq<Entry>>)
    ensures
        in_order(model).len() == total(model),
{
}

proof fn lemma_submap_transitive<K, V>(a: Map<K, V>, b: Map<K, V>, c: Map<K, V>)
    requires
        a.submap_of(b),
        b.submap_of(c),
    ensures
        a.submap_of(c),
{
    assert forall|k: K| #[trigger] a.dom().contains(k) implies #[trigger] c.dom().contains(k) && a[k] == c[k] by {
        assert(b.dom().contains(k));
    }
}

proof fn lemma_stirred_caught_up<N, V>(a: Seq<Node<N>>, b: Seq<Node<N>>, marks: Seq<AnchorToken>, left: Seq<AnchorToken>) where
    N: AnchorInner<EngineContextMut<N, V>, Output = V>,

    requires
        stirred::<N, V>(a, b),
        caught_up::<V, N>(a, marks),
        forall|j: int|
            0 <= j < b.len() && lists(marks, j) && (#[trigger] b[j]).anchor is Some && b[j].recalc_state is Ready ==> lists(left, j),
    ensures
        caught_up::<V, N>(b, left),
{
    reveal(caught_up);
    assert forall|j: int| 0 <= j < b.len() && (#[trigger] b[j]).anchor is Some && b[j].recalc_state is Ready && b[j].anchor->0.outside() is Some && !lists(left, j) implies b[j].anchor->0.current() by {
        assert(a[j].anchor is Some && a[j].recalc_state is Ready);
    }
}

proof fn lemma_stirred_transitive<N, V>(a: Seq<Node<N>>, b: Seq<Node<N>>, c: Seq<Node<N>>) where
    N: AnchorInner<EngineContextMut<N, V>, Output = V>,

    requires
        stirred::<N, V>(a, b),
        stirred::<N, V>(b, c),
    ensures
        stirred::<N, V>(a, c),
{
    assert forall|j: int| 0 <= j < a.len() implies {
        &&& #[trigger] c[j] == (Node { anchor: c[j].anchor, recalc_state: c[j].recalc_state, ..a[j] })
        &&& c[j].recalc_state == a[j].recalc_state || c[j].recalc_state is Pending
        &&& c[j].anchor is Some <==> a[j].anchor is Some
        &&& c[j].recalc_state is Pending || c[j].anchor == a[j].anchor
        &&& a[j].anchor is Some ==> stood::<N, V>(a[j].anchor->0, c[j].anchor->0)
    } by {
        assert(b[j] == (Node { anchor: b[j].anchor, recalc_state: b[j].recalc_state, ..a[j] }));
    }
}

proof fn lemma_marked_all_step<N, V>(
    a: Seq<Node<N>>,
    m: Seq<Node<N>>,
    b: Seq<Node<N>>,
    marks: Seq<AnchorToken>,
    k: int,
) where N: AnchorInner<EngineContextMut<N, V>, Output = V>
    requires
        0 <= k < marks.len(),
        marked_all::<N, V>(a, m, marks.take(k)),
        marked::<N, V>(m, b, marks[k]),
    ensures
        marked_all::<N, V>(a, b, marks.take(k + 1)),
{
    assert(marks.take(k + 1).drop_last() =~= marks.take(k));
    assert(marks.take(k + 1).last() == marks[k]);
    assert(marked::<N, V>(m, b, marks.take(k + 1).last()));
}

proof fn lemma_marked_stirs<N, V>(a: Seq<Node<N>>, m: Seq<Node<N>>, b: Seq<Node<N>>, next: AnchorToken) where
    N: AnchorInner<EngineContextMut<N, V>, Output = V>,

    requires
        links_wf(a),
        anchors_inv::<N, V>(a),
        next < a.len(),
        idle_but(a, -1),
        marked0::<N, V>(a, m, next),
        b == m.update(next as int, Node { recalc_state: RecalcState::Pending, ..m[next as int] }),
    ensures
        stirred::<N, V>(a, b),
        b[next as int].recalc_state is Pending,
{
    assert(in_range(a[next as int].clean_parents@, a.len()));
    let parents = a[next as int].clean_parents@;
    let fresh = a.update(next as int, Node { recalc_state: RecalcState::NeedsRecalc, ..a[next as int] });
    let told = unneeded(a[next as int]) && a[next as int].recalc_state is Ready;
    assert forall|j: int| 0 <= j < a.len() implies {
        &&& #[trigger] b[j] == (Node { anchor: b[j].anchor, recalc_state: b[j].recalc_state, ..a[j] })
        &&& b[j].recalc_state == a[j].recalc_state || b[j].recalc_state is Pending
        &&& b[j].anchor is Some <==> a[j].anchor is Some
        &&& b[j].recalc_state is Pending || b[j].anchor == a[j].anchor
        &&& a[j].anchor is Some ==> stood::<N, V>(a[j].anchor->0, b[j].anchor->0)
    } by {
        assert(!a[j].anchor_locked);
        if told {
            if lists(parents, j) {
                assert(j != next);
                assert(notified::<N, V>(fresh[j], m[j], next));
                if a[j].anchor is Some {
                    assert(heard::<N, V>(a[j].anchor->0, m[j].anchor->0, next));
                    assert forall|told: Map<AnchorToken, V>| a[j].anchor->0.holds(told) implies #[trigger] m[j].anchor->0.holds(told) by {
                    }
                }
            } else {
                assert(m[j] == fresh[j]);
            }
        }
    }
}

impl<V, N: AnchorInner<EngineContextMut<N, V>, Output = V>> EngineContextMut<N, V> {
    /// The state stays in order, and the law in force but for marks that have been taken, when nodes are stirred.
    proof fn lemma_stirred(&self, later: &Self, marks: Seq<AnchorToken>, left: Seq<AnchorToken>)
        requires
            self.wf(),
            self.node == NOBODY,
            later.graph.wf(),
            *later == (EngineContextMut { graph: later.graph, ..*self }),
            stirred::<N, V>(self.graph.nodes@, later.graph.nodes@),
            forall|j: int|
                0 <= j < later.graph.nodes@.len() && lists(marks, j) && alive(later.graph.nodes@, j as usize)
                    && (#[trigger] later.graph.nodes@[j]).recalc_state is Ready ==> lists(left, j),
            lawful(self.graph.nodes@, self.ledger@, marks, -1),
        ensures
            later.wf(),
            lawful(later.graph.nodes@, self.ledger@, left, -1),
            calm(self.graph.nodes@, self.ledger@) ==> calm(later.graph.nodes@, self.ledger@),
    {
        reveal(EngineContextMut::wf);
        reveal(told_wf);
        reveal(seen_wf);
        reveal(steady);
        reveal(lawful);
        reveal(caught_up);
        reveal(calm);
        let a = self.graph.nodes@;
        let b = later.graph.nodes@;
        assert forall|j: int| 0 <= j < b.len() implies {
            &&& (#[trigger] b[j]).alive == a[j].alive
            &&& b[j].observed == a[j].observed
            &&& b[j].visited == a[j].visited
            &&& b[j].necessary_count == a[j].necessary_count
            &&& b[j].necessary_children == a[j].necessary_children
            &&& b[j].last_ready == a[j].last_ready
            &&& b[j].last_update == a[j].last_update
            &&& b[j].anchor_locked == a[j].anchor_locked
            &&& b[j].height == a[j].height
            &&& b[j].clean_parents == a[j].clean_parents
            &&& a[j].alive ==> a[j].anchor is Some
        } by {
            assert(b[j] == (Node { anchor: b[j].anchor, recalc_state: b[j].recalc_state, ..a[j] }));
        }
        assert forall|j: int| 0 <= j < b.len() implies #[trigger] tidy_at(b, j) by {
            assert(tidy_at(a, j));
            assert(b[j].observed == a[j].observed);
        }
        lemma_ordered_same(a, b);
        assert forall|j: int| 0 <= j < b.len() && (#[trigger] b[j]).anchor is Some implies {
            &&& b[j].anchor->0.inv()
            &&& b[j].last_ready is Some ==> b[j].anchor->0.had()
            &&& b[j].recalc_state is Ready ==> b[j].last_ready is Some
        } by {
            assert(stood::<N, V>(a[j].anchor->0, b[j].anchor->0));
        }
        assert forall|j: int| 0 <= j < b.len() && ((#[trigger] b[j]).last_ready is Some || b[j].last_update is Some) implies later.ledger@.outs.contains_key(j as usize) by {
            assert(a[j].last_ready == b[j].last_ready && a[j].last_update == b[j].last_update);
        }
        assert(shows_less(a, b));
        lemma_outs_less(a, b, self.ledger@.outs);
        assert forall|k: int| 0 <= k < b.len() && k != -1 && (#[trigger] b[k]).anchor is Some && !self.ledger@.lost.contains(k as usize) implies node_lawful(
            b[k],
            later.ledger@.told[k as usize],
            later.ledger@.seen[k as usize],
            lists(left, k),
        ) by {
            assert(stood::<N, V>(a[k].anchor->0, b[k].anchor->0));
            assert(node_lawful(a[k], later.ledger@.told[k as usize], later.ledger@.seen[k as usize], lists(marks, k)));
        }
        if calm(a, self.ledger@) {
            assert forall|j: AnchorToken, d: AnchorToken| #![trigger self.ledger@.seen[j].contains_key(d)] j < b.len() && !self.ledger@.lost.contains(j) && self.ledger@.seen[j].contains_key(d) implies !outrun(b, self.ledger@, j, d) by {
                assert(!outrun(a, self.ledger@, j, d));
                assert(b[j as int].last_ready == a[j as int].last_ready);
                if d < b.len() {
                    assert(b[d as int].last_update == a[d as int].last_update);
                }
            }
        }
    }

    /// Takes up the mark on `dirty`, the first of `marks`.
    fn take_mark(&mut self, dirty: AnchorToken, Ghost(marks): Ghost<Seq<AnchorToken>>, Ghost(left): Ghost<Seq<AnchorToken>>)
        requires
            old(self).wf(),
            old(self).node == NOBODY,
            marks.len() > 0,
            marks[0] == dirty,
            left == marks.skip(1),
            caught_up::<V, N>(old(self).graph.nodes@, marks),
            lawful(old(self).graph.nodes@, old(self).ledger@, marks, -1),
        ensures
            final(self).wf(),
            *final(self) == (EngineContextMut { graph: final(self).graph, ..*old(self) }),
            final(self).graph.last_deleted == old(self).graph.last_deleted,
            final(self).graph.recalc_queues@.len() == old(self).graph.recalc_queues@.len(),
            stirred::<N, V>(old(self).graph.nodes@, final(self).graph.nodes@),
            marked::<N, V>(old(self).graph.nodes@, final(self).graph.nodes@, dirty),
            caught_up::<V, N>(final(self).graph.nodes@, left),
            lawful(final(self).graph.nodes@, old(self).ledger@, left, -1),
            calm(old(self).graph.nodes@, old(self).ledger@) ==> calm(final(self).graph.nodes@, old(self).ledger@),
    {
        let ghost before = *self;
        proof {
            self.lemma_stirred_self();
        }
        if self.is_token_alive(dirty) {
            proof {
                reveal(EngineContextMut::wf);
            }
            self.mark_dirty(dirty, false);
            let ghost mid = self.graph.nodes@;
            proof {
                lemma_marked_stirs::<N, V>(
                    before.graph.nodes@,
                    mid,
                    mid.update(dirty as int, Node { recalc_state: RecalcState::Pending, ..mid[dirty as int] }),
                    dirty,
                );
            }
            self.graph.queue_recalc(dirty);
        }
        proof {
            let nodes = self.graph.nodes@;
            assert(self.graph.wf()) by {
                reveal(EngineContextMut::wf);
            }
            assert forall|j: int| 0 <= j < nodes.len() && lists(marks, j) && alive(nodes, j as usize) && (#[trigger] nodes[j]).recalc_state is Ready implies lists(left, j) by {
                let m = choose|m: int| 0 <= m < marks.len() && #[trigger] marks[m] == j;
                if m > 0 {
                    assert(left[m - 1] == j);
                }
            }
            before.lemma_stirred(self, marks, left);
            assert forall|j: int| 0 <= j < nodes.len() && lists(marks, j) && (#[trigger] nodes[j]).anchor is Some && nodes[j].recalc_state is Ready implies lists(left, j) by {
                reveal(EngineContextMut::wf);
                assert(before.graph.nodes@[j].anchor is Some);
                assert(alive(nodes, j as usize));
            }
            lemma_stirred_caught_up::<N, V>(before.graph.nodes@, nodes, marks, left);
        }
    }

    /// The nodes that asked to be polled again have been marked, one after the other.
    pub open spec fn takes_marks(&self, later: &Self) -> bool {
        &&& later.dirty_marks@.len() == 0
        &&& *later == (EngineContextMut { graph: later.graph, dirty_marks: later.dirty_marks, ..*self })
        &&& later.graph.last_deleted == self.graph.last_deleted
        &&& later.graph.recalc_queues@.len() == self.graph.recalc_queues@.len()
        &&& marked_all::<N, V>(self.graph.nodes@, later.graph.nodes@, self.dirty_marks@)
        &&& self.dirty_marks@.len() == 0 ==> later.graph == self.graph
    }

    /// Queues the nodes that asked to be polled again, and those that have to hear of it.
    pub fn update_dirty_marks(&mut self)
        requires
            old(self).settled(),
        ensures
            final(self).settled(),
            old(self).takes_marks(final(self)),
            stirred::<N, V>(old(self).graph.nodes@, final(self).graph.nodes@),
    {
        let ghost start = *self;
        let mut marks: Vec<AnchorToken> = Vec::new();
        std::mem::swap(&mut marks, &mut self.dirty_marks);
        let ghost was = *self;
        let ghost all = marks@;
        proof {
            reveal(EngineContextMut::wf);
            assert(all.take(0) =~= Seq::empty());
            assert(all.skip(0) =~= all);
        }
        let mut k: usize = 0;
        while k < marks.len()
            invariant
                marks@ == all,
                k <= all.len(),
                self.wf(),
                self.node == NOBODY,
                caught_up::<V, N>(self.graph.nodes@, all.skip(k as int)),
                lawful(self.graph.nodes@, self.ledger@, all.skip(k as int), -1),
                calm(self.graph.nodes@, self.ledger@),
                *self == (EngineContextMut { graph: self.graph, ..was }),
                self.graph.last_deleted == was.graph.last_deleted,
                self.graph.recalc_queues@.len() == was.graph.recalc_queues@.len(),
                stirred::<N, V>(was.graph.nodes@, self.graph.nodes@),
                marked_all::<N, V>(was.graph.nodes@, self.graph.nodes@, all.take(k as int)),
                all.len() == 0 ==> self.graph == was.graph,
            decreases all.len() - k,
        {
            let ghost before = *self;
            let dirty: AnchorToken = marks[k];
            assert(all.skip(k as int).skip(1) =~= all.skip(k as int + 1));
            self.take_mark(dirty, Ghost(all.skip(k as int)), Ghost(all.skip(k as int + 1)));
            proof {
                lemma_stirred_transitive::<N, V>(was.graph.nodes@, before.graph.nodes@, self.graph.nodes@);
                lemma_marked_all_step::<N, V>(was.graph.nodes@, before.graph.nodes@, self.graph.nodes@, all, k as int);
            }
            k = k + 1;
        }
        proof {
            assert(all.take(all.len() as int) =~= all);
            assert(all.skip(all.len() as int) =~= self.dirty_marks@);
        }
    }

    /// Begins a new generation.
    pub fn next_generation(&mut self)
        requires
            old(self).settled(),
        ensures
            final(self).resting(),
            *final(self) == (EngineContextMut { generation: next(old(self).generation), ..*old(self) }),
    {
        let ghost was = *self;
        self.generation = self.generation.saturating_add(1);
        proof {
            reveal(EngineContextMut::wf);
            reveal(seen_wf);
            reveal(calm);
            if was.generation < u64::MAX {
                let nodes = self.graph.nodes@;
                assert forall|j: AnchorToken, d: AnchorToken| #![trigger self.ledger@.seen[j].contains_key(d)] j < nodes.len() && d < nodes.len() && !self.ledger@.lost.contains(j) && self.ledger@.seen[j].contains_key(d) && freshness(nodes[d as int].last_update, nodes[j as int].last_ready, self.generation) is Unchanged implies self.ledger@.seen[j][d] == self.ledger@.outs[d] || self.ledger@.silent.contains(d) by {
                    assert(!outrun(nodes, self.ledger@, j, d));
                }
            }
        }
    }

    /// The engine as it is when it lets `parent` ask.
    pub open spec fn asking(&self, parent: AnchorToken) -> Self {
        EngineContextMut { node: parent, pending_on_anchor_get: false, invalid_token_requested: false, ..*self }
    }

    /// What becomes of the engine when a request is made again that was put down. One whose node or whose asking node
    /// is gone is dropped, and one that still has to wait is put down again.
    pub open spec fn retried(&self, later: &Self, request: PendingRequest) -> bool {
        &&& self.same_fixed(later)
        &&& if alive(self.graph.nodes@, request.parent) && alive(self.graph.nodes@, request.child) {
            exists|made: Self, poll: Poll|
                #![trigger self.asking(request.parent).answered(&made, request.child, request.necessary, poll)]
                {
                    &&& self.asking(request.parent).answered(&made, request.child, request.necessary, poll)
                    &&& later.graph == made.graph
                    &&& later.ledger@.outs == self.ledger@.outs
                    &&& later.ledger@.silent == self.ledger@.silent
                    &&& later.ledger@.lost == (if self.asking(request.parent).refuses(request.child, poll) {
                        self.ledger@.lost.insert(request.parent)
                    } else {
                        self.ledger@.lost
                    })
                    &&& if poll is PendingDefer {
                        &&& inserted(
                            &made.pending_requests,
                            &later.pending_requests,
                            request,
                            enqueue_outcome(&made.pending_requests, request.child),
                        )
                        &&& later.pending_stats == made.pending_stats.with_len(
                            total(later.pending_requests.model()) as usize,
                        )
                    } else {
                        &&& later.pending_requests == made.pending_requests
                        &&& later.pending_stats == made.pending_stats
                    }
                }
        } else {
            *later == *self
        }
    }

    /// Each of `requests` is made again in its turn.
    pub open spec fn retries(states: Seq<Self>, requests: Seq<PendingRequest>) -> bool {
        &&& states.len() == requests.len() + 1
        &&& forall|k: int| 0 <= k < requests.len() ==> states[k].retried(&states[k + 1], #[trigger] requests[k])
    }

    /// Makes a request of `parent` for `child` again that was put down.
    fn retry(&mut self, parent: AnchorToken, child: AnchorToken, necessary: bool) -> (poll: Poll)
        requires
            old(self).settled(),
            alive(old(self).graph.nodes@, parent),
            alive(old(self).graph.nodes@, child),
        ensures
            final(self).settled(),
            kept(old(self).graph.nodes@, final(self).graph.nodes@),
            old(self).same_fixed(final(self)),
            final(self).dirty_marks == old(self).dirty_marks,
            final(self).pending_stats.same_drains(old(self).pending_stats),
            final(self).pending_requests.wf(),
            old(self).asking(parent).answered(final(self), child, necessary, poll),
            final(self).ledger@.outs == old(self).ledger@.outs,
            final(self).ledger@.silent == old(self).ledger@.silent,
            final(self).ledger@.lost == (if old(self).asking(parent).refuses(child, poll) {
                old(self).ledger@.lost.insert(parent)
            } else {
                old(self).ledger@.lost
            }),
            !poll.waiting() && quiet(old(self).graph.nodes@) ==> quiet(final(self).graph.nodes@),
            poll.waiting() && !old(self).defer_disabled ==> total(final(self).pending_requests.model()) > 0,
            total(old(self).pending_requests.model()) <= total(final(self).pending_requests.model()),
    {
        let ghost was = *self;
        self.node = parent;
        self.pending_on_anchor_get = false;
        self.invalid_token_requested = false;
        let ghost asking = *self;
        proof {
            reveal(EngineContextMut::wf);
            reveal(steady);
        }
        let poll = self.request_node(child, necessary);
        let ghost answered = *self;
        self.node = NOBODY;
        proof {
            asking.lemma_retried_law(&answered, self, parent);
            let a = was.graph.nodes@;
            let b = self.graph.nodes@;
            reveal(calm);
            assert forall|j: AnchorToken, d: AnchorToken| #![trigger self.ledger@.seen[j].contains_key(d)] j < b.len() && !self.ledger@.lost.contains(j) && self.ledger@.seen[j].contains_key(d) implies !outrun(b, self.ledger@, j, d) by {
                assert(was.ledger@.seen[j].contains_key(d));
                assert(!outrun(a, was.ledger@, j, d));
                if d < b.len() {
                    assert(b[d as int].last_update == a[d as int].last_update);
                }
                assert(b[j as int].last_ready == a[j as int].last_ready);
            }
            if !poll.waiting() && quiet(a) {
                let limit = was.graph.recalc_queues@.len();
                let above = a[child as int].height < a[parent as int].height;
                let need = necessary && !unneeded(a[parent as int]) && (above || !(a[child as int].recalc_state is Ready));
                let m = choose|m: Seq<Node<N>>| #[trigger]
                    raised(a, m, limit) && if above {
                        granted(m, b, parent, child, need)
                    } else {
                        b == m
                    };
                assert forall|i: int| 0 <= i < b.len() implies !((#[trigger] b[i]).recalc_state is Pending) by {
                    assert(m[i].recalc_state == a[i].recalc_state);
                    if above {
                        assert(granted_at(m, b, parent, child, need, i));
                    }
                }
            }
        }
        poll
    }

    /// All requests that were put down are made again, each in its turn, or dropped if putting down is disabled.
    pub open spec fn drains(&self, later: &Self) -> bool {
        let requests = in_order(self.pending_requests.model());
        if self.defer_disabled {
            &&& *later == (EngineContextMut { pending_requests: later.pending_requests, ..*self })
            &&& total(later.pending_requests.model()) == 0
        } else if total(self.pending_requests.model()) == 0 {
            *later == *self
        } else {
            exists|states: Seq<Self>|
                {
                    &&& #[trigger] Self::retries(states, requests)
                    &&& total(states[0].pending_requests.model()) == 0
                    &&& states[0] == (EngineContextMut {
                        pending_requests: states[0].pending_requests,
                        pending_stats: self.pending_stats.drained(requests.len() as usize),
                        ..*self
                    })
                    &&& *later == (EngineContextMut {
                        pending_stats: AnchorsPendingStats {
                            last_drain_remaining: total(later.pending_requests.model()) as usize,
                            ..states.last().pending_stats
                        },
                        ..states.last()
                    })
                }
        }
    }

    /// Makes all requests again that were put down.
    pub fn process_pending_requests(&mut self)
        requires
            old(self).settled(),
        ensures
            final(self).settled(),
            kept(old(self).graph.nodes@, final(self).graph.nodes@),
            old(self).same_fixed(final(self)),
            final(self).dirty_marks == old(self).dirty_marks,
            old(self).drains(final(self)),
            quiet(old(self).graph.nodes@) && total(final(self).pending_requests.model()) == 0 ==> quiet(final(self).graph.nodes@),
            !old(self).defer_disabled && total(old(self).pending_requests.model()) > 0 ==> {
                let count = in_order(old(self).pending_requests.model()).len();
                &&& final(self).pending_stats.total_drained == capped_add(old(self).pending_stats.total_drained, count as u64)
                &&& final(self).pending_stats.last_drain_drained == count
                &&& final(self).pending_stats.last_drain_remaining == total(final(self).pending_requests.model())
            },
    {
        let ghost was = *self;
        proof {
            reveal(EngineContextMut::wf);
            lemma_kept_self(self.graph.nodes@);
        }
        if self.defer_disabled {
            self.pending_requests.clear();
            return ;
        }
        if self.pending_requests.is_empty() {
            return ;
        }
        let drained: Vec<PendingRequest> = self.pending_requests.drain_all();
        let count: usize = drained.len();
        proof {
            lemma_in_order_len(was.pending_requests.model());
        }
        self.pending_stats.record_drain(count);
        let ghost start = *self;
        let ghost mut states: Seq<Self> = seq![*self];
        let mut k: usize = 0;
        while k < drained.len()
            invariant
                self.settled(),
                kept(was.graph.nodes@, self.graph.nodes@),
                was.same_fixed(self),
                self.dirty_marks == was.dirty_marks,
                !was.defer_disabled,
                self.pending_stats.same_drains(start.pending_stats),
                k <= drained@.len(),
                states.len() == k + 1,
                quiet(was.graph.nodes@) ==> quiet(self.graph.nodes@) || total(self.pending_requests.model()) > 0,
                states[0] == start,
                states.last() == *self,
                forall|i: int| 0 <= i < k ==> states[i].retried(&states[i + 1], #[trigger] drained@[i]),
            decreases drained@.len() - k,
        {
            let request: PendingRequest = drained[k];
            let ghost turn = *self;
            if self.is_token_alive(request.parent) && self.is_token_alive(request.child) {
                let ghost before = *self;
                let poll = self.retry(request.parent, request.child, request.necessary);
                proof {
                    lemma_kept_transitive(was.graph.nodes@, before.graph.nodes@, self.graph.nodes@);
                }
                let ghost made = *self;
                if poll == Poll::PendingDefer {
                    self.put_down_again(request);
                }
                assert(turn.asking(request.parent).answered(&made, request.child, request.necessary, poll));
            }
            proof {
                assert(turn.retried(self, request));
                let earlier = states;
                states = states.push(*self);
                assert forall|i: int| 0 <= i < k + 1 implies states[i].retried(&states[i + 1], #[trigger] drained@[i]) by {
                    if i < k {
                        assert(states[i] == earlier[i] && states[i + 1] == earlier[i + 1]);
                    }
                }
            }
            k = k + 1;
        }
        proof {
            reveal(EngineContextMut::wf);
            assert(Self::retries(states, drained@));
        }
        let remaining: usize = self.pending_requests.len();
        self.pending_stats.last_drain_remaining = remaining;
    }

    fn put_down_again(&mut self, request: PendingRequest)
        requires
            old(self).settled(),
        ensures
            final(self).settled(),
            *final(self) == (EngineContextMut {
                pending_requests: final(self).pending_requests,
                pending_stats: final(self).pending_stats,
                ..*old(self)
            }),
            inserted(
                &old(self).pending_requests,
                &final(self).pending_requests,
                request,
                enqueue_outcome(&old(self).pending_requests, request.child),
            ),
            total(final(self).pending_requests.model()) > 0,
            final(self).pending_stats == old(self).pending_stats.with_len(
                total(final(self).pending_requests.model()) as usize,
            ),
    {
        proof {
            reveal(EngineContextMut::wf);
        }
        let outcome = self.pending_requests.insert(request);
        let queue_len: usize = self.pending_requests.len();
        self.pending_stats.record_len(queue_len);
    }

    proof fn lemma_retried_law(&self, answered: &Self, later: &Self, parent: AnchorToken)
        requires
            self.wf(),
            self.node == parent,
            parent < self.graph.nodes@.len(),
            idle_but(self.graph.nodes@, -1),
            caught_up::<V, N>(self.graph.nodes@, self.dirty_marks@),
            lawful(self.graph.nodes@, self.ledger@, self.dirty_marks@, -1),
            served(self.graph.nodes@, self.ledger@.lost, NOBODY),
            steady(self.graph.nodes@, self.ledger@, NOBODY),
            kept(self.graph.nodes@, answered.graph.nodes@),
            self.same_rest(answered),
            answered.wf(),
            answered.graph.nodes@[parent as int].necessary_count == self.graph.nodes@[parent as int].necessary_count,
            *later == (EngineContextMut { node: NOBODY, ..*answered }),
        ensures
            later.resting(),
    {
        reveal(EngineContextMut::wf);
        reveal(lawful);
        reveal(caught_up);
        reveal(steady);
        reveal(told_wf);
        let a = self.graph.nodes@;
        let b = later.graph.nodes@;
        assert forall|i: int| 0 <= i < b.len() implies {
            &&& (#[trigger] b[i]).alive ==> b[i].anchor is Some
            &&& !b[i].anchor_locked
        } by {
            assert(b[i].anchor == a[i].anchor && b[i].alive == a[i].alive && b[i].anchor_locked == a[i].anchor_locked);
        }
        assert forall|i: int| 0 <= i < b.len() && i != NOBODY && (#[trigger] b[i]).alive && b[i].recalc_state is NeedsRecalc && !later.ledger@.lost.contains(i as usize) implies unneeded(b[i]) by {
            assert(a[i].alive && a[i].recalc_state is NeedsRecalc);
            assert(!self.ledger@.lost.contains(i as usize));
            if i == parent {
                assert(unneeded(a[i]));
                assert(b[i].observed == a[i].observed);
            }
        }
        assert forall|j: AnchorToken, d: AnchorToken| #![trigger later.ledger@.told[j].contains_key(d)] j < b.len() && d < b.len() && later.ledger@.told[j].contains_key(d) implies {
            &&& b[d as int].alive
            &&& d == NOBODY || later.ledger@.lost.contains(d) || !(b[d as int].recalc_state is NeedsRecalc)
        } by {
            assert(answered.ledger@.told[j].contains_key(d));
            if d == parent {
                assert(lists(b[d as int].clean_parents@, j as int));
                assert(j != parent);
                assert(self.ledger@.told[j].contains_key(d));
            }
        }
        assert forall|k: int| 0 <= k < b.len() && k != -1 && (#[trigger] b[k]).anchor is Some && !later.ledger@.lost.contains(k as usize) implies node_lawful(
            b[k],
            later.ledger@.told[k as usize],
            later.ledger@.seen[k as usize],
            lists(later.dirty_marks@, k),
        ) by {
            assert(b[k].anchor == a[k].anchor && b[k].last_ready == a[k].last_ready);
            assert(!self.ledger@.lost.contains(k as usize));
            assert(node_lawful(a[k], self.ledger@.told[k as usize], self.ledger@.seen[k as usize], lists(self.dirty_marks@, k)));
            assert(self.ledger@.told[k as usize].submap_of(later.ledger@.told[k as usize])) by {
                if k != parent {
                    assert(later.ledger@.told[k as usize] == self.ledger@.told[k as usize]);
                }
            }
            a[k].anchor->0.more_told(self.ledger@.told[k as usize], later.ledger@.told[k as usize]);
            let seen = self.ledger@.seen[k as usize];
            let told = self.ledger@.told[k as usize];
            let more = later.ledger@.told[k as usize];
            if seen.submap_of(told) {
                lemma_submap_transitive(seen, told, more);
            }
            if lists(self.dirty_marks@, k) {
                let m = choose|m: int| 0 <= m < self.dirty_marks@.len() && #[trigger] self.dirty_marks@[m] == k;
                assert(later.dirty_marks@.subrange(0, self.dirty_marks@.len() as int)[m] == k);
                assert(later.dirty_marks@[m] == k);
            }
        }
    }

    /// Node `i` has been queued.
    pub open spec fn enqueues(&self, later: &Self, i: AnchorToken) -> bool {
        &&& *later == (EngineContextMut { graph: later.graph, ..*self })
        &&& later.graph.nodes@ == self.graph.nodes@.update(
            i as int,
            Node { recalc_state: RecalcState::Pending, ..self.graph.nodes@[i as int] },
        )
        &&& later.graph.last_deleted == self.graph.last_deleted
        &&& later.graph.recalc_queues@.len() == self.graph.recalc_queues@.len()
    }

    /// Queues node `i`.
    pub fn enqueue(&mut self, i: AnchorToken)
        requires
            old(self).settled(),
            alive(old(self).graph.nodes@, i),
        ensures
            final(self).settled(),
            old(self).enqueues(final(self), i),
            old(self).same_fixed(final(self)),
    {
        let ghost was = *self;
        proof {
            reveal(EngineContextMut::wf);
        }
        self.graph.queue_recalc(i);
        proof {
            was.lemma_stirred_self();
            was.lemma_stirred(self, self.dirty_marks@, self.dirty_marks@);
            lemma_stirred_caught_up::<N, V>(was.graph.nodes@, self.graph.nodes@, self.dirty_marks@, self.dirty_marks@);
        }
    }

    pub proof fn lemma_stirred_needs(&self, later: &Self)
        requires
            stirred::<N, V>(self.graph.nodes@, later.graph.nodes@),
        ensures
            same_needs(self.graph.nodes@, later.graph.nodes@),
    {
    }

    pub proof fn lemma_same_fixed_transitive(&self, mid: &Self, later: &Self)
        requires
            self.same_fixed(mid),
            mid.same_fixed(later),
        ensures
            self.same_fixed(later),
    {
        let a = self.dirty_marks@;
        let b = mid.dirty_marks@;
        let c = later.dirty_marks@;
        assert(a =~= c.subrange(0, a.len() as int)) by {
            assert forall|k: int| 0 <= k < a.len() implies #[trigger] a[k] == c[k] by {
                assert(a[k] == b.subrange(0, a.len() as int)[k]);
                assert(b[k] == c.subrange(0, b.len() as int)[k]);
            }
        }
        assert forall|i: int| 0 <= i < self.graph.nodes@.len() implies (#[trigger] later.graph.nodes@[i]).alive == self.graph.nodes@[i].alive && later.graph.nodes@[i].observed == self.graph.nodes@[i].observed by {
            assert(mid.graph.nodes@[i].alive == self.graph.nodes@[i].alive);
        }
    }

    proof fn lemma_stirred_self(&self)
        requires
            self.wf(),
            self.node == NOBODY,
        ensures
            stirred::<N, V>(self.graph.nodes@, self.graph.nodes@),
    {
        reveal(EngineContextMut::wf);
    }
}

impl<V, N: AnchorInner<EngineContextMut<N, V>, Output = V>> EngineContextMut<N, V> {
    /// What is done for node `i`, which has been taken out of the queue at `height`: it is recalculated, unless it
    /// has risen since it was queued.
    pub open spec fn works(
        &self,
        later: &Self,
        height: usize,
        i: AnchorToken,
        done: Result<bool, EngineError>,
    ) -> bool {
        if self.graph.nodes@[i as int].height != height {
            *later == *self && done == Ok::<bool, EngineError>(false)
        } else if self.graph.nodes@[i as int].anchor is Some {
            self.recalculated(later, i, done)
        } else {
            &&& done == Ok::<bool, EngineError>(true)
            &&& exists|start: Self| #[trigger] self.takes_over(&start, i) && start.unlocks(later, i)
        }
    }

    /// One node has had its turn: it is queued again if it is not done.
    pub open spec fn turn(&self, later: &Self, done: Result<bool, EngineError>) -> bool {
        exists|taken: Self, worked: Self, height: usize, i: AnchorToken|
            {
                &&& #[trigger] self.takes(&taken, height, i)
                &&& #[trigger] taken.works(&worked, height, i, done)
                &&& match done {
                    Ok(true) => *later == (EngineContextMut { node: NOBODY, ..worked }),
                    Ok(false) => worked.requeued(later),
                    Err(_) => {
                        &&& *later == (EngineContextMut { node: NOBODY, ledger: later.ledger, ..worked })
                        &&& later.ledger@ == worked.broken(Some(i))
                    },
                }
            }
    }

    /// A node has had turn `k`, without an error.
    pub open spec fn turned(states: Seq<Self>, k: int) -> bool {
        states[k].turn(&states[k + 1], Ok(true)) || states[k].turn(&states[k + 1], Ok(false))
    }

    /// One node after the other has had its turn, without an error.
    pub open spec fn turns(states: Seq<Self>) -> bool {
        forall|k: int| 0 <= k < states.len() - 1 ==> #[trigger] Self::turned(states, k)
    }

    /// The queue has been worked through until it was empty, until a node could not become ready, or for as many
    /// turns as there may be.
    pub open spec fn ran(&self, later: &Self, spin_limit: usize, done: Result<(), EngineError>) -> bool {
        exists|states: Seq<Self>|
            {
                let limit = if spin_limit > 0 {
                    spin_limit as int
                } else {
                    u64::MAX as int
                };
                &&& #[trigger] Self::turns(states)
                &&& 0 < states.len() <= limit + 1
                &&& states[0] == *self
                &&& match done {
                    Ok(_) => *later == states.last() && quiet(later.graph.nodes@),
                    Err(EngineError::Spinning) => {
                        &&& states.len() == limit + 1
                        &&& !quiet(later.graph.nodes@)
                        &&& *later == (EngineContextMut { graph: later.graph, ledger: later.ledger, ..states.last() })
                        &&& later.graph.nodes@ == states.last().graph.nodes@
                        &&& later.ledger@ == states.last().broken(None)
                    },
                    Err(error) => states.last().turn(later, Err(error)),
                }
            }
    }

    /// The queue has been worked through, and if that went well the requests that were put down have been made again.
    pub open spec fn round(&self, later: &Self, spin_limit: usize, done: Result<(), EngineError>) -> bool {
        if done is Ok {
            exists|mid: Self| #[trigger] self.ran(&mid, spin_limit, Ok(())) && mid.drains(later)
        } else {
            self.ran(later, spin_limit, done)
        }
    }

    /// Node `i` has been queued, and there has been a round.
    pub open spec fn pushed(
        &self,
        later: &Self,
        i: AnchorToken,
        spin_limit: usize,
        done: Result<(), EngineError>,
    ) -> bool {
        exists|queued: Self| #[trigger] self.enqueues(&queued, i) && queued.round(later, spin_limit, done)
    }

    /// The marks have been taken, and there has been a round; the first one begins a generation.
    pub open spec fn refreshed(
        &self,
        later: &Self,
        first: bool,
        spin_limit: usize,
        done: Result<(), EngineError>,
    ) -> bool {
        exists|marked: Self, begun: Self|
            {
                &&& #[trigger] self.takes_marks(&marked)
                &&& begun == (EngineContextMut {
                    generation: if first {
                        next(self.generation)
                    } else {
                        self.generation
                    },
                    ..marked
                })
                &&& #[trigger] begun.round(later, spin_limit, done)
            }
    }

    /// Gives node `i` its turn, which has been taken out of the queue at `height`.
    fn take_turn(
        &mut self,
        lock_strict: bool,
        height: usize,
        i: AnchorToken,
        Ghost(before): Ghost<Self>,
    ) -> (done: Result<bool, EngineError>)
        requires
            before.resting(),
            before.takes(old(self), height, i),
            old(self).law(i as int),
            idle_but(old(self).graph.nodes@, -1),
            !old(self).ledger@.lost.contains(i) && old(self).graph.nodes@[i as int].anchor is Some ==> standing(
                old(self).graph.nodes@[i as int],
                old(self).ledger@.told[i],
                old(self).ledger@.seen[i],
            ),
        ensures
            final(self).resting(),
            old(self).same_fixed(final(self)),
            before.turn(final(self), done),
            done is Err ==> final(self).settled() && !(done->Err_0 is Spinning) && stalls(
                final(self).graph.nodes@,
                done->Err_0,
            ),
    {
        let ghost taken = *self;
        let complete: bool = if self.graph.nodes[i].height == height {
            match self.recalculate(i, lock_strict) {
                Ok(complete) => complete,
                Err(error) => {
                    let ghost worked = *self;
                    self.break_off(Ghost(Some(i)));
                    self.let_go();
                    assert(taken.works(&worked, height, i, Err(error)));
                    return Err(error);
                },
            }
        } else {
            false
        };
        let ghost worked = *self;
        assert(taken.works(&worked, height, i, Ok(complete)));
        if !complete {
            self.requeue();
        } else {
            self.let_go();
        }
        Ok(complete)
    }

    /// Recalculates until nothing is queued any more, at most `spin_limit` times unless that is zero.
    pub fn run(&mut self, lock_strict: bool, spin_limit: usize) -> (done: Result<(), EngineError>)
        requires
            old(self).resting(),
        ensures
            final(self).resting(),
            final(self).graph.nodes@.len() == old(self).graph.nodes@.len(),
            old(self).same_fixed(final(self)),
            final(self).settled(),
            done is Ok ==> quiet(final(self).graph.nodes@),
            done is Err ==> stalls(final(self).graph.nodes@, done->Err_0),
            quiet(old(self).graph.nodes@) ==> done is Ok && *final(self) == *old(self),
            old(self).ran(final(self), spin_limit, done),
    {
        let ghost was = *self;
        let mut count: u64 = 0;
        let ghost mut states: Seq<Self> = seq![*self];
        loop
            invariant
                was == *old(self),
                self.resting(),
                self.graph.nodes@.len() == was.graph.nodes@.len(),
                was.same_fixed(self),
                quiet(was.graph.nodes@) ==> *self == was,
                states.len() == count + 1,
                states[0] == was,
                states.last() == *self,
                spin_limit > 0 ==> count <= spin_limit,
                Self::turns(states),
            decreases u64::MAX - count,
        {
            let ghost before = *self;
            match self.take_next() {
                None => {
                    proof {
                        self.lemma_quiet_calm();
                    }
                    return Ok(());
                },
                Some((height, i)) => {
                    if count == u64::MAX || (spin_limit > 0 && count >= spin_limit as u64) {
                        self.requeue();
                        self.break_off(Ghost(None));
                        assert(self.graph.nodes@[i as int].recalc_state is Pending);
                        assert(self.graph.nodes@ =~= before.graph.nodes@);
                        return Err(EngineError::Spinning);
                    }
                    count = count + 1;
                    match self.take_turn(lock_strict, height, i, Ghost(before)) {
                        Ok(complete) => {
                            proof {
                                let earlier = states;
                                states = states.push(*self);
                                assert forall|k: int| 0 <= k < states.len() - 1 implies #[trigger] Self::turned(states, k) by {
                                    if k < earlier.len() - 1 {
                                        assert(Self::turned(earlier, k));
                                    }
                                }
                            }
                        },
                        Err(error) => {
                            return Err(error);
                        },
                    }
                },
            }
        }
    }
}

} // verus!
