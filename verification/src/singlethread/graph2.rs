//! The recomputation graph: its nodes, the links between them, and the queue of nodes that have
//! to be recalculated.

use crate::expert::AnchorToken;
use vstd::prelude::*;

verus! {

/// Whether a node's output can be read.
#[derive(Clone, Copy, Debug, PartialEq, Eq, Structural)]
pub enum RecalcState {
    /// It has never been calculated, or something it depends on has changed.
    NeedsRecalc,
    /// It is in the recalculation queue.
    Pending,
    /// Its output is up to date.
    Ready,
}

/// A node of the graph.
pub struct Node<N> {
    /// The anchor itself; absent while it is being polled and once it has been removed.
    pub anchor: Option<N>,
    pub alive: bool,
    /// Set by `Engine::mark_observed`.
    pub observed: bool,
    /// Set only while heights are being raised.
    pub visited: bool,
    /// How many nodes list this one as a necessary child.
    pub necessary_count: usize,
    /// The generation in which the node last completed a poll.
    pub last_ready: Option<u64>,
    /// The generation in which the node last changed its output.
    pub last_update: Option<u64>,
    /// Set while the node is being recalculated.
    pub anchor_locked: bool,
    /// The node has to be queued again when it is unlocked.
    pub pending_recalc: bool,
    /// Nodes that reported a change while this one was locked.
    pub pending_dirty: Vec<AnchorToken>,
    pub recalc_retry: u32,
    pub recalc_state: RecalcState,
    /// Nodes are recalculated in the order of their heights.
    pub height: usize,
    /// The nodes that hear of a change of this one.
    pub clean_parents: Vec<AnchorToken>,
    /// The nodes that this one keeps necessary.
    pub necessary_children: Vec<AnchorToken>,
}

/// All nodes, found by their tokens, and the recalculation queue.
pub struct Graph2<N> {
    pub nodes: Vec<Node<N>>,
    /// For each height, the queued nodes that had this height when they were queued.
    pub recalc_queues: Vec<Vec<AnchorToken>>,
    pub last_deleted: Option<AnchorToken>,
}

/// Whether every token in `tokens` is that of a node.
pub open spec fn in_range(tokens: Seq<AnchorToken>, len: nat) -> bool {
    forall|k: int| 0 <= k < tokens.len() ==> #[trigger] tokens[k] < len
}

/// Whether `c` is among `tokens`.
pub open spec fn lists(tokens: Seq<AnchorToken>, c: int) -> bool {
    exists|k: int| 0 <= k < tokens.len() && #[trigger] tokens[k] == c
}

/// Whether `p` keeps `c` necessary.
pub open spec fn needs<N>(nodes: Seq<Node<N>>, p: int, c: int) -> bool {
    0 <= p < nodes.len() && lists(nodes[p].necessary_children@, c)
}

/// The nodes that keep `c` necessary.
pub open spec fn necessary_parents<N>(nodes: Seq<Node<N>>, c: int) -> Set<int> {
    Set::new(|p: int| needs(nodes, p, c))
}

/// Links lead to nodes, and necessity is counted right.
pub open spec fn links_wf<N>(nodes: Seq<Node<N>>) -> bool {
    &&& forall|i: int|
        0 <= i < nodes.len() ==> {
            &&& in_range((#[trigger] nodes[i]).clean_parents@, nodes.len())
            &&& in_range(nodes[i].necessary_children@, nodes.len())
            &&& in_range(nodes[i].pending_dirty@, nodes.len())
            &&& nodes[i].clean_parents@.no_duplicates()
            &&& !lists(nodes[i].clean_parents@, i)
            &&& nodes[i].necessary_children@.no_duplicates()
            &&& nodes[i].necessary_count == necessary_parents(nodes, i).len()
        }
}

/// Whether `i` is queued at position `k` of height `h`.
pub open spec fn at(queues: Seq<Vec<AnchorToken>>, h: int, k: int) -> bool {
    0 <= h < queues.len() && 0 <= k < queues[h]@.len()
}

pub open spec fn queued(queues: Seq<Vec<AnchorToken>>, i: int) -> bool {
    exists|h: int, k: int| #[trigger] at(queues, h, k) && queues[h]@[k] == i
}

/// The queue holds every pending node once, and nothing else.
pub open spec fn queue_wf<N>(nodes: Seq<Node<N>>, queues: Seq<Vec<AnchorToken>>) -> bool {
    &&& forall|i: int|
        0 <= i < nodes.len() ==> {
            &&& (#[trigger] nodes[i]).height < queues.len()
            &&& nodes[i].recalc_state is Pending ==> queued(queues, i)
        }
    &&& forall|h: int, k: int| #[trigger]
        at(queues, h, k) ==> queues[h]@[k] < nodes.len() && nodes[queues[h]@[k] as int].recalc_state is Pending
    &&& forall|h: int, k: int, h2: int, k2: int| #[trigger]
        at(queues, h, k) && #[trigger] at(queues, h2, k2) && queues[h]@[k] == queues[h2]@[k2] ==> h == h2 && k == k2
}

/// Each node is lower than the nodes that hear of its changes.
pub open spec fn ordered<N>(nodes: Seq<Node<N>>) -> bool {
    forall|c: int, k: int|
        0 <= c < nodes.len() && 0 <= k < nodes[c].clean_parents@.len() && !nodes[c].visited
            ==> nodes[c].height < nodes[(#[trigger] nodes[c].clean_parents@[k]) as int].height
}

/// Whether nothing needs node `i`.
pub open spec fn unneeded<N>(node: Node<N>) -> bool {
    !node.observed && node.necessary_count == 0
}

/// Node `i` keeps nothing necessary unless it is itself observed or necessary.
pub open spec fn tidy_at<N>(nodes: Seq<Node<N>>, i: int) -> bool {
    unneeded(nodes[i]) ==> nodes[i].necessary_children@.len() == 0
}

/// Only observed and necessary nodes keep others necessary.
pub open spec fn tidy<N>(nodes: Seq<Node<N>>) -> bool {
    forall|i: int| 0 <= i < nodes.len() ==> #[trigger] tidy_at(nodes, i)
}

/// `a` and `b` differ at most in what does not concern links.
pub open spec fn same_links<N>(a: Seq<Node<N>>, b: Seq<Node<N>>) -> bool {
    &&& a.len() == b.len()
    &&& forall|i: int|
        0 <= i < a.len() ==> {
            &&& (#[trigger] a[i]).clean_parents@ == b[i].clean_parents@
            &&& a[i].necessary_children@ == b[i].necessary_children@
            &&& a[i].necessary_count == b[i].necessary_count
            &&& a[i].pending_dirty@ == b[i].pending_dirty@
        }
}

pub proof fn lemma_same_links<N>(a: Seq<Node<N>>, b: Seq<Node<N>>)
    requires
        links_wf(a),
        same_links(a, b),
    ensures
        links_wf(b),
{
    assert forall|c: int| #[trigger] necessary_parents(b, c) == necessary_parents(a, c) by {
        assert(necessary_parents(b, c) =~= necessary_parents(a, c));
    }
    assert forall|i: int| 0 <= i < b.len() implies {
        &&& in_range((#[trigger] b[i]).clean_parents@, b.len())
        &&& in_range(b[i].necessary_children@, b.len())
        &&& in_range(b[i].pending_dirty@, b.len())
        &&& b[i].clean_parents@.no_duplicates()
        &&& !lists(b[i].clean_parents@, i)
        &&& b[i].necessary_children@.no_duplicates()
        &&& b[i].necessary_count == necessary_parents(b, i).len()
    } by {
        assert(a[i].clean_parents@ == b[i].clean_parents@);
    }
}

/// `a` and `b` differ at most in what does not concern the queue.
pub open spec fn same_states<N>(a: Seq<Node<N>>, b: Seq<Node<N>>) -> bool {
    &&& a.len() == b.len()
    &&& forall|i: int|
        0 <= i < a.len() ==> (#[trigger] a[i]).recalc_state == b[i].recalc_state && a[i].height == b[i].height
}

pub proof fn lemma_same_states<N>(a: Seq<Node<N>>, b: Seq<Node<N>>, queues: Seq<Vec<AnchorToken>>)
    requires
        queue_wf(a, queues),
        same_states(a, b),
    ensures
        queue_wf(b, queues),
{
    assert forall|i: int| 0 <= i < b.len() implies (#[trigger] b[i]).height < queues.len() && (b[i].recalc_state is Pending ==> queued(queues, i)) by {
        assert(a[i].recalc_state == b[i].recalc_state);
    }
    assert forall|h: int, k: int| #[trigger] at(queues, h, k) implies queues[h]@[k] < b.len() && b[queues[h]@[k] as int].recalc_state is Pending by {
        assert(a[queues[h]@[k] as int].recalc_state is Pending);
    }
}

/// `b` differs from `a` at most in which nodes keep which necessary.
pub open spec fn necessity_only<N>(a: Seq<Node<N>>, b: Seq<Node<N>>) -> bool {
    &&& a.len() == b.len()
    &&& forall|i: int|
        0 <= i < a.len() ==> #[trigger] b[i] == (Node {
            necessary_count: b[i].necessary_count,
            necessary_children: b[i].necessary_children,
            ..a[i]
        })
}

/// How node `j` can come out when what nothing needs is released from `i` downwards: it has kept
/// its list, or it lost it for want of anything that needs it.
pub open spec fn released<N>(i: int, a: Seq<Node<N>>, b: Seq<Node<N>>, j: int) -> bool {
    &&& b[j].necessary_count <= a[j].necessary_count
    &&& b[j].necessary_children@ == a[j].necessary_children@ || {
        &&& b[j].necessary_children@.len() == 0
        &&& unneeded(b[j])
        &&& j == i || b[j].necessary_count < a[j].necessary_count
    }
}

/// How many times one node keeps another necessary.
pub open spec fn edges<N>(nodes: Seq<Node<N>>) -> nat
    decreases nodes.len(),
{
    if nodes.len() == 0 {
        0
    } else {
        edges(nodes.drop_last()) + nodes.last().necessary_children@.len()
    }
}

proof fn lemma_edges_not_larger<N>(a: Seq<Node<N>>, b: Seq<Node<N>>)
    requires
        a.len() == b.len(),
        forall|j: int| 0 <= j < a.len() ==> (#[trigger] b[j]).necessary_children@.len() <= a[j].necessary_children@.len(),
    ensures
        edges(b) <= edges(a),
    decreases a.len(),
{
    if a.len() > 0 {
        assert forall|j: int| 0 <= j < a.len() - 1 implies (#[trigger] b.drop_last()[j]).necessary_children@.len() <= a.drop_last()[j].necessary_children@.len() by {
            assert(b[j].necessary_children@.len() <= a[j].necessary_children@.len());
        }
        lemma_edges_not_larger(a.drop_last(), b.drop_last());
        assert(b[a.len() - 1].necessary_children@.len() <= a[a.len() - 1].necessary_children@.len());
    }
}

proof fn lemma_edges_smaller<N>(a: Seq<Node<N>>, b: Seq<Node<N>>, i: int)
    requires
        a.len() == b.len(),
        0 <= i < a.len(),
        forall|j: int| 0 <= j < a.len() ==> (#[trigger] b[j]).necessary_children@.len() <= a[j].necessary_children@.len(),
        b[i].necessary_children@.len() < a[i].necessary_children@.len(),
    ensures
        edges(b) < edges(a),
    decreases a.len(),
{
    assert forall|j: int| 0 <= j < a.len() - 1 implies (#[trigger] b.drop_last()[j]).necessary_children@.len() <= a.drop_last()[j].necessary_children@.len() by {
        assert(b[j].necessary_children@.len() <= a[j].necessary_children@.len());
    }
    assert(b[a.len() - 1].necessary_children@.len() <= a[a.len() - 1].necessary_children@.len());
    if i == a.len() - 1 {
        lemma_edges_not_larger(a.drop_last(), b.drop_last());
    } else {
        lemma_edges_smaller(a.drop_last(), b.drop_last(), i);
    }
}

/// Only finitely many nodes keep a node necessary.
pub proof fn lemma_necessary_parents_finite<N>(nodes: Seq<Node<N>>, c: int)
    ensures
        necessary_parents(nodes, c).finite(),
        necessary_parents(nodes, c).len() <= nodes.len(),
{
    let all = vstd::set_lib::set_int_range(0, nodes.len() as int);
    vstd::set_lib::lemma_int_range(0, nodes.len() as int);
    assert(necessary_parents(nodes, c).subset_of(all));
    vstd::set_lib::lemma_len_subset(necessary_parents(nodes, c), all);
}

impl<N> Graph2<N> {
    pub open spec fn wf(&self) -> bool {
        &&& links_wf(self.nodes@)
        &&& queue_wf(self.nodes@, self.recalc_queues@)
    }

    /// `other` has the nodes of `self` but for `i`.
    pub open spec fn same_but(&self, other: &Self, i: int) -> bool {
        &&& other.nodes@.len() == self.nodes@.len()
        &&& other.last_deleted == self.last_deleted
        &&& forall|j: int| 0 <= j < self.nodes@.len() && j != i ==> #[trigger] other.nodes@[j] == self.nodes@[j]
    }

    /// Puts a node into the recalculation queue, unless it is there already.
    pub fn queue_recalc_force(&mut self, i: AnchorToken)
        requires
            old(self).wf(),
            i < old(self).nodes@.len(),
        ensures
            final(self).wf(),
            final(self).nodes@ == old(self).nodes@.update(
                i as int,
                Node { recalc_state: RecalcState::Pending, ..old(self).nodes@[i as int] },
            ),
            final(self).last_deleted == old(self).last_deleted,
            final(self).recalc_queues@.len() == old(self).recalc_queues@.len(),
            old(self).nodes@[i as int].recalc_state is Pending ==> final(self).recalc_queues
                == old(self).recalc_queues,
            !(old(self).nodes@[i as int].recalc_state is Pending) ==> forall|h: int|
                0 <= h < old(self).recalc_queues@.len() ==> #[trigger] final(self).recalc_queues@[h]@ == (if h
                    == old(self).nodes@[i as int].height {
                    old(self).recalc_queues@[h]@.push(i)
                } else {
                    old(self).recalc_queues@[h]@
                }),
    {
        if self.nodes[i].recalc_state == RecalcState::Pending {
            assert(self.nodes@ =~= old(self).nodes@.update(i as int, Node { recalc_state: RecalcState::Pending, ..old(self).nodes@[i as int] }));
            return ;
        }
        let height: usize = self.nodes[i].height;
        self.recalc_queues[height].push(i);
        self.nodes[i].recalc_state = RecalcState::Pending;
        proof {
            let was = old(self);
            let queues = self.recalc_queues@;
            assert(at(queues, height as int, queues[height as int]@.len() - 1));
            assert forall|j: int| 0 <= j < self.nodes@.len() && (#[trigger] self.nodes@[j]).recalc_state is Pending implies queued(queues, j) by {
                if j != i {
                    assert(was.nodes@[j].recalc_state is Pending);
                    let (h, k) = choose|h: int, k: int| #[trigger] at(was.recalc_queues@, h, k) && was.recalc_queues@[h]@[k] == j;
                    assert(at(queues, h, k) && queues[h]@[k] == j);
                }
            }
            assert forall|h: int, k: int| #[trigger] at(queues, h, k) implies queues[h]@[k] < self.nodes@.len() && self.nodes@[queues[h]@[k] as int].recalc_state is Pending by {
                if !(h == height && k == queues[h]@.len() - 1) {
                    assert(at(was.recalc_queues@, h, k));
                }
            }
            assert forall|h: int, k: int, h2: int, k2: int| #[trigger] at(queues, h, k) && #[trigger] at(queues, h2, k2) && queues[h]@[k] == queues[h2]@[k2] implies h == h2 && k == k2 by {
                let a = !(h == height && k == queues[h]@.len() - 1);
                let b = !(h2 == height && k2 == queues[h2]@.len() - 1);
                if a {
                    assert(at(was.recalc_queues@, h, k));
                }
                if b {
                    assert(at(was.recalc_queues@, h2, k2));
                }
            }
            lemma_same_links(was.nodes@, self.nodes@);
        }
    }

    /// Puts a node into the recalculation queue, unless it is there already or is locked.
    pub fn queue_recalc(&mut self, i: AnchorToken)
        requires
            old(self).wf(),
            i < old(self).nodes@.len(),
        ensures
            final(self).wf(),
            final(self).nodes@ == (if old(self).nodes@[i as int].anchor_locked {
                old(self).nodes@
            } else {
                old(self).nodes@.update(
                    i as int,
                    Node { recalc_state: RecalcState::Pending, ..old(self).nodes@[i as int] },
                )
            }),
            final(self).last_deleted == old(self).last_deleted,
            final(self).recalc_queues@.len() == old(self).recalc_queues@.len(),
            old(self).nodes@[i as int].anchor_locked || old(self).nodes@[i as int].recalc_state is Pending
                ==> final(self).recalc_queues == old(self).recalc_queues,
            !old(self).nodes@[i as int].anchor_locked && !(old(self).nodes@[i as int].recalc_state is Pending)
                ==> forall|h: int|
                0 <= h < old(self).recalc_queues@.len() ==> #[trigger] final(self).recalc_queues@[h]@ == (if h
                    == old(self).nodes@[i as int].height {
                    old(self).recalc_queues@[h]@.push(i)
                } else {
                    old(self).recalc_queues@[h]@
                }),
    {
        if !self.nodes[i].anchor_locked {
            self.queue_recalc_force(i);
        }
    }

    /// Takes the lowest queued node out of the queue, the last one queued if there are several.
    pub fn recalc_pop_next(&mut self) -> (next: Option<(usize, AnchorToken)>)
        requires
            old(self).wf(),
        ensures
            final(self).wf(),
            final(self).last_deleted == old(self).last_deleted,
            final(self).recalc_queues@.len() == old(self).recalc_queues@.len(),
            next is None ==> *final(self) == *old(self) && forall|i: int|
                0 <= i < old(self).nodes@.len() ==> !((#[trigger] old(self).nodes@[i]).recalc_state is Pending),
            next matches Some((height, i)) ==> {
                &&& height < old(self).recalc_queues@.len()
                &&& forall|h: int| 0 <= h < height ==> (#[trigger] old(self).recalc_queues@[h])@.len() == 0
                &&& old(self).recalc_queues@[height as int]@ == final(self).recalc_queues@[height as int]@.push(i)
                &&& forall|h: int|
                    0 <= h < old(self).recalc_queues@.len() && h != height ==> #[trigger] final(self).recalc_queues@[h]
                        == old(self).recalc_queues@[h]
                &&& i < old(self).nodes@.len()
                &&& old(self).nodes@[i as int].recalc_state is Pending
                &&& final(self).nodes@ == old(self).nodes@.update(
                    i as int,
                    Node { recalc_state: RecalcState::NeedsRecalc, ..old(self).nodes@[i as int] },
                )
            },
    {
        let mut h: usize = 0;
        while h < self.recalc_queues.len()
            invariant
                *self == *old(self),
                h <= self.recalc_queues@.len(),
                forall|g: int| 0 <= g < h ==> (#[trigger] self.recalc_queues@[g])@.len() == 0,
                self.wf(),
            decreases self.recalc_queues@.len() - h,
        {
            if self.recalc_queues[h].len() > 0 {
                let ghost last = self.recalc_queues@[h as int]@.len() - 1;
                assert(at(self.recalc_queues@, h as int, last));
                let i: AnchorToken = self.recalc_queues[h].pop().unwrap();
                self.nodes[i].recalc_state = RecalcState::NeedsRecalc;
                proof {
                    let was = old(self);
                    let queues = self.recalc_queues@;
                    lemma_same_links(was.nodes@, self.nodes@);
                    assert(was.recalc_queues@[h as int]@ =~= queues[h as int]@.push(i));
                    assert forall|g: int, k: int| #[trigger] at(queues, g, k) implies at(was.recalc_queues@, g, k) && queues[g]@[k] == was.recalc_queues@[g]@[k] && queues[g]@[k] != i by {
                        assert(at(was.recalc_queues@, g, k));
                    }
                    assert forall|j: int| 0 <= j < self.nodes@.len() && (#[trigger] self.nodes@[j]).recalc_state is Pending implies queued(queues, j) by {
                        assert(was.nodes@[j].recalc_state is Pending);
                        let (g, k) = choose|g: int, k: int| #[trigger] at(was.recalc_queues@, g, k) && was.recalc_queues@[g]@[k] == j;
                        assert(at(queues, g, k) && queues[g]@[k] == j);
                    }
                    assert forall|g: int, k: int, g2: int, k2: int| #[trigger] at(queues, g, k) && #[trigger] at(queues, g2, k2) && queues[g]@[k] == queues[g2]@[k2] implies g == g2 && k == k2 by {
                        assert(at(was.recalc_queues@, g, k) && at(was.recalc_queues@, g2, k2));
                    }
                }
                return Some((h, i));
            }
            h = h + 1;
        }
        assert forall|i: int| 0 <= i < self.nodes@.len() implies !((#[trigger] self.nodes@[i]).recalc_state is Pending) by {
            if self.nodes@[i].recalc_state is Pending {
                let (g, k) = choose|g: int, k: int| #[trigger] at(self.recalc_queues@, g, k) && self.recalc_queues@[g]@[k] == i;
                assert(self.recalc_queues@[g]@.len() == 0);
            }
        }
        None
    }

    /// Marks a ready node as not ready.
    pub fn needs_recalc(&mut self, i: AnchorToken)
        requires
            old(self).wf(),
            i < old(self).nodes@.len(),
        ensures
            final(self).wf(),
            final(self).recalc_queues == old(self).recalc_queues,
            final(self).last_deleted == old(self).last_deleted,
            final(self).nodes@ == (if old(self).nodes@[i as int].recalc_state is Ready {
                old(self).nodes@.update(
                    i as int,
                    Node { recalc_state: RecalcState::NeedsRecalc, ..old(self).nodes@[i as int] },
                )
            } else {
                old(self).nodes@
            }),
    {
        if self.nodes[i].recalc_state == RecalcState::Ready {
            self.nodes[i].recalc_state = RecalcState::NeedsRecalc;
            proof {
                let was = old(self);
                lemma_same_links(was.nodes@, self.nodes@);
                assert forall|h: int, k: int| #[trigger] at(self.recalc_queues@, h, k) implies self.nodes@[self.recalc_queues@[h]@[k] as int].recalc_state is Pending by {
                    assert(was.nodes@[was.recalc_queues@[h]@[k] as int].recalc_state is Pending);
                }
                assert forall|j: int| 0 <= j < self.nodes@.len() && (#[trigger] self.nodes@[j]).recalc_state is Pending implies queued(self.recalc_queues@, j) by {
                    assert(was.nodes@[j].recalc_state is Pending);
                }
            }
        }
    }

    /// Lets `parent` hear of the changes of `child`.
    pub fn add_clean_parent(&mut self, child: AnchorToken, parent: AnchorToken)
        requires
            old(self).wf(),
            child < old(self).nodes@.len(),
            parent < old(self).nodes@.len(),
            child != parent,
        ensures
            final(self).wf(),
            final(self).recalc_queues == old(self).recalc_queues,
            old(self).same_but(final(self), child as int),
            final(self).nodes@[child as int] == (Node {
                clean_parents: final(self).nodes@[child as int].clean_parents,
                ..old(self).nodes@[child as int]
            }),
            final(self).nodes@[child as int].clean_parents@ == (if old(self).nodes@[child as int].clean_parents@.contains(
                parent,
            ) {
                old(self).nodes@[child as int].clean_parents@
            } else {
                old(self).nodes@[child as int].clean_parents@.push(parent)
            }),
    {
        if !contains(&self.nodes[child].clean_parents, parent) {
            self.nodes[child].clean_parents.push(parent);
            proof {
                let was = old(self);
                lemma_same_states(was.nodes@, self.nodes@, self.recalc_queues@);
                assert forall|c: int| #[trigger] necessary_parents(self.nodes@, c) == necessary_parents(was.nodes@, c) by {
                    assert(necessary_parents(self.nodes@, c) =~= necessary_parents(was.nodes@, c));
                }
                assert forall|i: int| 0 <= i < self.nodes@.len() implies in_range((#[trigger] self.nodes@[i]).clean_parents@, self.nodes@.len()) && self.nodes@[i].clean_parents@.no_duplicates() by {
                    assert(in_range(was.nodes@[i].clean_parents@, was.nodes@.len()));
                }
            }
        }
    }

    /// Makes `child` necessary to `i`.
    pub fn add_necessary_child(&mut self, i: AnchorToken, child: AnchorToken)
        requires
            old(self).wf(),
            i < old(self).nodes@.len(),
            child < old(self).nodes@.len(),
        ensures
            final(self).wf(),
            final(self).recalc_queues == old(self).recalc_queues,
            final(self).last_deleted == old(self).last_deleted,
            necessity_only(old(self).nodes@, final(self).nodes@),
            old(self).nodes@[i as int].necessary_children@.contains(child) ==> *final(self) == *old(self),
            !old(self).nodes@[i as int].necessary_children@.contains(child) ==> forall|j: int|
                0 <= j < old(self).nodes@.len() ==> {
                    &&& (#[trigger] final(self).nodes@[j]).necessary_children@ == (if j == i {
                        old(self).nodes@[j].necessary_children@.push(child)
                    } else {
                        old(self).nodes@[j].necessary_children@
                    })
                    &&& final(self).nodes@[j].necessary_count == old(self).nodes@[j].necessary_count + (if j
                        == child {
                        1int
                    } else {
                        0
                    })
                },
    {
        if contains(&self.nodes[i].necessary_children, child) {
            return ;
        }
        let len: usize = self.nodes.len();
        proof {
            let was = old(self);
            let before = necessary_parents(was.nodes@, child as int);
            lemma_necessary_parents_finite(was.nodes@, child as int);
            let all = vstd::set_lib::set_int_range(0, was.nodes@.len() as int);
            vstd::set_lib::lemma_int_range(0, was.nodes@.len() as int);
            assert(before.subset_of(all.remove(i as int)));
            vstd::set_lib::lemma_len_subset(before, all.remove(i as int));
        }
        self.nodes[child].necessary_count = self.nodes[child].necessary_count + 1;
        self.nodes[i].necessary_children.push(child);
        proof {
            let was = old(self);
            lemma_same_states(was.nodes@, self.nodes@, self.recalc_queues@);
            assert forall|j: int| 0 <= j < self.nodes@.len() implies {
                &&& in_range((#[trigger] self.nodes@[j]).clean_parents@, self.nodes@.len())
                &&& in_range(self.nodes@[j].necessary_children@, self.nodes@.len())
                &&& in_range(self.nodes@[j].pending_dirty@, self.nodes@.len())
                &&& self.nodes@[j].clean_parents@.no_duplicates()
                &&& self.nodes@[j].necessary_children@.no_duplicates()
                &&& self.nodes@[j].necessary_count == necessary_parents(self.nodes@, j).len()
            } by {
                let c = j;
                assert(in_range(was.nodes@[j].clean_parents@, was.nodes@.len()));
                assert(was.nodes@[j].necessary_count == necessary_parents(was.nodes@, c).len());
                lemma_necessary_parents_finite(was.nodes@, c);
                if c == child {
                    assert(needs(self.nodes@, i as int, c)) by {
                        let l = self.nodes@[i as int].necessary_children@;
                        assert(l[l.len() - 1] == child);
                    }
                    assert forall|p: int| #[trigger] needs(self.nodes@, p, c) == (needs(was.nodes@, p, c) || p == i) by {
                        if p == i {
                        } else if 0 <= p < was.nodes@.len() {
                            assert(self.nodes@[p].necessary_children@ == was.nodes@[p].necessary_children@);
                        }
                    }
                    assert(necessary_parents(self.nodes@, c) =~= necessary_parents(was.nodes@, c).insert(i as int));
                } else {
                    assert forall|p: int| #[trigger] needs(self.nodes@, p, c) == needs(was.nodes@, p, c) by {
                        if p == i {
                            let a = was.nodes@[p].necessary_children@;
                            let b = self.nodes@[p].necessary_children@;
                            assert(b == a.push(child));
                            if lists(b, c) {
                                let k = choose|k: int| 0 <= k < b.len() && #[trigger] b[k] == c;
                                assert(a[k] == c);
                            }
                            if lists(a, c) {
                                let k = choose|k: int| 0 <= k < a.len() && #[trigger] a[k] == c;
                                assert(b[k] == c);
                            }
                        } else if 0 <= p < was.nodes@.len() {
                            assert(self.nodes@[p].necessary_children@ == was.nodes@[p].necessary_children@);
                        }
                    }
                    assert(necessary_parents(self.nodes@, c) =~= necessary_parents(was.nodes@, c));
                }
            }
        }
    }

    /// Takes the entry at `k` off the list of nodes that `i` keeps necessary.
    fn take_necessary_child(&mut self, i: AnchorToken, k: usize) -> (child: AnchorToken)
        requires
            old(self).wf(),
            i < old(self).nodes@.len(),
            k < old(self).nodes@[i as int].necessary_children@.len(),
        ensures
            final(self).wf(),
            final(self).recalc_queues == old(self).recalc_queues,
            final(self).last_deleted == old(self).last_deleted,
            necessity_only(old(self).nodes@, final(self).nodes@),
            child == old(self).nodes@[i as int].necessary_children@[k as int],
            forall|j: int|
                0 <= j < old(self).nodes@.len() ==> {
                    &&& (#[trigger] final(self).nodes@[j]).necessary_children@ == (if j == i {
                        old(self).nodes@[j].necessary_children@.remove(k as int)
                    } else {
                        old(self).nodes@[j].necessary_children@
                    })
                    &&& final(self).nodes@[j].necessary_count == old(self).nodes@[j].necessary_count - (if j
                        == child {
                        1int
                    } else {
                        0
                    })
                },
    {
        let ghost list = self.nodes@[i as int].necessary_children@;
        let child: AnchorToken = self.nodes[i].necessary_children.remove(k);
        proof {
            let was = old(self);
            assert(child == list[k as int]);
            assert(child < was.nodes@.len());
            assert(was.nodes@[child as int].necessary_count == necessary_parents(was.nodes@, child as int).len());
            lemma_necessary_parents_finite(was.nodes@, child as int);
            assert(needs(was.nodes@, i as int, child as int));
            assert(necessary_parents(was.nodes@, child as int).contains(i as int));
            assert(necessary_parents(was.nodes@, child as int).remove(i as int).len() + 1 == necessary_parents(was.nodes@, child as int).len());
        }
        self.nodes[child].necessary_count = self.nodes[child].necessary_count - 1;
        proof {
            let was = old(self);
            lemma_same_states(was.nodes@, self.nodes@, self.recalc_queues@);
            let rest = self.nodes@[i as int].necessary_children@;
            assert(rest == list.remove(k as int));
            assert forall|j: int| 0 <= j < self.nodes@.len() implies {
                &&& in_range((#[trigger] self.nodes@[j]).clean_parents@, self.nodes@.len())
                &&& in_range(self.nodes@[j].necessary_children@, self.nodes@.len())
                &&& in_range(self.nodes@[j].pending_dirty@, self.nodes@.len())
                &&& self.nodes@[j].clean_parents@.no_duplicates()
                &&& self.nodes@[j].necessary_children@.no_duplicates()
                &&& self.nodes@[j].necessary_count == necessary_parents(self.nodes@, j).len()
            } by {
                assert(in_range(was.nodes@[j].clean_parents@, was.nodes@.len()));
                assert(was.nodes@[j].necessary_count == necessary_parents(was.nodes@, j).len());
                lemma_necessary_parents_finite(was.nodes@, j);
                assert forall|p: int| #[trigger] needs(self.nodes@, p, j) == (needs(was.nodes@, p, j) && !(p == i && j == child)) by {
                    if p == i {
                        if lists(rest, j) {
                            let m = choose|m: int| 0 <= m < rest.len() && #[trigger] rest[m] == j;
                            assert(list[if m < k { m } else { m + 1 }] == j);
                            if j == child {
                                assert(list[k as int] == j);
                            }
                        }
                        if lists(list, j) && j != child {
                            let m = choose|m: int| 0 <= m < list.len() && #[trigger] list[m] == j;
                            assert(rest[if m < k { m } else { m - 1 }] == j);
                        }
                    } else if 0 <= p < was.nodes@.len() {
                        assert(self.nodes@[p].necessary_children@ == was.nodes@[p].necessary_children@);
                    }
                }
                if j == child {
                    assert(necessary_parents(self.nodes@, j) =~= necessary_parents(was.nodes@, j).remove(i as int));
                } else {
                    assert(necessary_parents(self.nodes@, j) =~= necessary_parents(was.nodes@, j));
                }
            }
        }
        child
    }

    /// `child` is no longer necessary to `i`.
    pub fn remove_necessary_child(&mut self, i: AnchorToken, child: AnchorToken)
        requires
            old(self).wf(),
            i < old(self).nodes@.len(),
        ensures
            final(self).wf(),
            final(self).recalc_queues == old(self).recalc_queues,
            final(self).last_deleted == old(self).last_deleted,
            necessity_only(old(self).nodes@, final(self).nodes@),
            !lists(old(self).nodes@[i as int].necessary_children@, child as int) ==> *final(self) == *old(self),
            lists(old(self).nodes@[i as int].necessary_children@, child as int) ==> forall|j: int|
                0 <= j < old(self).nodes@.len() ==> {
                    &&& (#[trigger] final(self).nodes@[j]).necessary_children@ == (if j == i {
                        old(self).nodes@[j].necessary_children@.remove(
                            old(self).nodes@[j].necessary_children@.index_of(child),
                        )
                    } else {
                        old(self).nodes@[j].necessary_children@
                    })
                    &&& final(self).nodes@[j].necessary_count == old(self).nodes@[j].necessary_count - (if j
                        == child {
                        1int
                    } else {
                        0
                    })
                },
    {
        let mut k: usize = 0;
        while k < self.nodes[i].necessary_children.len()
            invariant
                *self == *old(self),
                self.wf(),
                i < self.nodes@.len(),
                k <= self.nodes@[i as int].necessary_children@.len(),
                forall|l: int| 0 <= l < k ==> self.nodes@[i as int].necessary_children@[l] != child,
            decreases self.nodes@[i as int].necessary_children@.len() - k,
        {
            if self.nodes[i].necessary_children[k] == child {
                assert(self.nodes@[i as int].necessary_children@.index_of(child) == k) by {
                    let l = self.nodes@[i as int].necessary_children@;
                    assert(l.no_duplicates());
                    assert(l[k as int] == child);
                    assert(l.contains(child));
                }
                let gone: AnchorToken = self.take_necessary_child(i, k);
                return ;
            }
            k = k + 1;
        }
    }

    /// Empties the list of nodes that `i` keeps necessary.
    fn drain_necessary_children(&mut self, i: AnchorToken) -> (children: Vec<AnchorToken>)
        requires
            old(self).wf(),
            i < old(self).nodes@.len(),
        ensures
            final(self).wf(),
            final(self).recalc_queues == old(self).recalc_queues,
            final(self).last_deleted == old(self).last_deleted,
            necessity_only(old(self).nodes@, final(self).nodes@),
            children@ == old(self).nodes@[i as int].necessary_children@.reverse(),
            forall|j: int|
                0 <= j < old(self).nodes@.len() ==> {
                    &&& (#[trigger] final(self).nodes@[j]).necessary_children@ == (if j == i {
                        Seq::empty()
                    } else {
                        old(self).nodes@[j].necessary_children@
                    })
                    &&& final(self).nodes@[j].necessary_count == old(self).nodes@[j].necessary_count - (if lists(
                        old(self).nodes@[i as int].necessary_children@,
                        j,
                    ) {
                        1int
                    } else {
                        0
                    })
                },
    {
        let mut children: Vec<AnchorToken> = Vec::new();
        let ghost list = self.nodes@[i as int].necessary_children@;
        while self.nodes[i].necessary_children.len() > 0
            invariant
                self.wf(),
                i < self.nodes@.len(),
                self.recalc_queues == old(self).recalc_queues,
                self.last_deleted == old(self).last_deleted,
                necessity_only(old(self).nodes@, self.nodes@),
                list == old(self).nodes@[i as int].necessary_children@,
                list.no_duplicates(),
                self.nodes@[i as int].necessary_children@.len() + children@.len() == list.len(),
                self.nodes@[i as int].necessary_children@ == list.take(list.len() - children@.len()),
                children@ == list.skip(list.len() - children@.len()).reverse(),
                forall|j: int|
                    0 <= j < self.nodes@.len() && j != i ==> (#[trigger] self.nodes@[j]).necessary_children@
                        == old(self).nodes@[j].necessary_children@,
                forall|j: int|
                    0 <= j < self.nodes@.len() ==> (#[trigger] self.nodes@[j]).necessary_count
                        == old(self).nodes@[j].necessary_count - (if lists(
                        list.skip(list.len() - children@.len()),
                        j,
                    ) {
                        1int
                    } else {
                        0
                    }),
            decreases self.nodes@[i as int].necessary_children@.len(),
        {
            let last: usize = self.nodes[i].necessary_children.len() - 1;
            let ghost before = self.nodes@;
            let ghost n = children@.len();
            let child: AnchorToken = self.take_necessary_child(i, last);
            children.push(child);
            proof {
                let at_n = list.skip(list.len() - n);
                let at_m = list.skip(list.len() - n - 1);
                assert(child == list[last as int]);
                assert(at_m =~= seq![child] + at_n);
                assert(children@ =~= at_m.reverse());
                assert(self.nodes@[i as int].necessary_children@ =~= list.take(list.len() - n - 1));
                assert forall|j: int| 0 <= j < self.nodes@.len() implies (#[trigger] self.nodes@[j]).necessary_count == old(self).nodes@[j].necessary_count - (if lists(at_m, j) {
                    1int
                } else {
                    0
                }) by {
                    assert(before[j].necessary_count == old(self).nodes@[j].necessary_count - (if lists(at_n, j) {
                        1int
                    } else {
                        0
                    }));
                    if lists(at_n, j) {
                        let m = choose|m: int| 0 <= m < at_n.len() && #[trigger] at_n[m] == j;
                        assert(at_m[m + 1] == j);
                        assert(list[list.len() - n + m] == j);
                        assert(j != child);
                    } else if lists(at_m, j) {
                        let m = choose|m: int| 0 <= m < at_m.len() && #[trigger] at_m[m] == j;
                        if m > 0 {
                            assert(at_n[m - 1] == j);
                        }
                    } else {
                        assert(at_m[0] == child);
                    }
                }
            }
        }
        proof {
            assert(list.take(0) =~= Seq::empty());
            assert(list.skip(0) =~= list);
        }
        children
    }

    /// If nothing needs `i` any more, neither does it need anything, and so on downwards.
    pub fn update_necessary_children(&mut self, i: AnchorToken)
        requires
            old(self).wf(),
            i < old(self).nodes@.len(),
        ensures
            final(self).wf(),
            final(self).recalc_queues == old(self).recalc_queues,
            final(self).last_deleted == old(self).last_deleted,
            necessity_only(old(self).nodes@, final(self).nodes@),
            !unneeded(old(self).nodes@[i as int]) ==> *final(self) == *old(self),
            tidy_at(final(self).nodes@, i as int),
            forall|j: int|
                0 <= j < old(self).nodes@.len() && tidy_at(old(self).nodes@, j) ==> #[trigger] tidy_at(
                    final(self).nodes@,
                    j,
                ),
            forall|j: int| 0 <= j < old(self).nodes@.len() ==> released(i as int, old(self).nodes@, final(self).nodes@, j),
        decreases edges(old(self).nodes@),
    {
        if self.nodes[i].observed || self.nodes[i].necessary_count > 0 {
            return ;
        }
        let children: Vec<AnchorToken> = self.drain_necessary_children(i);
        let ghost drained = self.nodes@;
        let ghost was = old(self).nodes@;
        proof {
            assert(unneeded(drained[i as int]));
            if children@.len() > 0 {
                lemma_edges_smaller(was, drained, i as int);
            }
            assert forall|j: int| 0 <= j < was.len() && tidy_at(was, j) && !lists(children@, j) implies #[trigger] tidy_at(drained, j) by {
                if lists(was[i as int].necessary_children@, j) {
                    let l = was[i as int].necessary_children@;
                    let m = choose|m: int| 0 <= m < l.len() && #[trigger] l[m] == j;
                    assert(children@[l.len() - 1 - m] == j);
                }
            }
            assert forall|k: int| 0 <= k < children@.len() implies #[trigger] children@[k] < was.len() by {
                let l = was[i as int].necessary_children@;
                assert(children@[k] == l[l.len() - 1 - k]);
            }
            assert forall|j: int| 0 <= j < was.len() implies #[trigger] released(i as int, was, drained, j) by {}
            assert(children@.skip(0) =~= children@);
            assert forall|m: int| 0 <= m < children@.len() implies drained[(#[trigger] children@[m]) as int].necessary_count < was[children@[m] as int].necessary_count by {
                let l = was[i as int].necessary_children@;
                assert(l[l.len() - 1 - m] == children@[m]);
                assert(lists(l, children@[m] as int));
            }
        }
        let mut k: usize = 0;
        while k < children.len()
            invariant
                self.wf(),
                i < self.nodes@.len(),
                was == old(self).nodes@,
                drained.len() == was.len(),
                self.nodes@.len() == was.len(),
                self.recalc_queues == old(self).recalc_queues,
                self.last_deleted == old(self).last_deleted,
                necessity_only(was, self.nodes@),
                k <= children@.len(),
                in_range(children@, was.len()),
                children@.len() > 0 ==> edges(drained) < edges(was),
                edges(self.nodes@) <= edges(drained),
                forall|j: int|
                    0 <= j < was.len() && tidy_at(was, j) && !lists(children@.skip(k as int), j) ==> #[trigger] tidy_at(
                        self.nodes@,
                        j,
                    ),
                tidy_at(self.nodes@, i as int),
                forall|j: int| 0 <= j < was.len() ==> #[trigger] released(i as int, was, self.nodes@, j),
                forall|m: int|
                    0 <= m < children@.len() ==> self.nodes@[(#[trigger] children@[m]) as int].necessary_count
                        < was[children@[m] as int].necessary_count,
            decreases children@.len() - k,
        {
            let child: AnchorToken = children[k];
            let ghost before = self.nodes@;
            self.update_necessary_children(child);
            proof {
                assert forall|j: int| 0 <= j < was.len() implies (#[trigger] self.nodes@[j]).necessary_children@.len() <= before[j].necessary_children@.len() by {
                    assert(released(child as int, before, self.nodes@, j));
                }
                lemma_edges_not_larger(before, self.nodes@);
                assert forall|m: int| 0 <= m < children@.len() implies self.nodes@[(#[trigger] children@[m]) as int].necessary_count < was[children@[m] as int].necessary_count by {
                    assert(released(child as int, before, self.nodes@, children@[m] as int));
                }
                assert forall|j: int| 0 <= j < was.len() && tidy_at(was, j) && !lists(children@.skip(k as int + 1), j) implies #[trigger] tidy_at(self.nodes@, j) by {
                    if j == child {
                    } else {
                        if lists(children@.skip(k as int), j) {
                            let r = children@.skip(k as int);
                            let m = choose|m: int| 0 <= m < r.len() && #[trigger] r[m] == j;
                            assert(m > 0);
                            assert(children@.skip(k as int + 1)[m - 1] == j);
                        }
                        assert(tidy_at(before, j));
                    }
                }
                assert forall|j: int| 0 <= j < was.len() implies #[trigger] released(i as int, was, self.nodes@, j) by {
                    assert(released(i as int, was, before, j));
                    assert(released(child as int, before, self.nodes@, j));
                    assert(before[children@[k as int] as int].necessary_count < was[children@[k as int] as int].necessary_count);
                }
            }
            k = k + 1;
        }
        proof {
            assert forall|j: int| 0 <= j < was.len() && tidy_at(was, j) implies #[trigger] tidy_at(self.nodes@, j) by {
                assert(!lists(children@.skip(children@.len() as int), j));
            }
        }
    }
}

/// Whether `token` is among `tokens`.
pub fn contains(tokens: &Vec<AnchorToken>, token: AnchorToken) -> (b: bool)
    ensures
        b == tokens@.contains(token),
{
    let mut k: usize = 0;
    while k < tokens.len()
        invariant
            k <= tokens@.len(),
            forall|l: int| 0 <= l < k ==> tokens@[l] != token,
        decreases tokens@.len() - k,
    {
        if tokens[k] == token {
            return true;
        }
        k = k + 1;
    }
    false
}

} // verus!
