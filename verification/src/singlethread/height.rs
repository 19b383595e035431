//! Heights: a node is recalculated after everything lower than it, so it has to stand above
//! everything that it reads.

use crate::expert::AnchorToken;
use crate::singlethread::graph2::{at, lemma_same_links, ordered, queue_wf, queued, Graph2, Node};
use vstd::prelude::*;

verus! {

/// `b` differs from `a` at most in that nodes stand higher.
pub open spec fn raised<N>(a: Seq<Node<N>>, b: Seq<Node<N>>, limit: nat) -> bool {
    &&& a.len() == b.len()
    &&& forall|i: int|
        0 <= i < a.len() ==> {
            &&& #[trigger] b[i] == (Node { height: b[i].height, ..a[i] })
            &&& a[i].height <= b[i].height
            &&& b[i].height < limit
        }
}

/// Whether heights `g` are such that every node stands no lower than it does and below the nodes
/// that hear of its changes, and all stay below `limit`.
pub open spec fn admissible<N>(nodes: Seq<Node<N>>, g: spec_fn(int) -> int, limit: nat) -> bool {
    &&& forall|i: int| 0 <= i < nodes.len() ==> (#[trigger] nodes[i]).height <= g(i) && g(i) < limit
    &&& forall|c: int, k: int|
        0 <= c < nodes.len() && 0 <= k < nodes[c].clean_parents@.len() ==> g(c) < g(
            (#[trigger] nodes[c].clean_parents@[k]) as int,
        )
}

/// Whether heights `g` put all nodes that are being visited below `i`.
pub open spec fn visited_below<N>(nodes: Seq<Node<N>>, g: spec_fn(int) -> int, i: int) -> bool {
    forall|v: int| 0 <= v < nodes.len() && (#[trigger] nodes[v]).visited ==> g(v) < g(i)
}

impl<N> Graph2<N> {
    /// Lets `i` stand at `min` or higher, and everything above it stay above it. Fails where this
    /// leads back to a node being visited, or above the highest place there is.
    fn set_min_height(&mut self, i: AnchorToken, min: usize) -> (done: Result<(), ()>)
        requires
            old(self).wf(),
            i < old(self).nodes@.len(),
        ensures
            final(self).wf(),
            final(self).recalc_queues == old(self).recalc_queues,
            final(self).last_deleted == old(self).last_deleted,
            raised(old(self).nodes@, final(self).nodes@, old(self).recalc_queues@.len()),
            done is Ok ==> final(self).nodes@[i as int].height >= min && !old(self).nodes@[i as int].visited,
            done is Ok && ordered(old(self).nodes@) ==> ordered(final(self).nodes@),
            forall|v: int| 0 <= v < old(self).nodes@.len() && (#[trigger] old(self).nodes@[v]).visited
                ==> final(self).nodes@[v] == old(self).nodes@[v],
            forall|g: spec_fn(int) -> int|
                #[trigger] admissible(old(self).nodes@, g, old(self).recalc_queues@.len()) && min <= g(i as int)
                    ==> admissible(final(self).nodes@, g, old(self).recalc_queues@.len()) && (visited_below(
                    old(self).nodes@,
                    g,
                    i as int,
                ) ==> done is Ok),
        decreases old(self).recalc_queues@.len() - min,
    {
        if self.nodes[i].visited {
            proof {
                assert forall|g: spec_fn(int) -> int| #[trigger] admissible(self.nodes@, g, self.recalc_queues@.len()) && min <= g(i as int) implies !visited_below(self.nodes@, g, i as int) by {
                    if visited_below(self.nodes@, g, i as int) {
                        assert(g(i as int) < g(i as int));
                    }
                }
            }
            return Err(());
        }
        if self.nodes[i].height >= min {
            return Ok(());
        }
        let limit: usize = self.recalc_queues.len();
        if min >= limit {
            proof {
                assert forall|g: spec_fn(int) -> int| #[trigger] admissible(self.nodes@, g, self.recalc_queues@.len()) implies g(i as int) < min by {
                    assert(self.nodes@[i as int].height <= g(i as int) && g(i as int) < self.recalc_queues@.len());
                }
            }
            return Err(());
        }
        let ghost was = self.nodes@;
        self.nodes[i].visited = true;
        self.nodes[i].height = min;
        let ghost entered = self.nodes@;
        proof {
            lemma_same_links(was, entered);
            lemma_heights_wf(was, entered, self.recalc_queues@);
            assert forall|g: spec_fn(int) -> int| #[trigger] admissible(was, g, limit as nat) && min <= g(i as int) implies admissible(entered, g, limit as nat) by {
                assert forall|j: int| 0 <= j < entered.len() implies (#[trigger] entered[j]).height <= g(j) && g(j) < limit by {
                    assert(was[j].height <= g(j) && g(j) < limit);
                }
                assert forall|c: int, k: int| 0 <= c < entered.len() && 0 <= k < entered[c].clean_parents@.len() implies g(c) < g((#[trigger] entered[c].clean_parents@[k]) as int) by {
                    assert(was[c].clean_parents@[k] == entered[c].clean_parents@[k]);
                }
            }
        }
        let mut failed: bool = false;
        let mut k: usize = 0;
        while k < self.nodes[i].clean_parents.len()
            invariant
                self.wf(),
                i < self.nodes@.len(),
                min < limit,
                limit == self.recalc_queues@.len(),
                self.recalc_queues == old(self).recalc_queues,
                self.last_deleted == old(self).last_deleted,
                was == old(self).nodes@,
                was.len() == entered.len(),
                entered == was.update(i as int, Node { visited: true, height: min, ..was[i as int] }),
                !was[i as int].visited,
                was[i as int].height < min,
                raised(entered, self.nodes@, limit as nat),
                self.nodes@[i as int] == entered[i as int],
                forall|v: int| 0 <= v < entered.len() && (#[trigger] entered[v]).visited ==> self.nodes@[v] == entered[v],
                k <= entered[i as int].clean_parents@.len(),
                !failed && ordered(was) ==> ordered(self.nodes@),
                !failed ==> forall|l: int|
                    0 <= l < k ==> self.nodes@[(#[trigger] entered[i as int].clean_parents@[l]) as int].height > min,
                forall|g: spec_fn(int) -> int|
                    #[trigger] admissible(was, g, limit as nat) && min <= g(i as int) ==> admissible(
                        self.nodes@,
                        g,
                        limit as nat,
                    ) && (visited_below(was, g, i as int) ==> !failed),
            decreases entered[i as int].clean_parents@.len() - k,
        {
            let parent: AnchorToken = self.nodes[i].clean_parents[k];
            let ghost before = self.nodes@;
            assert(parent == entered[i as int].clean_parents@[k as int]);
            match self.set_min_height(parent, min + 1) {
                Ok(_) => {
                },
                Err(_) => {
                    failed = true;
                },
            }
            proof {
                assert(self.nodes@[i as int] == entered[i as int]) by {
                    assert(before[i as int].visited);
                }
                assert forall|j: int| 0 <= j < entered.len() implies {
                    &&& #[trigger] self.nodes@[j] == (Node { height: self.nodes@[j].height, ..entered[j] })
                    &&& entered[j].height <= self.nodes@[j].height
                    &&& self.nodes@[j].height < limit
                } by {
                    assert(before[j] == (Node { height: before[j].height, ..entered[j] }));
                    assert(before[j].height <= self.nodes@[j].height);
                }
                assert forall|v: int| 0 <= v < entered.len() && (#[trigger] entered[v]).visited implies self.nodes@[v] == entered[v] by {
                    assert(before[v] == entered[v]);
                    assert(before[v].visited);
                }
                if !failed {
                    assert forall|l: int| 0 <= l < k + 1 implies self.nodes@[(#[trigger] entered[i as int].clean_parents@[l]) as int].height > min by {
                        if l < k {
                            let q = entered[i as int].clean_parents@[l] as int;
                            assert(before[q].height > min);
                            assert(before[q].height <= self.nodes@[q].height);
                        }
                    }
                }
                assert forall|g: spec_fn(int) -> int| #[trigger] admissible(was, g, limit as nat) && min <= g(i as int) implies admissible(self.nodes@, g, limit as nat) && (visited_below(was, g, i as int) ==> !failed) by {
                    assert(admissible(before, g, limit as nat));
                    assert(was[i as int].clean_parents@[k as int] == parent);
                    assert(g(i as int) < g(parent as int));
                    if visited_below(was, g, i as int) {
                        assert forall|v: int| 0 <= v < before.len() && (#[trigger] before[v]).visited implies g(v) < g(parent as int) by {
                            assert(before[v] == (Node { height: before[v].height, ..entered[v] }));
                            if v != i {
                                assert(was[v].visited);
                            }
                        }
                        assert(visited_below(before, g, parent as int));
                    }
                }
            }
            k = k + 1;
        }
        let ghost looped = self.nodes@;
        self.nodes[i].visited = false;
        proof {
            lemma_same_links(looped, self.nodes@);
            lemma_heights_wf(looped, self.nodes@, self.recalc_queues@);
            assert forall|j: int| 0 <= j < was.len() implies {
                &&& #[trigger] self.nodes@[j] == (Node { height: self.nodes@[j].height, ..was[j] })
                &&& was[j].height <= self.nodes@[j].height
                &&& self.nodes@[j].height < limit
            } by {
                assert(looped[j] == (Node { height: looped[j].height, ..entered[j] }));
            }
            assert forall|v: int| 0 <= v < was.len() && (#[trigger] was[v]).visited implies self.nodes@[v] == was[v] by {
                assert(entered[v].visited);
            }
            if !failed && ordered(was) {
                assert forall|c: int, m: int| 0 <= c < self.nodes@.len() && 0 <= m < self.nodes@[c].clean_parents@.len() && !self.nodes@[c].visited implies self.nodes@[c].height < self.nodes@[(#[trigger] self.nodes@[c].clean_parents@[m]) as int].height by {
                    let q = self.nodes@[c].clean_parents@[m];
                    assert(q == looped[c].clean_parents@[m]);
                    if c == i {
                        assert(entered[i as int].clean_parents@[m] == q);
                        assert(looped[q as int].height > min);
                    } else {
                        assert(!looped[c].visited);
                        assert(looped[c].height < looped[q as int].height);
                    }
                }
            }
            assert forall|g: spec_fn(int) -> int| #[trigger] admissible(was, g, limit as nat) && min <= g(i as int) implies admissible(self.nodes@, g, limit as nat) by {
                assert(admissible(looped, g, limit as nat));
                assert forall|j: int| 0 <= j < was.len() implies (#[trigger] self.nodes@[j]).height <= g(j) && g(j) < limit by {
                    assert(looped[j].height <= g(j) && g(j) < limit);
                }
                assert forall|c: int, m: int| 0 <= c < was.len() && 0 <= m < self.nodes@[c].clean_parents@.len() implies g(c) < g((#[trigger] self.nodes@[c].clean_parents@[m]) as int) by {
                    assert(looped[c].clean_parents@[m] == self.nodes@[c].clean_parents@[m]);
                }
            }
        }
        if failed {
            Err(())
        } else {
            Ok(())
        }
    }

    /// Lets `parent` stand above `child`. Says whether it already did; fails where this cannot be,
    /// as when `child` in turn reads `parent`.
    pub fn ensure_height_increases(&mut self, child: AnchorToken, parent: AnchorToken) -> (res: Result<bool, ()>)
        requires
            old(self).wf(),
            child < old(self).nodes@.len(),
            parent < old(self).nodes@.len(),
            forall|v: int| 0 <= v < old(self).nodes@.len() ==> !(#[trigger] old(self).nodes@[v]).visited,
        ensures
            final(self).wf(),
            final(self).recalc_queues == old(self).recalc_queues,
            final(self).last_deleted == old(self).last_deleted,
            raised(old(self).nodes@, final(self).nodes@, old(self).recalc_queues@.len()),
            res == Ok::<bool, ()>(true) <==> old(self).nodes@[child as int].height < old(self).nodes@[parent as int].height,
            res == Ok::<bool, ()>(true) ==> *final(self) == *old(self),
            res is Ok ==> final(self).nodes@[child as int].height < final(self).nodes@[parent as int].height,
            res is Ok && ordered(old(self).nodes@) ==> ordered(final(self).nodes@),
            final(self).nodes@[child as int] == old(self).nodes@[child as int],
            forall|g: spec_fn(int) -> int|
                #[trigger] admissible(old(self).nodes@, g, old(self).recalc_queues@.len()) && g(child as int) < g(
                    parent as int,
                ) ==> res is Ok && admissible(final(self).nodes@, g, old(self).recalc_queues@.len()),
    {
        let low: usize = self.nodes[child].height;
        if low < self.nodes[parent].height {
            return Ok(true);
        }
        let ghost was = self.nodes@;
        let ghost limit = self.recalc_queues@.len();
        self.nodes[child].visited = true;
        let ghost entered = self.nodes@;
        let top: usize = self.recalc_queues.len();
        proof {
            lemma_same_links(was, entered);
            lemma_heights_wf(was, entered, self.recalc_queues@);
            assert(was[child as int].height < limit);
            assert forall|g: spec_fn(int) -> int| #[trigger] admissible(was, g, limit) implies admissible(entered, g, limit) by {
                assert forall|j: int| 0 <= j < entered.len() implies (#[trigger] entered[j]).height <= g(j) && g(j) < limit by {
                    assert(was[j].height <= g(j) && g(j) < limit);
                }
                assert forall|c: int, k: int| 0 <= c < entered.len() && 0 <= k < entered[c].clean_parents@.len() implies g(c) < g((#[trigger] entered[c].clean_parents@[k]) as int) by {
                    assert(was[c].clean_parents@[k] == entered[c].clean_parents@[k]);
                }
            }
            if ordered(was) {
                assert forall|c: int, k: int| 0 <= c < entered.len() && 0 <= k < entered[c].clean_parents@.len() && !entered[c].visited implies entered[c].height < entered[(#[trigger] entered[c].clean_parents@[k]) as int].height by {
                    assert(was[c].clean_parents@[k] == entered[c].clean_parents@[k]);
                }
            }
        }
        let done = self.set_min_height(parent, low + 1);
        let ghost lifted = self.nodes@;
        self.nodes[child].visited = false;
        proof {
            lemma_same_links(lifted, self.nodes@);
            lemma_heights_wf(lifted, self.nodes@, self.recalc_queues@);
            assert(entered[child as int].visited);
            assert forall|j: int| 0 <= j < was.len() implies {
                &&& #[trigger] self.nodes@[j] == (Node { height: self.nodes@[j].height, ..was[j] })
                &&& was[j].height <= self.nodes@[j].height
                &&& self.nodes@[j].height < limit
            } by {
                assert(lifted[j] == (Node { height: lifted[j].height, ..entered[j] }));
            }
            if done is Ok && ordered(was) {
                assert forall|c: int, m: int| 0 <= c < self.nodes@.len() && 0 <= m < self.nodes@[c].clean_parents@.len() && !self.nodes@[c].visited implies self.nodes@[c].height < self.nodes@[(#[trigger] self.nodes@[c].clean_parents@[m]) as int].height by {
                    let q = self.nodes@[c].clean_parents@[m];
                    assert(q == lifted[c].clean_parents@[m]);
                    assert(q == was[c].clean_parents@[m]);
                    assert(was[c].height < was[q as int].height);
                    if c != child {
                        assert(!lifted[c].visited);
                    }
                }
            }
            assert forall|g: spec_fn(int) -> int| #[trigger] admissible(was, g, limit) && g(child as int) < g(parent as int) implies done is Ok && admissible(self.nodes@, g, limit) by {
                assert(admissible(entered, g, limit));
                assert(was[child as int].height <= g(child as int));
                assert(visited_below(entered, g, parent as int));
                assert(admissible(lifted, g, limit));
                assert forall|j: int| 0 <= j < was.len() implies (#[trigger] self.nodes@[j]).height <= g(j) && g(j) < limit by {
                    assert(lifted[j].height <= g(j) && g(j) < limit);
                }
                assert forall|c: int, m: int| 0 <= c < was.len() && 0 <= m < self.nodes@[c].clean_parents@.len() implies g(c) < g((#[trigger] self.nodes@[c].clean_parents@[m]) as int) by {
                    assert(lifted[c].clean_parents@[m] == self.nodes@[c].clean_parents@[m]);
                }
            }
        }
        match done {
            Ok(_) => Ok(false),
            Err(_) => Err(()),
        }
    }
}

proof fn lemma_heights_wf<N>(a: Seq<Node<N>>, b: Seq<Node<N>>, queues: Seq<Vec<AnchorToken>>)
    requires
        queue_wf(a, queues),
        a.len() == b.len(),
        forall|i: int| 0 <= i < a.len() ==> (#[trigger] b[i]).recalc_state == a[i].recalc_state && b[i].height < queues.len(),
    ensures
        queue_wf(b, queues),
{
    assert forall|i: int| 0 <= i < b.len() implies (#[trigger] b[i]).height < queues.len() && (b[i].recalc_state is Pending ==> queued(queues, i)) by {
        assert(a[i].recalc_state == b[i].recalc_state);
    }
    assert forall|h: int, k: int| #[trigger] at(queues, h, k) implies queues[h]@[k] < b.len() && b[queues[h]@[k] as int].recalc_state is Pending by {
        assert(a[queues[h]@[k] as int].recalc_state is Pending);
        assert(b[queues[h]@[k] as int].recalc_state == a[queues[h]@[k] as int].recalc_state);
    }
}

} // verus!
