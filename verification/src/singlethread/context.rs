//! The context in which the engine polls an anchor.

use crate::expert::{
    unready, unready_since, Anchor, AnchorOutput, AnchorToken, Call, DirtyHandle, Holds, OutputRef, Poll, Reads, UpdateContext,
};
use crate::singlethread::graph2::{
    in_range, links_wf, lists, necessity_only, ordered, released, tidy, tidy_at, unneeded, Graph2, Node, RecalcState,
};
use crate::singlethread::height::{admissible, raised};
use crate::singlethread::pending::{
    inserted, total, PendingEnqueueOutcome, PendingPriority, PendingQueue, PendingRequest,
};
use crate::singlethread::stats::{AnchorsPendingStats, TokenLog};
use vstd::prelude::*;

verus! {

/// Whether a node is part of some observed calculation.
#[derive(Clone, Copy, Debug, PartialEq, Eq, Structural)]
pub enum ObservedState {
    /// It has been marked as observed.
    Observed,
    /// It has not, but an observed node was calculated from it.
    Necessary,
    /// Neither.
    Unnecessary,
}

/// What is known of the outputs, and of who has been given which.
pub ghost struct Ledger<V> {
    /// What is to be read of each node, or was when it last could be read.
    pub outs: Map<AnchorToken, V>,
    /// For each node, the outputs that it has been given, as they were then, of nodes that have announced no change since.
    pub told: Map<AnchorToken, Map<AnchorToken, V>>,
    /// For each node, what it had been told when it last completed a poll.
    pub seen: Map<AnchorToken, Map<AnchorToken, V>>,
    /// What the polled node has asked for.
    pub calls: Seq<Call>,
    /// The nodes whose output cannot be relied upon for what they were given: they asked for a node that is gone, or for
    /// one that they cannot stand above, or they could not become ready, or they missed a change.
    pub lost: Set<AnchorToken>,
    /// The nodes whose output has changed since they last announced a change.
    pub silent: Set<AnchorToken>,
    /// Some request closed a cycle.
    pub refused: bool,
}

impl<V> Ledger<V> {
    /// Node `i` cannot be relied upon, or has kept a change to itself.
    pub open spec fn troubled(&self, i: AnchorToken) -> bool {
        self.lost.contains(i) || self.silent.contains(i)
    }

    /// No node of `nodes` is troubled, the nodes that one of them was given outputs of are among them, and none of them was
    /// calculated from itself: `rank` grows from what is given to what it is given to.
    pub open spec fn grounded(&self, nodes: Set<AnchorToken>, rank: spec_fn(AnchorToken) -> nat) -> bool {
        &&& forall|j: AnchorToken| #[trigger] nodes.contains(j) ==> !self.troubled(j)
        &&& forall|j: AnchorToken, d: AnchorToken|
            #![trigger nodes.contains(j), self.told[j].contains_key(d)]
            nodes.contains(j) && self.told[j].contains_key(d) ==> nodes.contains(d) && rank(d) < rank(j)
    }

    /// Node `i` can be relied upon, and the nodes that it was given outputs of are among `nodes`, of which none is troubled.
    pub open spec fn based(&self, i: AnchorToken, nodes: Set<AnchorToken>, rank: spec_fn(AnchorToken) -> nat) -> bool {
        &&& self.grounded(nodes, rank)
        &&& !self.lost.contains(i)
        &&& forall|d: AnchorToken| #[trigger] self.told[i].contains_key(d) ==> nodes.contains(d) && rank(d) < rank(i)
    }

    /// Node `i` cannot be relied upon, or a node that it was calculated from is troubled, or it was calculated from itself.
    /// That it keeps a change to itself does no harm to the node, but to those that are calculated from it.
    pub open spec fn troubled_below(&self, i: AnchorToken) -> bool {
        !exists|nodes: Set<AnchorToken>, rank: spec_fn(AnchorToken) -> nat| #[trigger] self.based(i, nodes, rank)
    }

    /// The nodes of `path` were each calculated from the next.
    pub open spec fn leads(&self, path: Seq<AnchorToken>) -> bool {
        forall|k: int| 0 <= k < path.len() - 1 ==> #[trigger] self.given_at(path, k)
    }

    /// Node `k` of `path` was given the output of the next.
    pub open spec fn given_at(&self, path: Seq<AnchorToken>, k: int) -> bool {
        self.told[path[k]].contains_key(path[k + 1])
    }

    /// Node `i` is `d`, or was calculated from it, perhaps through others.
    pub open spec fn calculated_from(&self, i: AnchorToken, d: AnchorToken) -> bool {
        exists|path: Seq<AnchorToken>| #[trigger] self.leads(path) && path.len() > 0 && path[0] == i && path.last() == d
    }

    /// The ledger once node `token` has been removed: the nodes that were given its output cannot be relied upon.
    pub open spec fn without(&self, token: AnchorToken) -> Self {
        Ledger {
            told: Map::new(|j: AnchorToken| true, |j: AnchorToken| self.told[j].remove(token)),
            lost: Set::new(|j: AnchorToken| self.lost.contains(j) || self.told[j].contains_key(token)),
            ..*self
        }
    }

    /// A poll of node `i` cannot be relied upon: the node is lost, or has not been told of a change.
    pub open spec fn impaired(&self, i: AnchorToken) -> bool {
        self.lost.contains(i) || !self.told[i].submap_of(self.outs)
    }
}

/// The engine's state, as the node `node` has it while it is being polled.
pub struct EngineContextMut<N, V> {
    pub graph: Graph2<N>,
    /// The nodes that asked to be polled again.
    pub dirty_marks: Vec<AnchorToken>,
    /// Counts stabilizations.
    pub generation: u64,
    pub pending_requests: PendingQueue,
    pub pending_stats: AnchorsPendingStats,
    /// How often each token was asked for when its node was gone.
    pub invalid_token_log: TokenLog,
    /// How often each node was pending on nothing.
    pub unexpected_pending_log: TokenLog,
    /// Requests are not put down but simply pending.
    pub defer_disabled: bool,
    /// The node being polled.
    pub node: AnchorToken,
    /// It asked for something that was not ready.
    pub pending_on_anchor_get: bool,
    /// It asked for something that is gone.
    pub invalid_token_requested: bool,
    pub ledger: Ghost<Ledger<V>>,
}

/// Whether an update in generation `update` was known to a node that completed a poll in
/// generation `ready`, now that it is generation `generation`.
pub open spec fn known_by(update: u64, ready: u64, generation: u64) -> bool {
    update < ready || (update == ready && ready != generation)
}

/// The answer to a request for a ready node: whether it has changed since the asking node last
/// completed a poll.
pub open spec fn freshness(last_update: Option<u64>, last_ready: Option<u64>, generation: u64) -> Poll {
    if last_update is Some && last_ready is Some && known_by(last_update->0, last_ready->0, generation) {
        Poll::Unchanged
    } else {
        Poll::Updated
    }
}

/// `b` has the nodes of `a`, at other heights perhaps, with more links and more of them queued or necessary.
pub open spec fn kept<N>(a: Seq<Node<N>>, b: Seq<Node<N>>) -> bool {
    &&& a.len() == b.len()
    &&& forall|i: int|
        0 <= i < a.len() ==> {
            &&& #[trigger] b[i] == (Node {
                recalc_state: b[i].recalc_state,
                height: b[i].height,
                clean_parents: b[i].clean_parents,
                necessary_count: b[i].necessary_count,
                necessary_children: b[i].necessary_children,
                ..a[i]
            })
            &&& b[i].recalc_state == a[i].recalc_state || (a[i].recalc_state is NeedsRecalc && b[i].recalc_state is Pending
                && !a[i].anchor_locked)
            &&& forall|x: int| lists(a[i].clean_parents@, x) ==> #[trigger] lists(b[i].clean_parents@, x)
        }
}

pub proof fn lemma_kept_transitive<N>(a: Seq<Node<N>>, b: Seq<Node<N>>, c: Seq<Node<N>>)
    requires
        kept(a, b),
        kept(b, c),
    ensures
        kept(a, c),
{
    assert forall|i: int| 0 <= i < a.len() implies {
        &&& #[trigger] c[i] == (Node {
            recalc_state: c[i].recalc_state,
            height: c[i].height,
            clean_parents: c[i].clean_parents,
            necessary_count: c[i].necessary_count,
            necessary_children: c[i].necessary_children,
            ..a[i]
        })
        &&& c[i].recalc_state == a[i].recalc_state || (a[i].recalc_state is NeedsRecalc && c[i].recalc_state is Pending
            && !a[i].anchor_locked)
        &&& forall|x: int| lists(a[i].clean_parents@, x) ==> #[trigger] lists(c[i].clean_parents@, x)
    } by {
        assert(b[i].anchor_locked == a[i].anchor_locked);
        assert forall|x: int| lists(a[i].clean_parents@, x) implies #[trigger] lists(c[i].clean_parents@, x) by {
            assert(lists(b[i].clean_parents@, x));
        }
    }
}

proof fn lemma_kept_raised<N>(a: Seq<Node<N>>, b: Seq<Node<N>>, limit: nat)
    requires
        raised(a, b, limit),
    ensures
        kept(a, b),
{
}

proof fn lemma_kept_necessity<N>(a: Seq<Node<N>>, b: Seq<Node<N>>)
    requires
        links_wf(a),
        necessity_only(a, b),
    ensures
        kept(a, b),
        ordered(a) ==> ordered(b),
{
    if ordered(a) {
        assert forall|c: int, k: int| 0 <= c < b.len() && 0 <= k < b[c].clean_parents@.len() && !b[c].visited implies b[c].height < b[(#[trigger] b[c].clean_parents@[k]) as int].height by {
            assert(b[c].clean_parents == a[c].clean_parents);
            let p = a[c].clean_parents@[k];
            assert(in_range(a[c].clean_parents@, a.len()));
            assert(p < a.len());
            assert(a[c].height < a[p as int].height);
            assert(b[p as int].height == a[p as int].height);
        }
    }
}

proof fn lemma_kept_linked<N>(a: Graph2<N>, b: Graph2<N>, child: AnchorToken, parent: AnchorToken)
    requires
        a.wf(),
        child < a.nodes@.len(),
        parent < a.nodes@.len(),
        a.same_but(&b, child as int),
        b.nodes@[child as int] == (Node { clean_parents: b.nodes@[child as int].clean_parents, ..a.nodes@[child as int] }),
        b.nodes@[child as int].clean_parents@ == (if a.nodes@[child as int].clean_parents@.contains(parent) {
            a.nodes@[child as int].clean_parents@
        } else {
            a.nodes@[child as int].clean_parents@.push(parent)
        }),
    ensures
        kept(a.nodes@, b.nodes@),
        lists(b.nodes@[child as int].clean_parents@, parent as int),
        ordered(a.nodes@) && a.nodes@[child as int].height < a.nodes@[parent as int].height ==> ordered(b.nodes@),
        tidy(a.nodes@) ==> tidy(b.nodes@),
{
    let old_list = a.nodes@[child as int].clean_parents@;
    let new_list = b.nodes@[child as int].clean_parents@;
    assert forall|x: int| lists(old_list, x) implies #[trigger] lists(new_list, x) by {
        let k = choose|k: int| 0 <= k < old_list.len() && #[trigger] old_list[k] == x;
        assert(new_list[k] == x);
    }
    assert(lists(new_list, parent as int)) by {
        if old_list.contains(parent) {
            let k = choose|k: int| 0 <= k < old_list.len() && old_list[k] == parent;
            assert(new_list[k] == parent);
        } else {
            assert(new_list[new_list.len() - 1] == parent);
        }
    }
    if ordered(a.nodes@) && a.nodes@[child as int].height < a.nodes@[parent as int].height {
        assert forall|c: int, k: int| 0 <= c < b.nodes@.len() && 0 <= k < b.nodes@[c].clean_parents@.len() && !b.nodes@[c].visited implies b.nodes@[c].height < b.nodes@[(#[trigger] b.nodes@[c].clean_parents@[k]) as int].height by {
            let p = b.nodes@[c].clean_parents@[k];
            if c == child && k == old_list.len() {
            } else {
                assert(a.nodes@[c].clean_parents@[k] == p);
                assert(a.nodes@[c].height < a.nodes@[p as int].height);
            }
        }
    }
    if tidy(a.nodes@) {
        assert forall|i: int| 0 <= i < b.nodes@.len() implies #[trigger] tidy_at(b.nodes@, i) by {
            assert(tidy_at(a.nodes@, i));
        }
    }
}

proof fn lemma_kept_queued<N>(a: Seq<Node<N>>, i: int)
    requires
        links_wf(a),
        0 <= i < a.len(),
        !(a[i].recalc_state is Ready),
        !a[i].anchor_locked,
    ensures
        kept(a, a.update(i, Node { recalc_state: RecalcState::Pending, ..a[i] })),
        ordered(a) ==> ordered(a.update(i, Node { recalc_state: RecalcState::Pending, ..a[i] })),
        tidy(a) ==> tidy(a.update(i, Node { recalc_state: RecalcState::Pending, ..a[i] })),
{
    let b = a.update(i, Node { recalc_state: RecalcState::Pending, ..a[i] });
    if ordered(a) {
        assert forall|c: int, k: int| 0 <= c < b.len() && 0 <= k < b[c].clean_parents@.len() && !b[c].visited implies b[c].height < b[(#[trigger] b[c].clean_parents@[k]) as int].height by {
            let p = a[c].clean_parents@[k];
            assert(in_range(a[c].clean_parents@, a.len()));
            assert(p < a.len());
            assert(b[c].clean_parents@[k] == p);
            assert(a[c].height < a[p as int].height);
        }
    }
    if tidy(a) {
        assert forall|j: int| 0 <= j < b.len() implies #[trigger] tidy_at(b, j) by {
            assert(tidy_at(a, j));
        }
    }
}

proof fn lemma_tidy_added<N>(a: Seq<Node<N>>, b: Seq<Node<N>>, i: int)
    requires
        tidy(a),
        necessity_only(a, b),
        0 <= i < a.len(),
        !unneeded(a[i]),
        forall|j: int|
            0 <= j < a.len() ==> {
                &&& (#[trigger] b[j]).necessary_count >= a[j].necessary_count
                &&& j != i ==> b[j].necessary_children@ == a[j].necessary_children@
            },
    ensures
        tidy(b),
{
    assert forall|j: int| 0 <= j < b.len() implies #[trigger] tidy_at(b, j) by {
        assert(tidy_at(a, j));
        assert(b[j].necessary_count >= a[j].necessary_count);
    }
}

/// What can be read of node `i`, following at most `fuel` nodes that pass an output on.
pub open spec fn reading<N: AnchorOutput>(nodes: Seq<Node<N>>, i: AnchorToken, fuel: nat) -> Option<N::Output>
    decreases fuel,
{
    if i < nodes.len() && nodes[i as int].alive && nodes[i as int].recalc_state is Ready && nodes[i as int].anchor is Some {
        match nodes[i as int].anchor->0.alias() {
            None => Some(nodes[i as int].anchor->0.own()),
            Some(t) => if fuel == 0 {
                None
            } else {
                reading(nodes, t, (fuel - 1) as nat)
            },
        }
    } else {
        None
    }
}

/// What can be read of node `i`, however many nodes pass it on.
pub open spec fn display<N: AnchorOutput>(nodes: Seq<Node<N>>, i: AnchorToken) -> Option<N::Output> {
    if exists|fuel: nat| #[trigger] reading(nodes, i, fuel) is Some {
        reading(nodes, i, choose|fuel: nat| #[trigger] reading(nodes, i, fuel) is Some)
    } else {
        None
    }
}

/// It makes no difference how many more nodes could be followed.
proof fn lemma_reading_same<N: AnchorOutput>(nodes: Seq<Node<N>>, i: AnchorToken, a: nat, b: nat)
    requires
        reading(nodes, i, a) is Some,
        reading(nodes, i, b) is Some,
    ensures
        reading(nodes, i, a) == reading(nodes, i, b),
    decreases a,
{
    if nodes[i as int].anchor->0.alias() is Some {
        lemma_reading_same(nodes, nodes[i as int].anchor->0.alias()->0, (a - 1) as nat, (b - 1) as nat);
    }
}

pub proof fn lemma_displayed<N: AnchorOutput>(nodes: Seq<Node<N>>, i: AnchorToken, fuel: nat)
    requires
        reading(nodes, i, fuel) is Some,
    ensures
        display(nodes, i) == reading(nodes, i, fuel),
{
    let most = choose|fuel: nat| #[trigger] reading(nodes, i, fuel) is Some;
    lemma_reading_same(nodes, i, fuel, most);
}

/// `b` shows nothing that `a` does not show: nodes that are ready in it are ready in `a`, with the same output.
pub open spec fn shows_less<N: AnchorOutput>(a: Seq<Node<N>>, b: Seq<Node<N>>) -> bool {
    forall|j: int|
        0 <= j < b.len() && (#[trigger] b[j]).alive && b[j].recalc_state is Ready && b[j].anchor is Some ==> {
            &&& j < a.len()
            &&& a[j].alive
            &&& a[j].recalc_state is Ready
            &&& a[j].anchor is Some
            &&& b[j].anchor->0.alias() == a[j].anchor->0.alias()
            &&& b[j].anchor->0.own() == a[j].anchor->0.own()
        }
}

pub proof fn lemma_reading_less<N: AnchorOutput>(a: Seq<Node<N>>, b: Seq<Node<N>>, i: AnchorToken, fuel: nat)
    requires
        shows_less(a, b),
        reading(b, i, fuel) is Some,
    ensures
        reading(a, i, fuel) == reading(b, i, fuel),
    decreases fuel,
{
    assert(b[i as int].alive);
    if b[i as int].anchor->0.alias() is Some {
        lemma_reading_less(a, b, b[i as int].anchor->0.alias()->0, (fuel - 1) as nat);
    }
}

impl<N: AnchorOutput> Graph2<N> {
    /// What can be read of node `i`, following at most `fuel` nodes that pass an output on.
    pub open spec fn reading(&self, i: AnchorToken, fuel: nat) -> Option<N::Output> {
        reading(self.nodes@, i, fuel)
    }
}

/// The generations in which nodes were ready or changed have been.
pub open spec fn generations_past<N>(nodes: Seq<Node<N>>, generation: u64) -> bool {
    forall|i: int|
        0 <= i < nodes.len() ==> {
            &&& (#[trigger] nodes[i]).last_ready is Some ==> nodes[i].last_ready->0 <= generation
            &&& nodes[i].last_update is Some ==> nodes[i].last_update->0 <= generation
        }
}

/// Anchors are in order, and those that were ready once have an output.
pub open spec fn anchors_wf<N: AnchorOutput>(nodes: Seq<Node<N>>) -> bool {
    forall|i: int|
        0 <= i < nodes.len() && (#[trigger] nodes[i]).anchor is Some ==> {
            &&& nodes[i].anchor->0.inv()
            &&& nodes[i].last_ready is Some ==> nodes[i].anchor->0.had()
            &&& nodes[i].recalc_state is Ready ==> nodes[i].last_ready is Some
        }
}

/// What a node has been told is what there is to read, unless a change was not announced, and the node will hear of any
/// change that is.
#[verifier::opaque]
pub open spec fn told_wf<N, V>(nodes: Seq<Node<N>>, ledger: Ledger<V>) -> bool {
    forall|j: AnchorToken, d: AnchorToken|
        #![trigger ledger.told[j].contains_key(d)]
        j < nodes.len() && ledger.told[j].contains_key(d) ==> {
            &&& d < nodes.len()
            &&& lists(nodes[d as int].clean_parents@, j as int)
            &&& ledger.outs.contains_key(d)
            &&& ledger.told[j][d] == ledger.outs[d] || ledger.silent.contains(d)
        }
}

/// What a node had been told when it last completed a poll is still so, unless the generations
/// say otherwise, or a change was not announced.
#[verifier::opaque]
pub open spec fn seen_wf<N, V>(nodes: Seq<Node<N>>, ledger: Ledger<V>, generation: u64) -> bool {
    forall|j: AnchorToken, d: AnchorToken|
        #![trigger ledger.seen[j].contains_key(d)]
        j < nodes.len() && d < nodes.len() && !ledger.lost.contains(j) && ledger.seen[j].contains_key(d) && freshness(
            nodes[d as int].last_update,
            nodes[j as int].last_ready,
            generation,
        ) is Unchanged ==> ledger.seen[j][d] == ledger.outs[d] || ledger.silent.contains(d)
}

/// The ledger holds what there is to read, and the output of every anchor that has one of its own.
#[verifier::opaque]
pub open spec fn outs_wf<V, N: AnchorOutput<Output = V>>(nodes: Seq<Node<N>>, outs: Map<AnchorToken, V>) -> bool {
    &&& forall|i: AnchorToken, fuel: nat| #[trigger]
        reading(nodes, i, fuel) is Some ==> outs.contains_key(i) && reading(nodes, i, fuel)->0 == outs[i]
    &&& forall|i: int|
        0 <= i < nodes.len() && (#[trigger] nodes[i]).anchor is Some && nodes[i].last_ready is Some
            && nodes[i].anchor->0.alias() is None ==> outs.contains_key(i as usize) && nodes[i].anchor->0.own() == outs[i as usize]
}

/// The outputs stay in order while nothing more is shown.
pub proof fn lemma_outs_less<V, N: AnchorOutput<Output = V>>(a: Seq<Node<N>>, b: Seq<Node<N>>, outs: Map<AnchorToken, V>)
    requires
        outs_wf(a, outs),
        shows_less(a, b),
        forall|i: int|
            0 <= i < b.len() && (#[trigger] b[i]).anchor is Some && b[i].last_ready is Some && b[i].anchor->0.alias() is None ==> {
                &&& i < a.len()
                &&& a[i].anchor is Some
                &&& a[i].last_ready is Some
                &&& a[i].anchor->0.alias() is None
                &&& a[i].anchor->0.own() == b[i].anchor->0.own()
            },
    ensures
        outs_wf(b, outs),
{
    reveal(outs_wf);
    assert forall|i: AnchorToken, fuel: nat| #[trigger] reading(b, i, fuel) is Some implies outs.contains_key(i) && reading(b, i, fuel)->0 == outs[i] by {
        lemma_reading_less(a, b, i, fuel);
    }
    assert forall|i: int| 0 <= i < b.len() && (#[trigger] b[i]).anchor is Some && b[i].last_ready is Some && b[i].anchor->0.alias() is None implies outs.contains_key(i as usize) && b[i].anchor->0.own() == outs[i as usize] by {
        assert(a[i].anchor is Some);
    }
}

/// Only nodes that were ready once have an output, and those that are ready or changed it have.
pub open spec fn announced_wf<N, V>(nodes: Seq<Node<N>>, outs: Map<AnchorToken, V>) -> bool {
    &&& forall|d: AnchorToken| #[trigger]
        outs.contains_key(d) ==> d < nodes.len() && (nodes[d as int].last_ready is Some || !nodes[d as int].alive)
    &&& forall|i: int|
        0 <= i < nodes.len() && ((#[trigger] nodes[i]).last_ready is Some || nodes[i].last_update is Some)
            ==> outs.contains_key(i as usize)
}

/// Nothing is left of a node that has been removed.
pub open spec fn gone_wf<N>(nodes: Seq<Node<N>>) -> bool {
    forall|i: int|
        0 <= i < nodes.len() && !(#[trigger] nodes[i]).alive ==> nodes[i].anchor is None && nodes[i].last_ready is None
}

/// What is observed or necessary is ready or queued, but perhaps for `node` and for what is lost.
pub open spec fn served<N>(nodes: Seq<Node<N>>, lost: Set<AnchorToken>, node: AnchorToken) -> bool {
    forall|i: int|
        0 <= i < nodes.len() && i != node && (#[trigger] nodes[i]).alive && nodes[i].recalc_state is NeedsRecalc
            && !lost.contains(i as usize) ==> unneeded(nodes[i])
}

/// What a node has been given is still there, and ready or queued, but perhaps for `node` and for what is lost.
#[verifier::opaque]
pub open spec fn steady<N, V>(nodes: Seq<Node<N>>, ledger: Ledger<V>, node: AnchorToken) -> bool {
    forall|j: AnchorToken, d: AnchorToken|
        #![trigger ledger.told[j].contains_key(d)]
        j < nodes.len() && d < nodes.len() && ledger.told[j].contains_key(d) ==> {
            &&& nodes[d as int].alive
            &&& d == node || ledger.lost.contains(d) || !(nodes[d as int].recalc_state is NeedsRecalc)
        }
}

impl<V, N: AnchorOutput<Output = V>> EngineContextMut<N, V> {
    /// The engine's state is in order.
    #[verifier::opaque]
    pub open spec fn wf(&self) -> bool {
        &&& self.graph.wf()
        &&& self.graph.nodes@.len() <= usize::MAX
        &&& self.pending_requests.wf()
        &&& self.pending_stats.agree()
        &&& tidy(self.graph.nodes@)
        &&& forall|i: int| 0 <= i < self.graph.nodes@.len() ==> !(#[trigger] self.graph.nodes@[i]).visited
        &&& generations_past(self.graph.nodes@, self.generation)
        &&& anchors_wf(self.graph.nodes@)
        &&& forall|i: int|
            0 <= i < self.graph.nodes@.len() && (#[trigger] self.graph.nodes@[i]).alive
                && self.graph.nodes@[i].anchor is None ==> i == self.node
        &&& forall|i: int|
            0 <= i < self.graph.nodes@.len() && (#[trigger] self.graph.nodes@[i]).anchor_locked ==> i == self.node
        &&& !self.ledger@.refused ==> ordered(self.graph.nodes@)
        &&& announced_wf(self.graph.nodes@, self.ledger@.outs)
        &&& gone_wf(self.graph.nodes@)
        &&& told_wf(self.graph.nodes@, self.ledger@)
        &&& seen_wf(self.graph.nodes@, self.ledger@, self.generation)
        &&& outs_wf(self.graph.nodes@, self.ledger@.outs)
        &&& served(self.graph.nodes@, self.ledger@.lost, self.node)
        &&& steady(self.graph.nodes@, self.ledger@, self.node)
    }
}

/// Whether `token` identifies a node that has not been removed.
pub open spec fn alive<N>(nodes: Seq<Node<N>>, token: AnchorToken) -> bool {
    token < nodes.len() && nodes[token as int].alive
}

/// `told` with the output of `child`, unless it is in there already.
pub open spec fn given<V>(told: Map<AnchorToken, V>, child: AnchorToken, out: V) -> Map<AnchorToken, V> {
    if told.contains_key(child) {
        told
    } else {
        told.insert(child, out)
    }
}

/// What becomes of a request for `child` that is put down.
pub open spec fn enqueue_outcome(queue: &PendingQueue, child: AnchorToken) -> PendingEnqueueOutcome {
    if queue.holds(child) {
        PendingEnqueueOutcome::Replaced
    } else {
        PendingEnqueueOutcome::Inserted
    }
}

/// `list` with `token` at its end, unless it is in there already.
pub open spec fn including(list: Seq<AnchorToken>, token: AnchorToken) -> Seq<AnchorToken> {
    if list.contains(token) {
        list
    } else {
        list.push(token)
    }
}

/// What a request of `node` for `child`, which stands below it, makes of the graph: `node` hears of the changes of
/// `child`, `child` is queued unless it is ready, and it is necessary to `node` if `need` says so.
pub open spec fn granted<N>(a: Seq<Node<N>>, b: Seq<Node<N>>, node: AnchorToken, child: AnchorToken, need: bool) -> bool {
    &&& b.len() == a.len()
    &&& forall|j: int| 0 <= j < a.len() ==> #[trigger] granted_at(a, b, node, child, need, j)
}

/// What the request makes of node `j`.
pub open spec fn granted_at<N>(
    a: Seq<Node<N>>,
    b: Seq<Node<N>>,
    node: AnchorToken,
    child: AnchorToken,
    need: bool,
    j: int,
) -> bool {
    &&& b[j] == (Node {
        recalc_state: b[j].recalc_state,
        clean_parents: b[j].clean_parents,
        necessary_count: b[j].necessary_count,
        necessary_children: b[j].necessary_children,
        ..a[j]
    })
    &&& b[j].recalc_state == (if j == child && !(a[j].recalc_state is Ready) {
        RecalcState::Pending
    } else {
        a[j].recalc_state
    })
    &&& b[j].clean_parents@ == (if j == child {
        including(a[j].clean_parents@, node)
    } else {
        a[j].clean_parents@
    })
    &&& b[j].necessary_children@ == (if j == node && need {
        including(a[j].necessary_children@, child)
    } else {
        a[j].necessary_children@
    })
    &&& b[j].necessary_count == a[j].necessary_count + (if j == child && need && !a[node as int].necessary_children@.contains(
        child,
    ) {
        1int
    } else {
        0
    })
}

/// `list` without `token`.
pub open spec fn without(list: Seq<AnchorToken>, token: AnchorToken) -> Seq<AnchorToken> {
    if list.contains(token) {
        list.remove(list.index_of(token))
    } else {
        list
    }
}

/// What it makes of the graph that `node` does not need `child` any more: the link between them goes, and so do the
/// links of what nothing needs then, from `child` downwards.
pub open spec fn let_go<N>(a: Seq<Node<N>>, b: Seq<Node<N>>, node: AnchorToken, child: AnchorToken) -> bool {
    &&& necessity_only(a, b)
    &&& tidy_at(b, child as int)
    &&& forall|j: int| 0 <= j < a.len() ==> #[trigger] let_go_at(a, b, node, child, j)
}

/// What it makes of node `j`.
pub open spec fn let_go_at<N>(a: Seq<Node<N>>, b: Seq<Node<N>>, node: AnchorToken, child: AnchorToken, j: int) -> bool {
    let one = if j == child && a[node as int].necessary_children@.contains(child) {
        1int
    } else {
        0
    };
    let list = if j == node {
        without(a[j].necessary_children@, child)
    } else {
        a[j].necessary_children@
    };
    &&& b[j].necessary_count <= a[j].necessary_count - one
    &&& b[j].necessary_children@ == list || {
        &&& b[j].necessary_children@.len() == 0
        &&& unneeded(b[j])
        &&& b[j].necessary_count < a[j].necessary_count
    }
}

/// Whether there are heights at which `parent` stands above `child`, with everything else in order.
pub open spec fn placeable<N>(nodes: Seq<Node<N>>, child: int, parent: int, limit: nat) -> bool {
    exists|g: spec_fn(int) -> int| #[trigger] admissible(nodes, g, limit) && g(child) < g(parent)
}

/// Whether a node is part of some observed calculation.
pub open spec fn observed_state<N>(node: Node<N>) -> ObservedState {
    if node.observed {
        ObservedState::Observed
    } else if node.necessary_count > 0 {
        ObservedState::Necessary
    } else {
        ObservedState::Unnecessary
    }
}

/// Whether a node is part of some observed calculation.
pub fn check_observed_raw<N>(node: &Node<N>) -> (state: ObservedState)
    ensures
        state == observed_state(*node),
        state is Unnecessary <==> unneeded(*node),
{
    if node.observed {
        return ObservedState::Observed;
    }
    if node.necessary_count > 0 {
        ObservedState::Necessary
    } else {
        ObservedState::Unnecessary
    }
}

impl<V, N: AnchorOutput<Output = V>> EngineContextMut<N, V> {
    /// The answer to a request for a node that is not ready.
    pub open spec fn deferred(&self) -> Poll {
        if self.defer_disabled {
            Poll::Pending
        } else {
            Poll::PendingDefer
        }
    }

    /// `request` has been put down, unless that is disabled.
    pub open spec fn put_down(&self, later: &Self, request: PendingRequest) -> bool {
        if self.defer_disabled {
            later.pending_requests == self.pending_requests && later.pending_stats == self.pending_stats
        } else {
            let outcome = enqueue_outcome(&self.pending_requests, request.child);
            &&& inserted(&self.pending_requests, &later.pending_requests, request, outcome)
            &&& total(later.pending_requests.model()) > 0
            &&& total(later.pending_requests.model()) == total(self.pending_requests.model()) + (if outcome is Inserted {
                1nat
            } else {
                0nat
            })
            &&& later.pending_stats == self.pending_stats.enqueued(outcome, total(later.pending_requests.model()) as usize)
        }
    }

    /// The answer to a request of `self.node` for a node that is there, and what becomes of the graph and of the
    /// requests that are put down. Where the asking node cannot stand above the other, nothing does.
    pub open spec fn answered(&self, later: &Self, child: AnchorToken, necessary: bool, poll: Poll) -> bool {
        let nodes = self.graph.nodes@;
        let above = nodes[child as int].height < nodes[self.node as int].height;
        let needed = !unneeded(nodes[self.node as int]);
        let ready = nodes[child as int].recalc_state is Ready;
        let limit = self.graph.recalc_queues@.len();
        &&& poll == (if above && ready {
            freshness(nodes[child as int].last_update, nodes[self.node as int].last_ready, self.generation)
        } else if above || poll.waiting() {
            self.deferred()
        } else {
            Poll::Unchanged
        })
        &&& !above && !poll.waiting() ==> !placeable(nodes, child as int, self.node as int, limit)
        &&& exists|m: Seq<Node<N>>| #[trigger]
            raised(nodes, m, limit) && if above || poll.waiting() {
                &&& m[child as int].height < m[self.node as int].height
                &&& granted(m, later.graph.nodes@, self.node, child, necessary && needed && (above || !ready))
            } else {
                later.graph.nodes@ == m
            }
        &&& if poll.waiting() {
            self.put_down(
                later,
                PendingRequest {
                    parent: self.node,
                    child,
                    necessary,
                    priority: PendingPriority::of_request(necessary, needed),
                },
            )
        } else {
            later.pending_requests == self.pending_requests && later.pending_stats == self.pending_stats
        }
    }

    /// The asking node cannot stand above what it asked for.
    pub open spec fn refuses(&self, child: AnchorToken, poll: Poll) -> bool {
        !poll.waiting() && self.graph.nodes@[child as int].height >= self.graph.nodes@[self.node as int].height
    }

    /// The asking node is not told that the output of `child` is another one than when it last completed a poll.
    pub open spec fn misses(&self, child: AnchorToken, poll: Poll) -> bool {
        &&& poll is Unchanged
        &&& self.ledger@.seen[self.node].contains_key(child)
        &&& self.ledger@.seen[self.node][child] != self.ledger@.outs[child]
    }

    /// After this call the asking node cannot be relied upon: what is asked for is gone, or the asking node cannot
    /// stand above it, or is not told of a change.
    pub open spec fn troubled(&self, call: Call) -> bool {
        match call {
            Call::Request { token, necessary, poll } => !alive(self.graph.nodes@, token) || self.refuses(token, poll)
                || self.misses(token, poll),
            _ => false,
        }
    }

    /// What a call of the polled anchor makes of the engine.
    pub open spec fn called(&self, later: &Self, call: Call) -> bool {
        let nodes = self.graph.nodes@;
        &&& self.same_rest(later)
        &&& later.ledger@.calls == self.ledger@.calls.push(call)
        &&& later.ledger@.lost == (if self.troubled(call) {
            self.ledger@.lost.insert(self.node)
        } else {
            self.ledger@.lost
        })
        &&& match call {
            Call::Request { token, necessary, poll } => if alive(nodes, token) {
                &&& self.answered(later, token, necessary, poll)
                &&& later.pending_on_anchor_get == (self.pending_on_anchor_get || poll.waiting())
                &&& later.invalid_token_log == self.invalid_token_log
                &&& later.dirty_marks == self.dirty_marks
            } else {
                &&& poll is PendingInvalidToken
                &&& *later == (EngineContextMut {
                    pending_on_anchor_get: true,
                    invalid_token_requested: true,
                    invalid_token_log: later.invalid_token_log,
                    ledger: later.ledger,
                    ..*self
                })
                &&& self.invalid_token_log.bumped(&later.invalid_token_log, token as u64)
            },
            Call::Unrequest { token } => if alive(nodes, token) {
                &&& let_go(nodes, later.graph.nodes@, self.node, token)
                &&& *later == (EngineContextMut { graph: later.graph, ledger: later.ledger, ..*self })
            } else {
                &&& *later == (EngineContextMut {
                    invalid_token_log: later.invalid_token_log,
                    ledger: later.ledger,
                    ..*self
                })
                &&& self.invalid_token_log.bumped(&later.invalid_token_log, token as u64)
            },
            Call::DirtyHandle => *later == (EngineContextMut { ledger: later.ledger, ..*self }),
        }
    }

    /// A node has asked to be polled again.
    pub open spec fn asked_again(&self, later: &Self, token: AnchorToken) -> bool {
        &&& *later == (EngineContextMut { dirty_marks: later.dirty_marks, ..*self })
        &&& later.dirty_marks@ == self.dirty_marks@.push(token)
    }

    /// State `k + 1` comes from state `k` by one call, or by a mark.
    pub open spec fn called_at(states: Seq<Self>, k: int) -> bool {
        ||| exists|call: Call| #[trigger] states[k].called(&states[k + 1], call)
        ||| exists|token: AnchorToken| #[trigger] states[k].asked_again(&states[k + 1], token)
    }

    /// The engine has become `later` by one call after the other, with nodes being marked in between, and by nothing else.
    #[verifier::opaque]
    pub open spec fn called_on(&self, later: &Self) -> bool {
        exists|states: Seq<Self>|
            {
                &&& states.len() > 0
                &&& states[0] == *self
                &&& states.last() == *later
                &&& forall|k: int| 0 <= k < states.len() - 1 ==> #[trigger] Self::called_at(states, k)
            }
    }

    proof fn lemma_called_on_self(&self)
        ensures
            self.called_on(self),
    {
        reveal(EngineContextMut::called_on);
        let states = seq![*self];
        assert(states[0] == *self && states.last() == *self);
    }

    proof fn lemma_called_on_once(&self, later: &Self, call: Call)
        requires
            self.called(later, call),
        ensures
            self.called_on(later),
    {
        reveal(EngineContextMut::called_on);
        let states = seq![*self, *later];
        assert(states[0] == *self && states.last() == *later);
        assert(states[0].called(&states[0int + 1], call));
        assert(Self::called_at(states, 0));
    }

    proof fn lemma_called_on_transitive(&self, mid: &Self, later: &Self)
        requires
            self.called_on(mid),
            mid.called_on(later),
        ensures
            self.called_on(later),
    {
        reveal(EngineContextMut::called_on);
        let a = choose|states: Seq<Self>|
            {
                &&& states.len() > 0
                &&& states[0] == *self
                &&& states.last() == *mid
                &&& forall|k: int| 0 <= k < states.len() - 1 ==> #[trigger] Self::called_at(states, k)
            };
        let b = choose|states: Seq<Self>|
            {
                &&& states.len() > 0
                &&& states[0] == *mid
                &&& states.last() == *later
                &&& forall|k: int| 0 <= k < states.len() - 1 ==> #[trigger] Self::called_at(states, k)
            };
        let c = a + b.skip(1);
        assert(c[0] == *self);
        assert(c.last() == *later);
        assert forall|k: int| 0 <= k < c.len() - 1 implies #[trigger] Self::called_at(c, k) by {
            if k < a.len() - 1 {
                assert(Self::called_at(a, k));
                assert(c[k] == a[k] && c[k + 1] == a[k + 1]);
                if exists|call: Call| #[trigger] a[k].called(&a[k + 1], call) {
                    let call = choose|call: Call| #[trigger] a[k].called(&a[k + 1], call);
                    assert(c[k].called(&c[k + 1], call));
                } else {
                    let token = choose|token: AnchorToken| #[trigger] a[k].asked_again(&a[k + 1], token);
                    assert(c[k].asked_again(&c[k + 1], token));
                }
            } else {
                let m = k - (a.len() - 1);
                assert(Self::called_at(b, m));
                assert(c[k] == b[m] && c[k + 1] == b[m + 1]);
                if exists|call: Call| #[trigger] b[m].called(&b[m + 1], call) {
                    let call = choose|call: Call| #[trigger] b[m].called(&b[m + 1], call);
                    assert(c[k].called(&c[k + 1], call));
                } else {
                    let token = choose|token: AnchorToken| #[trigger] b[m].asked_again(&b[m + 1], token);
                    assert(c[k].asked_again(&c[k + 1], token));
                }
            }
        }
    }

    /// A node that can be relied upon when it begins to be polled can be when it has been, unless one of its calls asked for
    /// an anchor that was gone, or for one that the asking node cannot stand above, or was not told of a change.
    pub proof fn trouble_has_a_call(&self, later: &Self) -> (trouble: (Self, Self, Call))
        requires
            self.called_on(later),
            !self.ledger@.lost.contains(self.node),
            later.ledger@.lost.contains(self.node),
        ensures
            self.called_on(&trouble.0),
            trouble.0.called(&trouble.1, trouble.2),
            trouble.1.called_on(later),
            trouble.0.troubled(trouble.2),
            trouble.0.node == self.node,
    {
        reveal(EngineContextMut::called_on);
        let states = choose|states: Seq<Self>|
            {
                &&& states.len() > 0
                &&& states[0] == *self
                &&& states.last() == *later
                &&& forall|k: int| 0 <= k < states.len() - 1 ==> #[trigger] Self::called_at(states, k)
            };
        let (k, call) = Self::lemma_troubled_at(states, states.len() - 1);
        assert(self.called_on(&states[k])) by {
            let first = states.take(k + 1);
            assert(first[0] == *self && first.last() == states[k]);
            assert forall|m: int| 0 <= m < first.len() - 1 implies #[trigger] Self::called_at(first, m) by {
                assert(Self::called_at(states, m));
                assert(first[m] == states[m] && first[m + 1] == states[m + 1]);
            }
        }
        assert(states[k + 1].called_on(later)) by {
            let rest = states.skip(k + 1);
            assert(rest[0] == states[k + 1] && rest.last() == *later);
            assert forall|m: int| 0 <= m < rest.len() - 1 implies #[trigger] Self::called_at(rest, m) by {
                assert(Self::called_at(states, m + k + 1));
                assert(rest[m] == states[m + k + 1] && rest[m + 1] == states[m + k + 2]);
            }
        }
        (states[k], states[k + 1], call)
    }

    proof fn lemma_troubled_at(states: Seq<Self>, n: int) -> (trouble: (int, Call))
        requires
            0 <= n < states.len(),
            !states[0].ledger@.lost.contains(states[0].node),
            states[n].ledger@.lost.contains(states[0].node),
            forall|k: int| 0 <= k < states.len() - 1 ==> #[trigger] Self::called_at(states, k),
        ensures
            0 <= trouble.0 < n,
            states[trouble.0].called(&states[trouble.0 + 1], trouble.1),
            states[trouble.0].troubled(trouble.1),
            states[trouble.0].node == states[0].node,
        decreases n,
    {
        let k = n - 1;
        assert(Self::called_at(states, k));
        Self::lemma_same_node(states, k);
        if states[k].ledger@.lost.contains(states[0].node) {
            Self::lemma_troubled_at(states, k)
        } else {
            let call = choose|call: Call| #[trigger] states[k].called(&states[k + 1], call);
            (k, call)
        }
    }

    proof fn lemma_same_node(states: Seq<Self>, n: int)
        requires
            0 <= n < states.len(),
            forall|k: int| 0 <= k < states.len() - 1 ==> #[trigger] Self::called_at(states, k),
        ensures
            states[n].node == states[0].node,
        decreases n,
    {
        if n > 0 {
            Self::lemma_same_node(states, n - 1);
            assert(Self::called_at(states, n - 1));
        }
    }

    /// Whether a token still identifies a node.
    pub fn is_token_alive(&self, token: AnchorToken) -> (b: bool)
        ensures
            b == alive(self.graph.nodes@, token),
    {
        token < self.graph.nodes.len() && self.graph.nodes[token].alive
    }

    /// What does not change while a node is polled.
    pub open spec fn same_rest(&self, later: &Self) -> bool {
        &&& self.dirty_marks@.is_prefix_of(later.dirty_marks@)
        &&& later.generation == self.generation
        &&& later.unexpected_pending_log == self.unexpected_pending_log
        &&& later.defer_disabled == self.defer_disabled
        &&& later.node == self.node
        &&& self.pending_on_anchor_get ==> later.pending_on_anchor_get
        &&& later.graph.last_deleted == self.graph.last_deleted
        &&& later.graph.recalc_queues@.len() == self.graph.recalc_queues@.len()
        &&& later.pending_stats.grown(self.pending_stats)
        &&& later.ledger@.outs == self.ledger@.outs
        &&& later.ledger@.seen == self.ledger@.seen
        &&& later.ledger@.silent == self.ledger@.silent
        &&& later.ledger@.lost == self.ledger@.lost || later.ledger@.lost == self.ledger@.lost.insert(self.node)
        &&& forall|j: AnchorToken| j != self.node ==> #[trigger] later.ledger@.told[j] == self.ledger@.told[j]
        &&& self.ledger@.told[self.node].submap_of(later.ledger@.told[self.node])
        &&& forall|d: AnchorToken| #[trigger]
            later.ledger@.told[self.node].contains_key(d) && !self.ledger@.told[self.node].contains_key(d)
                ==> self.ledger@.outs.contains_key(d) && later.ledger@.told[self.node][d] == self.ledger@.outs[d]
    }

    /// Puts a request of `parent` for `child` down, to be tried again later.
    pub fn enqueue_pending_keys(
        &mut self,
        parent: AnchorToken,
        child: AnchorToken,
        necessary: bool,
        priority: PendingPriority,
    ) -> (taken: bool)
        requires
            old(self).pending_requests.wf(),
        ensures
            final(self).pending_requests.wf(),
            taken == !old(self).defer_disabled,
            *final(self) == (EngineContextMut {
                pending_requests: final(self).pending_requests,
                pending_stats: final(self).pending_stats,
                ..*old(self)
            }),
            !taken ==> *final(self) == *old(self),
            taken ==> inserted(
                &old(self).pending_requests,
                &final(self).pending_requests,
                PendingRequest { parent, child, necessary, priority },
                enqueue_outcome(&old(self).pending_requests, child),
            ),
            taken ==> total(final(self).pending_requests.model()) > 0 && total(final(self).pending_requests.model()) == total(
                old(self).pending_requests.model(),
            ) + (if enqueue_outcome(&old(self).pending_requests, child) is Inserted {
                1nat
            } else {
                0nat
            }),
            taken ==> final(self).pending_stats == old(self).pending_stats.enqueued(
                enqueue_outcome(&old(self).pending_requests, child),
                total(final(self).pending_requests.model()) as usize,
            ),
    {
        if self.defer_disabled {
            return false;
        }
        let outcome = self.pending_requests.insert(PendingRequest { parent, child, necessary, priority });
        let queue_len: usize = self.pending_requests.len();
        self.pending_stats.record_enqueue(outcome, queue_len);
        true
    }

    /// The state stays in order while a node is polled.
    proof fn lemma_kept(&self, later: &Self, child: AnchorToken, told: bool)
        requires
            self.wf(),
            self.node < self.graph.nodes@.len(),
            child < self.graph.nodes@.len(),
            later.graph.wf(),
            later.pending_requests.wf(),
            later.pending_stats.agree(),
            kept(self.graph.nodes@, later.graph.nodes@),
            self.same_rest(later),
            tidy(later.graph.nodes@),
            !later.ledger@.refused ==> ordered(later.graph.nodes@),
            later.ledger@.told[self.node] == (if told {
                given(self.ledger@.told[self.node], child, self.ledger@.outs[child])
            } else {
                self.ledger@.told[self.node]
            }),
            forall|i: int|
                0 <= i < later.graph.nodes@.len() && (#[trigger] later.graph.nodes@[i]).recalc_state is NeedsRecalc
                    && unneeded(self.graph.nodes@[i]) ==> unneeded(later.graph.nodes@[i]),
            told ==> {
                &&& self.ledger@.outs.contains_key(child)
                &&& self.graph.nodes@[child as int].alive
                &&& self.graph.nodes@[child as int].recalc_state is Ready
                &&& lists(later.graph.nodes@[child as int].clean_parents@, self.node as int)
            },
        ensures
            later.wf(),
    {
        reveal(EngineContextMut::wf);
        reveal(told_wf);
        reveal(seen_wf);
        reveal(outs_wf);
        reveal(steady);
        let a = self.graph.nodes@;
        let b = later.graph.nodes@;
        assert forall|i: int| 0 <= i < b.len() && !(#[trigger] b[i]).alive implies b[i].anchor is None && b[i].last_ready is None by {
            assert(!a[i].alive);
        }
        assert forall|i: int| 0 <= i < b.len() implies !(#[trigger] b[i]).visited by {
            assert(!a[i].visited);
        }
        assert forall|i: int| 0 <= i < b.len() implies {
            &&& (#[trigger] b[i]).last_ready is Some ==> b[i].last_ready->0 <= later.generation
            &&& b[i].last_update is Some ==> b[i].last_update->0 <= later.generation
        } by {
            assert(b[i].last_ready == a[i].last_ready && b[i].last_update == a[i].last_update);
        }
        assert forall|i: int| 0 <= i < b.len() && (#[trigger] b[i]).anchor is Some implies {
            &&& b[i].anchor->0.inv()
            &&& b[i].last_ready is Some ==> b[i].anchor->0.had()
            &&& b[i].recalc_state is Ready ==> b[i].last_ready is Some
        } by {
            assert(b[i].anchor == a[i].anchor);
        }
        assert forall|i: int| 0 <= i < b.len() && (#[trigger] b[i]).alive && b[i].anchor is None implies i == later.node by {
            assert(a[i].alive && a[i].anchor is None);
        }
        assert forall|d: AnchorToken| #[trigger] later.ledger@.outs.contains_key(d) implies d < b.len() && (b[d as int].last_ready is Some || !b[d as int].alive) by {
            assert(b[d as int].last_ready == a[d as int].last_ready && b[d as int].alive == a[d as int].alive);
        }
        assert forall|i: int| 0 <= i < b.len() && ((#[trigger] b[i]).last_ready is Some || b[i].last_update is Some) implies later.ledger@.outs.contains_key(i as usize) by {
            assert(a[i].last_ready == b[i].last_ready && a[i].last_update == b[i].last_update);
        }
        assert forall|i: int| 0 <= i < b.len() && (#[trigger] b[i]).anchor_locked implies i == later.node by {
            assert(a[i].anchor_locked);
        }
        assert forall|i: int| 0 <= i < b.len() && i != later.node && (#[trigger] b[i]).alive && b[i].recalc_state is NeedsRecalc && !later.ledger@.lost.contains(i as usize) implies unneeded(b[i]) by {
            assert(a[i].alive && a[i].recalc_state is NeedsRecalc);
            assert(!self.ledger@.lost.contains(i as usize));
        }
        assert forall|j: AnchorToken, d: AnchorToken| #![trigger later.ledger@.told[j].contains_key(d)] j < b.len() && d < b.len() && later.ledger@.told[j].contains_key(d) implies {
            &&& b[d as int].alive
            &&& d == later.node || later.ledger@.lost.contains(d) || !(b[d as int].recalc_state is NeedsRecalc)
        } by {
            assert(b[d as int].alive == a[d as int].alive);
            if j == self.node && told && d == child {
            } else {
                assert(self.ledger@.told[j].contains_key(d));
            }
        }
        assert forall|j: AnchorToken, d: AnchorToken| #![trigger later.ledger@.told[j].contains_key(d)] j < b.len() && later.ledger@.told[j].contains_key(d) implies {
            &&& d < b.len()
            &&& lists(b[d as int].clean_parents@, j as int)
            &&& later.ledger@.outs.contains_key(d)
            &&& later.ledger@.told[j][d] == later.ledger@.outs[d] || later.ledger@.silent.contains(d)
        } by {
            if self.ledger@.told[j].contains_key(d) {
                assert(lists(a[d as int].clean_parents@, j as int));
                assert(lists(b[d as int].clean_parents@, j as int));
            }
        }
        assert forall|j: AnchorToken, d: AnchorToken| #![trigger later.ledger@.seen[j].contains_key(d)] j < b.len() && d < b.len() && !later.ledger@.lost.contains(j) && later.ledger@.seen[j].contains_key(d) && freshness(b[d as int].last_update, b[j as int].last_ready, later.generation) is Unchanged implies later.ledger@.seen[j][d] == later.ledger@.outs[d] || later.ledger@.silent.contains(d) by {
            assert(self.ledger@.seen[j].contains_key(d));
            assert(!self.ledger@.lost.contains(j));
            assert(b[d as int].last_update == a[d as int].last_update);
            assert(b[j as int].last_ready == a[j as int].last_ready);
        }
        lemma_outs_less(a, b, self.ledger@.outs);
    }

    /// What is left of a request for a node that is not ready: it is put down, or simply pending.
    fn defer_or_pending(&mut self, child: AnchorToken, necessary: bool, self_is_necessary: bool) -> (poll: Poll)
        requires
            old(self).wf(),
        ensures
            final(self).wf(),
            poll == old(self).deferred(),
            final(self).pending_on_anchor_get,
            *final(self) == (EngineContextMut {
                pending_on_anchor_get: true,
                pending_requests: final(self).pending_requests,
                pending_stats: final(self).pending_stats,
                ..*old(self)
            }),
            old(self).same_rest(final(self)),
            final(self).pending_stats.same_drains(old(self).pending_stats),
            old(self).put_down(
                final(self),
                PendingRequest {
                    parent: old(self).node,
                    child,
                    necessary,
                    priority: PendingPriority::of_request(necessary, self_is_necessary),
                },
            ),
    {
        reveal(EngineContextMut::wf);
        self.pending_on_anchor_get = true;
        let priority = PendingPriority::default_for(necessary, self_is_necessary);
        if self.enqueue_pending_keys(self.node, child, necessary, priority) {
            return Poll::PendingDefer;
        }
        Poll::Pending
    }

    proof fn lemma_same_rest_transitive(&self, mid: &Self, later: &Self)
        requires
            self.same_rest(mid),
            mid.same_rest(later),
        ensures
            self.same_rest(later),
    {
        assert forall|j: AnchorToken| j != self.node implies #[trigger] later.ledger@.told[j] == self.ledger@.told[j] by {
            assert(mid.ledger@.told[j] == self.ledger@.told[j]);
        }
        assert(self.dirty_marks@ =~= later.dirty_marks@.subrange(0, self.dirty_marks@.len() as int)) by {
            let a = self.dirty_marks@;
            let b = mid.dirty_marks@;
            let c = later.dirty_marks@;
            assert forall|k: int| 0 <= k < a.len() implies #[trigger] a[k] == c[k] by {
                assert(a[k] == b.subrange(0, a.len() as int)[k]);
                assert(b[k] == c.subrange(0, b.len() as int)[k]);
            }
        }
        let a = self.ledger@.told[self.node];
        let b = mid.ledger@.told[self.node];
        let c = later.ledger@.told[self.node];
        assert forall|d: AnchorToken| a.contains_key(d) implies #[trigger] c.contains_key(d) && c[d] == a[d] by {
            assert(b.contains_key(d) && b[d] == a[d]);
        }
        assert forall|d: AnchorToken| #[trigger] c.contains_key(d) && !a.contains_key(d) implies self.ledger@.outs.contains_key(d) && c[d]
            == self.ledger@.outs[d] by {
            if b.contains_key(d) {
                assert(b.dom().contains(d));
            }
        }
        assert(self.ledger@.lost.insert(self.node).insert(self.node) =~= self.ledger@.lost.insert(self.node));
    }

    /// More nodes may be lost.
    pub proof fn lemma_lost(&self, later: &Self)
        requires
            self.wf(),
            *later == (EngineContextMut {
                pending_on_anchor_get: later.pending_on_anchor_get,
                invalid_token_requested: later.invalid_token_requested,
                invalid_token_log: later.invalid_token_log,
                ledger: later.ledger,
                ..*self
            }),
            later.ledger@ == (Ledger { calls: later.ledger@.calls, lost: later.ledger@.lost, ..self.ledger@ }),
            self.ledger@.lost.subset_of(later.ledger@.lost),
        ensures
            later.wf(),
    {
        reveal(EngineContextMut::wf);
        reveal(told_wf);
        reveal(seen_wf);
        reveal(steady);
        assert forall|j: AnchorToken, d: AnchorToken| #![trigger later.ledger@.seen[j].contains_key(d)] j < self.graph.nodes@.len() && d < self.graph.nodes@.len() && !later.ledger@.lost.contains(j) && later.ledger@.seen[j].contains_key(d) && freshness(self.graph.nodes@[d as int].last_update, self.graph.nodes@[j as int].last_ready, later.generation) is Unchanged implies later.ledger@.seen[j][d] == later.ledger@.outs[d] || later.ledger@.silent.contains(d) by {
            assert(self.ledger@.seen[j].contains_key(d));
            assert(!self.ledger@.lost.contains(j));
        }
        assert forall|j: AnchorToken, d: AnchorToken| #![trigger later.ledger@.told[j].contains_key(d)] j < self.graph.nodes@.len() && d < self.graph.nodes@.len() && later.ledger@.told[j].contains_key(d) implies self.graph.nodes@[d as int].alive && (d == self.node || later.ledger@.lost.contains(d) || !(self.graph.nodes@[d as int].recalc_state is NeedsRecalc)) by {
            assert(self.ledger@.told[j].contains_key(d));
        }
        assert forall|j: AnchorToken, d: AnchorToken| #![trigger later.ledger@.told[j].contains_key(d)] j < self.graph.nodes@.len() && later.ledger@.told[j].contains_key(d) implies {
            &&& d < self.graph.nodes@.len()
            &&& lists(self.graph.nodes@[d as int].clean_parents@, j as int)
            &&& later.ledger@.outs.contains_key(d)
            &&& later.ledger@.told[j][d] == later.ledger@.outs[d] || later.ledger@.silent.contains(d)
        } by {
            assert(self.ledger@.told[j].contains_key(d));
        }
    }

    /// Lets `self.node` hear of the changes of `child`, which stands below it.
    fn link_child(&mut self, child: AnchorToken)
        requires
            old(self).wf(),
            old(self).node < old(self).graph.nodes@.len(),
            child < old(self).graph.nodes@.len(),
            old(self).graph.nodes@[child as int].height < old(self).graph.nodes@[old(self).node as int].height,
        ensures
            final(self).wf(),
            kept(old(self).graph.nodes@, final(self).graph.nodes@),
            *final(self) == (EngineContextMut { graph: final(self).graph, ..*old(self) }),
            old(self).same_rest(final(self)),
            lists(final(self).graph.nodes@[child as int].clean_parents@, old(self).node as int),
            forall|i: int|
                0 <= i < old(self).graph.nodes@.len() ==> {
                    &&& #[trigger] final(self).graph.nodes@[i] == (Node {
                        clean_parents: final(self).graph.nodes@[i].clean_parents,
                        ..old(self).graph.nodes@[i]
                    })
                    &&& final(self).graph.nodes@[i].clean_parents@ == (if i == child {
                        including(old(self).graph.nodes@[i].clean_parents@, old(self).node)
                    } else {
                        old(self).graph.nodes@[i].clean_parents@
                    })
                },
    {
        reveal(EngineContextMut::wf);
        let node: AnchorToken = self.node;
        let ghost was = *self;
        self.graph.add_clean_parent(child, node);
        proof {
            lemma_kept_linked(was.graph, self.graph, child, node);
            was.lemma_kept(self, child, false);
        }
    }

    /// Makes `child` necessary to `self.node`, which is necessary itself.
    fn need_child(&mut self, child: AnchorToken)
        requires
            old(self).wf(),
            old(self).node < old(self).graph.nodes@.len(),
            child < old(self).graph.nodes@.len(),
            !unneeded(old(self).graph.nodes@[old(self).node as int]),
            !(old(self).graph.nodes@[child as int].recalc_state is NeedsRecalc),
        ensures
            final(self).wf(),
            kept(old(self).graph.nodes@, final(self).graph.nodes@),
            *final(self) == (EngineContextMut { graph: final(self).graph, ..*old(self) }),
            old(self).same_rest(final(self)),
            forall|j: int|
                0 <= j < old(self).graph.nodes@.len() ==> {
                    &&& #[trigger] final(self).graph.nodes@[j] == (Node {
                        necessary_count: final(self).graph.nodes@[j].necessary_count,
                        necessary_children: final(self).graph.nodes@[j].necessary_children,
                        ..old(self).graph.nodes@[j]
                    })
                    &&& final(self).graph.nodes@[j].necessary_children@ == (if j == old(self).node {
                        including(old(self).graph.nodes@[j].necessary_children@, child)
                    } else {
                        old(self).graph.nodes@[j].necessary_children@
                    })
                    &&& final(self).graph.nodes@[j].necessary_count == old(self).graph.nodes@[j].necessary_count + (if j == child
                        && !old(self).graph.nodes@[old(self).node as int].necessary_children@.contains(child) {
                        1int
                    } else {
                        0
                    })
                },
    {
        reveal(EngineContextMut::wf);
        let node: AnchorToken = self.node;
        let ghost was = *self;
        self.graph.add_necessary_child(node, child);
        proof {
            lemma_kept_necessity(was.graph.nodes@, self.graph.nodes@);
            lemma_tidy_added(was.graph.nodes@, self.graph.nodes@, node as int);
            was.lemma_kept(self, child, false);
        }
    }

    /// Queues `child`, which is not ready.
    fn queue_child(&mut self, child: AnchorToken)
        requires
            old(self).wf(),
            old(self).node < old(self).graph.nodes@.len(),
            child < old(self).graph.nodes@.len(),
            !(old(self).graph.nodes@[child as int].recalc_state is Ready),
        ensures
            final(self).wf(),
            kept(old(self).graph.nodes@, final(self).graph.nodes@),
            *final(self) == (EngineContextMut {
                graph: final(self).graph,
                pending_on_anchor_get: true,
                ..*old(self)
            }),
            old(self).same_rest(final(self)),
            !old(self).graph.nodes@[child as int].anchor_locked ==> final(self).graph.nodes@ == old(self).graph.nodes@.update(
                child as int,
                Node { recalc_state: RecalcState::Pending, ..old(self).graph.nodes@[child as int] },
            ),
            old(self).graph.nodes@[child as int].anchor_locked ==> final(self).graph.nodes@ == old(self).graph.nodes@,
    {
        reveal(EngineContextMut::wf);
        let ghost was = *self;
        self.pending_on_anchor_get = true;
        self.graph.queue_recalc(child);
        proof {
            if !was.graph.nodes@[child as int].anchor_locked {
                lemma_kept_queued(was.graph.nodes@, child as int);
            }
            was.lemma_kept(self, child, false);
        }
    }

    /// Lets `self.node` stand above `child`, and says whether it already did.
    fn raise_above(&mut self, child: AnchorToken) -> (increased: Result<bool, ()>)
        requires
            old(self).wf(),
            old(self).node < old(self).graph.nodes@.len(),
            child < old(self).graph.nodes@.len(),
        ensures
            final(self).wf(),
            kept(old(self).graph.nodes@, final(self).graph.nodes@),
            old(self).same_rest(final(self)),
            raised(old(self).graph.nodes@, final(self).graph.nodes@, old(self).graph.recalc_queues@.len()),
            *final(self) == (EngineContextMut { graph: final(self).graph, ledger: final(self).ledger, ..*old(self) }),
            increased is Ok ==> final(self).ledger == old(self).ledger,
            increased is Ok ==> final(self).graph.nodes@[child as int].height
                < final(self).graph.nodes@[old(self).node as int].height,
            increased == Ok::<bool, ()>(true) <==> old(self).graph.nodes@[child as int].height
                < old(self).graph.nodes@[old(self).node as int].height,
            increased is Err ==> final(self).ledger@ == (Ledger {
                lost: old(self).ledger@.lost.insert(old(self).node),
                refused: true,
                ..old(self).ledger@
            }),
            forall|g: spec_fn(int) -> int|
                #[trigger] admissible(old(self).graph.nodes@, g, old(self).graph.recalc_queues@.len()) && g(
                    child as int,
                ) < g(old(self).node as int) ==> increased is Ok,
    {
        reveal(EngineContextMut::wf);
        let ghost was = *self;
        let node: AnchorToken = self.node;
        let increased = self.graph.ensure_height_increases(child, node);
        proof {
            lemma_kept_raised(was.graph.nodes@, self.graph.nodes@, was.graph.recalc_queues@.len());
            assert forall|i: int| 0 <= i < self.graph.nodes@.len() implies #[trigger] tidy_at(self.graph.nodes@, i) by {
                assert(tidy_at(was.graph.nodes@, i));
            }
        }
        if increased.is_err() {
            self.ledger = Ghost(Ledger { lost: self.ledger@.lost.insert(self.node), refused: true, ..self.ledger@ });
        }
        proof {
            was.lemma_kept(self, child, false);
        }
        increased
    }

    /// Whether `child` has changed since `self.node` last completed a poll.
    fn compare_generations(&self, child: AnchorToken) -> (poll: Poll)
        requires
            self.node < self.graph.nodes@.len(),
            child < self.graph.nodes@.len(),
        ensures
            poll == freshness(
                self.graph.nodes@[child as int].last_update,
                self.graph.nodes@[self.node as int].last_ready,
                self.generation,
            ),
    {
        match (self.graph.nodes[child].last_update, self.graph.nodes[self.node].last_ready) {
            (Some(a), Some(b)) => if a < b {
                Poll::Unchanged
            } else if a == b && b == self.generation {
                Poll::Updated
            } else if a == b {
                Poll::Unchanged
            } else {
                Poll::Updated
            },
            _ => Poll::Updated,
        }
    }

    /// Enters that `self.node` has been given the output of `child`.
    fn tell_child(&mut self, child: AnchorToken)
        requires
            old(self).wf(),
            old(self).node < old(self).graph.nodes@.len(),
            child < old(self).graph.nodes@.len(),
            child != old(self).node,
            old(self).graph.nodes@[child as int].alive,
            old(self).graph.nodes@[child as int].recalc_state is Ready,
            lists(old(self).graph.nodes@[child as int].clean_parents@, old(self).node as int),
        ensures
            final(self).wf(),
            *final(self) == (EngineContextMut { ledger: final(self).ledger, ..*old(self) }),
            final(self).ledger@ == (Ledger {
                told: old(self).ledger@.told.insert(
                    old(self).node,
                    given(old(self).ledger@.told[old(self).node], child, old(self).ledger@.outs[child]),
                ),
                ..old(self).ledger@
            }),
            old(self).same_rest(final(self)),
    {
        reveal(EngineContextMut::wf);
        let ghost was = *self;
        let ghost node = self.node;
        self.ledger = Ghost(
            Ledger {
                told: self.ledger@.told.insert(node, given(self.ledger@.told[node], child, self.ledger@.outs[child])),
                ..self.ledger@
            },
        );
        proof {
            reveal(told_wf);
            reveal(outs_wf);
            assert(was.graph.nodes@[child as int].anchor is Some);
            assert(was.graph.nodes@[child as int].last_ready is Some);
            assert(was.ledger@.outs.contains_key(child));
            assert forall|d: AnchorToken| was.ledger@.told[node].contains_key(d) implies #[trigger] self.ledger@.told[node].contains_key(d) && self.ledger@.told[node][d] == was.ledger@.told[node][d] by {
                assert(was.ledger@.told[node].contains_key(d));
            }
            was.lemma_kept(self, child, true);
        }
    }

    /// Answers a request for a node that is not ready: it is queued, and the request is put down.
    fn ask_unready(&mut self, child: AnchorToken, necessary: bool, self_is_necessary: bool) -> (poll: Poll)
        requires
            old(self).wf(),
            old(self).node < old(self).graph.nodes@.len(),
            child < old(self).graph.nodes@.len(),
            old(self).graph.nodes@[child as int].height < old(self).graph.nodes@[old(self).node as int].height,
            self_is_necessary == !unneeded(old(self).graph.nodes@[old(self).node as int]),
            !(old(self).graph.nodes@[child as int].recalc_state is Ready),
        ensures
            final(self).wf(),
            kept(old(self).graph.nodes@, final(self).graph.nodes@),
            old(self).same_rest(final(self)),
            final(self).ledger@.calls == old(self).ledger@.calls,
            final(self).invalid_token_log == old(self).invalid_token_log,
            final(self).dirty_marks == old(self).dirty_marks,
            final(self).pending_stats.same_drains(old(self).pending_stats),
            final(self).graph.nodes@[old(self).node as int].necessary_count == old(self).graph.nodes@[old(self).node as int].necessary_count,
            lists(final(self).graph.nodes@[child as int].clean_parents@, old(self).node as int),
            poll == old(self).deferred(),
            final(self).pending_on_anchor_get,
            final(self).ledger == old(self).ledger,
            granted(old(self).graph.nodes@, final(self).graph.nodes@, old(self).node, child, necessary && self_is_necessary),
            old(self).put_down(
                final(self),
                PendingRequest {
                    parent: old(self).node,
                    child,
                    necessary,
                    priority: PendingPriority::of_request(necessary, self_is_necessary),
                },
            ),
    {
        let ghost was = *self;
        self.link_child(child);
        let ghost linked = *self;
        assert(!linked.graph.nodes@[child as int].anchor_locked && child != was.node) by {
            reveal(EngineContextMut::wf);
        }
        self.queue_child(child);
        let ghost queued = *self;
        proof {
            lemma_kept_transitive(was.graph.nodes@, linked.graph.nodes@, queued.graph.nodes@);
            was.lemma_same_rest_transitive(&linked, &queued);
        }
        if necessary && self_is_necessary {
            self.need_child(child);
            proof {
                lemma_kept_transitive(was.graph.nodes@, queued.graph.nodes@, self.graph.nodes@);
                was.lemma_same_rest_transitive(&queued, self);
            }
        }
        let ghost before = *self;
        let poll = self.defer_or_pending(child, necessary, self_is_necessary);
        proof {
            was.lemma_same_rest_transitive(&before, self);
            let a = was.graph.nodes@;
            let b = self.graph.nodes@;
            let need = necessary && self_is_necessary;
            assert forall|j: int| 0 <= j < a.len() implies #[trigger] granted_at(a, b, was.node, child, need, j) by {
                assert(linked.graph.nodes@[j].necessary_children == a[j].necessary_children);
                assert(linked.graph.nodes@[was.node as int].necessary_children == a[was.node as int].necessary_children);
                assert(queued.graph.nodes@[was.node as int].necessary_children == a[was.node as int].necessary_children);
                assert(before.graph.nodes@[j] == b[j]);
            }
        }
        poll
    }

    /// Lets `self.node` hear of the changes of `child`, which is ready, and need it if `need` says so.
    fn attach_child(&mut self, child: AnchorToken, need: bool)
        requires
            old(self).wf(),
            old(self).node < old(self).graph.nodes@.len(),
            child < old(self).graph.nodes@.len(),
            old(self).graph.nodes@[child as int].height < old(self).graph.nodes@[old(self).node as int].height,
            need ==> !unneeded(old(self).graph.nodes@[old(self).node as int]),
            old(self).graph.nodes@[child as int].recalc_state is Ready,
        ensures
            final(self).wf(),
            kept(old(self).graph.nodes@, final(self).graph.nodes@),
            *final(self) == (EngineContextMut { graph: final(self).graph, ..*old(self) }),
            old(self).same_rest(final(self)),
            granted(old(self).graph.nodes@, final(self).graph.nodes@, old(self).node, child, need),
            lists(final(self).graph.nodes@[child as int].clean_parents@, old(self).node as int),
    {
        let ghost was = *self;
        self.link_child(child);
        let ghost linked = *self;
        if need {
            self.need_child(child);
            proof {
                lemma_kept_transitive(was.graph.nodes@, linked.graph.nodes@, self.graph.nodes@);
                was.lemma_same_rest_transitive(&linked, self);
            }
        }
        proof {
            let a = was.graph.nodes@;
            let b = self.graph.nodes@;
            assert forall|j: int| 0 <= j < a.len() implies #[trigger] granted_at(a, b, was.node, child, need, j) by {
                assert(linked.graph.nodes@[j].necessary_children == a[j].necessary_children);
                assert(linked.graph.nodes@[was.node as int].necessary_children == a[was.node as int].necessary_children);
            }
        }
    }

    /// Answers a request for a node that is ready but stood too high: the request is put down.
    fn ask_raised(&mut self, child: AnchorToken, necessary: bool, self_is_necessary: bool) -> (poll: Poll)
        requires
            old(self).wf(),
            old(self).node < old(self).graph.nodes@.len(),
            child < old(self).graph.nodes@.len(),
            old(self).graph.nodes@[child as int].height < old(self).graph.nodes@[old(self).node as int].height,
            self_is_necessary == !unneeded(old(self).graph.nodes@[old(self).node as int]),
            old(self).graph.nodes@[child as int].recalc_state is Ready,
        ensures
            final(self).wf(),
            kept(old(self).graph.nodes@, final(self).graph.nodes@),
            old(self).same_rest(final(self)),
            final(self).ledger@.calls == old(self).ledger@.calls,
            final(self).invalid_token_log == old(self).invalid_token_log,
            final(self).dirty_marks == old(self).dirty_marks,
            final(self).pending_stats.same_drains(old(self).pending_stats),
            final(self).graph.nodes@[old(self).node as int].necessary_count == old(self).graph.nodes@[old(self).node as int].necessary_count,
            lists(final(self).graph.nodes@[child as int].clean_parents@, old(self).node as int),
            poll == old(self).deferred(),
            final(self).pending_on_anchor_get,
            final(self).ledger == old(self).ledger,
            granted(old(self).graph.nodes@, final(self).graph.nodes@, old(self).node, child, false),
            old(self).put_down(
                final(self),
                PendingRequest {
                    parent: old(self).node,
                    child,
                    necessary,
                    priority: PendingPriority::of_request(necessary, self_is_necessary),
                },
            ),
    {
        let ghost was = *self;
        self.attach_child(child, false);
        let ghost attached = *self;
        let poll = self.defer_or_pending(child, necessary, self_is_necessary);
        proof {
            was.lemma_same_rest_transitive(&attached, self);
            assert(granted_at(was.graph.nodes@, attached.graph.nodes@, was.node, child, false, was.node as int));
        }
        poll
    }

    /// Answers a request for a node that is ready.
    fn ask_ready(&mut self, child: AnchorToken, necessary: bool, self_is_necessary: bool) -> (poll: Poll)
        requires
            old(self).wf(),
            old(self).node < old(self).graph.nodes@.len(),
            child < old(self).graph.nodes@.len(),
            old(self).graph.nodes@[child as int].height < old(self).graph.nodes@[old(self).node as int].height,
            self_is_necessary == !unneeded(old(self).graph.nodes@[old(self).node as int]),
            old(self).graph.nodes@[child as int].alive,
            old(self).graph.nodes@[child as int].recalc_state is Ready,
        ensures
            final(self).wf(),
            kept(old(self).graph.nodes@, final(self).graph.nodes@),
            old(self).same_rest(final(self)),
            final(self).ledger@.calls == old(self).ledger@.calls,
            final(self).invalid_token_log == old(self).invalid_token_log,
            final(self).dirty_marks == old(self).dirty_marks,
            final(self).pending_stats.same_drains(old(self).pending_stats),
            final(self).graph.nodes@[old(self).node as int].necessary_count == old(self).graph.nodes@[old(self).node as int].necessary_count,
            lists(final(self).graph.nodes@[child as int].clean_parents@, old(self).node as int),
            poll == freshness(
                old(self).graph.nodes@[child as int].last_update,
                old(self).graph.nodes@[old(self).node as int].last_ready,
                old(self).generation,
            ),
            final(self).pending_on_anchor_get == old(self).pending_on_anchor_get,
            granted(old(self).graph.nodes@, final(self).graph.nodes@, old(self).node, child, necessary && self_is_necessary),
            final(self).pending_requests == old(self).pending_requests,
            final(self).pending_stats == old(self).pending_stats,
            final(self).ledger@ == (Ledger {
                told: old(self).ledger@.told.insert(
                    old(self).node,
                    given(old(self).ledger@.told[old(self).node], child, old(self).ledger@.outs[child]),
                ),
                ..old(self).ledger@
            }),
    {
        let ghost was = *self;
        let ghost node = self.node;
        self.attach_child(child, necessary && self_is_necessary);
        let ghost attached = *self;
        assert(child != node && attached.graph.nodes@[child as int].recalc_state is Ready
            && attached.graph.nodes@[node as int].last_ready == was.graph.nodes@[node as int].last_ready
            && attached.graph.nodes@[child as int].last_update == was.graph.nodes@[child as int].last_update
            && attached.graph.nodes@[child as int].alive && attached.graph.nodes@[node as int].necessary_count
            == was.graph.nodes@[node as int].necessary_count) by {
            let need = necessary && self_is_necessary;
            assert(granted_at(was.graph.nodes@, attached.graph.nodes@, node, child, need, child as int));
            assert(granted_at(was.graph.nodes@, attached.graph.nodes@, node, child, need, node as int));
        }
        self.tell_child(child);
        proof {
            was.lemma_same_rest_transitive(&attached, self);
        }
        let poll = self.compare_generations(child);
        poll
    }

    /// Answers a request of `self.node` for a node that is there.
    pub fn request_node(&mut self, child: AnchorToken, necessary: bool) -> (poll: Poll)
        requires
            old(self).wf(),
            old(self).node < old(self).graph.nodes@.len(),
            child < old(self).graph.nodes@.len(),
            old(self).graph.nodes@[child as int].alive,
        ensures
            final(self).wf(),
            kept(old(self).graph.nodes@, final(self).graph.nodes@),
            old(self).same_rest(final(self)),
            final(self).ledger@.calls == old(self).ledger@.calls,
            final(self).invalid_token_log == old(self).invalid_token_log,
            final(self).ledger@.told[old(self).node] == (if poll.ready() && !old(self).refuses(child, poll) {
                given(old(self).ledger@.told[old(self).node], child, old(self).ledger@.outs[child])
            } else {
                old(self).ledger@.told[old(self).node]
            }),
            old(self).answered(final(self), child, necessary, poll),
            poll.ready() && !old(self).refuses(child, poll) ==> old(self).ledger@.outs.contains_key(child),
            final(self).ledger@.refused == (old(self).ledger@.refused || old(self).refuses(child, poll)),
            final(self).ledger@.lost == (if old(self).refuses(child, poll) {
                old(self).ledger@.lost.insert(old(self).node)
            } else {
                old(self).ledger@.lost
            }),
            final(self).pending_on_anchor_get == (old(self).pending_on_anchor_get || poll.waiting()),
            poll.waiting() || old(self).graph.nodes@[child as int].height < old(self).graph.nodes@[old(self).node as int].height
                ==> lists(
                final(self).graph.nodes@[child as int].clean_parents@,
                old(self).node as int,
            ),
            final(self).graph.nodes@[old(self).node as int].necessary_count == old(self).graph.nodes@[old(self).node as int].necessary_count,
            final(self).pending_stats.same_drains(old(self).pending_stats),
            final(self).dirty_marks == old(self).dirty_marks,
            poll.waiting() && !(old(self).graph.nodes@[child as int].recalc_state is Ready)
                && !old(self).graph.nodes@[child as int].anchor_locked ==> final(self).graph.nodes@[child as int].recalc_state is Pending,
    {
        let ghost was = *self;
        let node: AnchorToken = self.node;
        let height_already_increased: bool = match self.raise_above(child) {
            Ok(already) => already,
            Err(_) => {
                assert(raised(was.graph.nodes@, self.graph.nodes@, was.graph.recalc_queues@.len()));
                return Poll::Unchanged;
            },
        };
        let ghost lifted = *self;
        let self_is_necessary: bool = check_observed_raw(&self.graph.nodes[node]) != ObservedState::Unnecessary;
        let poll = if self.graph.nodes[child].recalc_state != RecalcState::Ready {
            self.ask_unready(child, necessary, self_is_necessary)
        } else if !height_already_increased {
            self.ask_raised(child, necessary, self_is_necessary)
        } else {
            self.ask_ready(child, necessary, self_is_necessary)
        };
        proof {
            lemma_kept_transitive(was.graph.nodes@, lifted.graph.nodes@, self.graph.nodes@);
            was.lemma_same_rest_transitive(&lifted, self);
            assert(lifted.graph.nodes@[node as int].observed == was.graph.nodes@[node as int].observed);
            assert(lifted.graph.nodes@[child as int].recalc_state == was.graph.nodes@[child as int].recalc_state);
            assert(raised(was.graph.nodes@, lifted.graph.nodes@, was.graph.recalc_queues@.len()));
            if !(was.graph.nodes@[child as int].recalc_state is Ready) {
                let need = necessary && self_is_necessary;
                assert(granted_at(lifted.graph.nodes@, self.graph.nodes@, node, child, need, child as int));
            } else {
                reveal(EngineContextMut::wf);
                assert(was.graph.nodes@[child as int].anchor is Some || child == node);
            }
        }
        poll
    }
}

proof fn lemma_reading_kept<N: AnchorOutput>(a: &Graph2<N>, b: &Graph2<N>, i: AnchorToken, fuel: nat)
    requires
        kept(a.nodes@, b.nodes@),
    ensures
        a.reading(i, fuel) == b.reading(i, fuel),
    decreases fuel,
{
    if i < a.nodes@.len() {
        let x = a.nodes@[i as int];
        let y = b.nodes@[i as int];
        assert(y.anchor == x.anchor && y.alive == x.alive);
        if x.alive && x.recalc_state is Ready && x.anchor is Some && x.anchor->0.alias() is Some && fuel > 0 {
            lemma_reading_kept(a, b, x.anchor->0.alias()->0, (fuel - 1) as nat);
        }
    }
}

/// What there is to read is in the ledger.
pub proof fn lemma_reading_announced<V, N: AnchorOutput<Output = V>>(
    graph: &Graph2<N>,
    outs: Map<AnchorToken, V>,
    i: AnchorToken,
    fuel: nat,
)
    requires
        outs_wf(graph.nodes@, outs),
        graph.reading(i, fuel) is Some,
    ensures
        outs.contains_key(i),
        graph.reading(i, fuel)->0 == outs[i],
{
    reveal(outs_wf);
    assert(reading(graph.nodes@, i, fuel) is Some);
}

impl<V, N: AnchorOutput<Output = V>> UpdateContext for EngineContextMut<N, V> {
    type V = V;

    open spec fn valid(&self) -> bool {
        &&& self.wf()
        &&& self.node < self.graph.nodes@.len()
    }

    open spec fn calls(&self) -> Seq<Call> {
        self.ledger@.calls
    }

    open spec fn now(&self) -> Map<AnchorToken, V> {
        self.ledger@.outs
    }

    open spec fn told(&self) -> Map<AnchorToken, V> {
        self.ledger@.told[self.node]
    }

    open spec fn seen(&self) -> Map<AnchorToken, V> {
        self.ledger@.seen[self.node]
    }

    open spec fn completed(&self) -> bool {
        self.graph.nodes@[self.node as int].last_ready is Some
    }

    open spec fn degraded(&self) -> bool {
        self.ledger@.impaired(self.node)
    }

    open spec fn evolves(&self, later: &Self) -> bool {
        &&& self.valid() ==> later.valid()
        &&& kept(self.graph.nodes@, later.graph.nodes@)
        &&& self.same_rest(later)
        &&& self.called_on(later)
        &&& self.ledger@.calls.len() <= later.ledger@.calls.len()
        &&& forall|k: int| 0 <= k < self.ledger@.calls.len() ==> #[trigger] later.ledger@.calls[k] == self.ledger@.calls[k]
        &&& later.pending_on_anchor_get == (self.pending_on_anchor_get || unready_since(
            later.ledger@.calls,
            self.ledger@.calls.len() as int,
        ))
    }

    proof fn evolves_reflexive(&self) {
        self.lemma_called_on_self();
    }

    proof fn evolves_transitive(&self, mid: &Self, later: &Self) {
        lemma_kept_transitive(self.graph.nodes@, mid.graph.nodes@, later.graph.nodes@);
        self.lemma_same_rest_transitive(mid, later);
        self.lemma_called_on_transitive(mid, later);
        let a = self.ledger@.calls;
        let b = mid.ledger@.calls;
        let c = later.ledger@.calls;
        assert forall|k: int| 0 <= k < a.len() implies #[trigger] c[k] == a[k] by {
            assert(b[k] == a[k]);
        }
        if unready_since(b, a.len() as int) {
            let k = choose|k: int| a.len() <= k < b.len() && #[trigger] unready(b[k]);
            assert(unready(c[k]));
        }
        if unready_since(c, a.len() as int) {
            let k = choose|k: int| a.len() <= k < c.len() && #[trigger] unready(c[k]);
            if k < b.len() {
                assert(unready(b[k]));
            }
        }
        if unready_since(c, b.len() as int) {
            let k = choose|k: int| b.len() <= k < c.len() && #[trigger] unready(c[k]);
            assert(a.len() <= k);
        }
    }

    proof fn evolves_keeps(&self, later: &Self) {
        reveal(EngineContextMut::wf);
        assert(later.graph.nodes@[self.node as int].last_ready == self.graph.nodes@[self.node as int].last_ready);
        if later.ledger@.told[self.node].submap_of(later.ledger@.outs) {
            assert forall|d: AnchorToken| #[trigger] self.ledger@.told[self.node].dom().contains(d) implies self.ledger@.outs.dom().contains(d) && self.ledger@.told[self.node][d] == self.ledger@.outs[d] by {
                assert(later.ledger@.told[self.node].dom().contains(d));
            }
        }
    }

    fn request(&mut self, token: AnchorToken, necessary: bool) -> (poll: Poll)
        ensures
            poll is PendingInvalidToken <==> !alive(old(self).graph.nodes@, token),
            alive(old(self).graph.nodes@, token) ==> old(self).answered(final(self), token, necessary, poll),
            poll is PendingInvalidToken ==> {
                &&& final(self).pending_requests == old(self).pending_requests
                &&& final(self).pending_stats == old(self).pending_stats
                &&& final(self).invalid_token_requested
                &&& final(self).pending_on_anchor_get
                &&& final(self).graph == old(self).graph
                &&& old(self).invalid_token_log.bumped(&final(self).invalid_token_log, token as u64)
            },
    {
        reveal(EngineContextMut::wf);
        let ghost was = *self;
        if !self.is_token_alive(token) {
            self.pending_on_anchor_get = true;
            self.invalid_token_requested = true;
            let seen: u32 = self.invalid_token_log.bump(token as u64);
            self.ledger = Ghost(
                Ledger {
                    lost: self.ledger@.lost.insert(self.node),
                    calls: self.ledger@.calls.push(
                        Call::Request { token, necessary, poll: Poll::PendingInvalidToken },
                    ),
                    ..self.ledger@
                },
            );
            proof {
                assert(unready(self.ledger@.calls[was.ledger@.calls.len() as int]));
                was.lemma_lost(self);
                was.lemma_called_on_once(self, Call::Request { token, necessary, poll: Poll::PendingInvalidToken });
            }
            return Poll::PendingInvalidToken;
        }
        let poll = self.request_node(token, necessary);
        let ghost answered = *self;
        self.ledger = Ghost(
            Ledger {
                lost: if was.misses(token, poll) {
                    self.ledger@.lost.insert(self.node)
                } else {
                    self.ledger@.lost
                },
                calls: self.ledger@.calls.push(Call::Request { token, necessary, poll }),
                ..self.ledger@
            },
        );
        proof {
            answered.lemma_lost(self);
            assert(was.ledger@.lost.insert(was.node).insert(was.node) =~= was.ledger@.lost.insert(was.node));
            was.lemma_same_rest_transitive(&answered, self);
            if !self.degraded() {
                assert(was.ledger@.told[was.node].submap_of(was.ledger@.outs)) by {
                    assert forall|d: AnchorToken| #[trigger] was.ledger@.told[was.node].dom().contains(d) implies was.ledger@.outs.dom().contains(d) && was.ledger@.told[was.node][d] == was.ledger@.outs[d] by {
                        assert(self.ledger@.told[was.node].dom().contains(d));
                    }
                }
                if poll.ready() {
                    assert(was.ledger@.told[was.node].insert(token, was.ledger@.outs[token]) =~= given(
                        was.ledger@.told[was.node],
                        token,
                        was.ledger@.outs[token],
                    )) by {
                        if was.ledger@.told[was.node].contains_key(token) {
                            assert(was.ledger@.told[was.node].dom().contains(token));
                        }
                    }
                }
            }
            assert(unready(self.ledger@.calls[was.ledger@.calls.len() as int]) == !poll.ready());
            was.lemma_called_on_once(self, Call::Request { token, necessary, poll });
        }
        poll
    }

    fn unrequest(&mut self, token: AnchorToken)
        ensures
            alive(old(self).graph.nodes@, token) ==> {
                &&& let_go(old(self).graph.nodes@, final(self).graph.nodes@, old(self).node, token)
                &&& *final(self) == (EngineContextMut { graph: final(self).graph, ledger: final(self).ledger, ..*old(self) })
            },
            !alive(old(self).graph.nodes@, token) ==> {
                &&& *final(self) == (EngineContextMut {
                    invalid_token_log: final(self).invalid_token_log,
                    ledger: final(self).ledger,
                    ..*old(self)
                })
                &&& old(self).invalid_token_log.bumped(&final(self).invalid_token_log, token as u64)
            },
            final(self).ledger@ == (Ledger {
                calls: old(self).ledger@.calls.push(Call::Unrequest { token }),
                ..old(self).ledger@
            }),
    {
        reveal(EngineContextMut::wf);
        let ghost was = *self;
        if !self.is_token_alive(token) {
            let seen: u32 = self.invalid_token_log.bump(token as u64);
        } else {
            let node: AnchorToken = self.node;
            self.graph.remove_necessary_child(node, token);
            let ghost removed = self.graph.nodes@;
            self.graph.update_necessary_children(token);
            proof {
                let nodes = self.graph.nodes@;
                lemma_kept_necessity(was.graph.nodes@, removed);
                lemma_kept_necessity(removed, nodes);
                lemma_kept_transitive(was.graph.nodes@, removed, nodes);
                assert forall|j: int| 0 <= j < nodes.len() implies #[trigger] tidy_at(nodes, j) by {
                    assert(tidy_at(was.graph.nodes@, j));
                    if j != token {
                        assert(removed[j].necessary_count == was.graph.nodes@[j].necessary_count);
                        assert(tidy_at(removed, j));
                    }
                }
                assert forall|j: int| 0 <= j < nodes.len() && (#[trigger] nodes[j]).recalc_state is NeedsRecalc && unneeded(was.graph.nodes@[j]) implies unneeded(nodes[j]) by {
                    assert(released(token as int, removed, nodes, j));
                    assert(removed[j].necessary_count <= was.graph.nodes@[j].necessary_count);
                }
                assert forall|j: int| 0 <= j < nodes.len() implies #[trigger] let_go_at(was.graph.nodes@, nodes, node, token, j) by {
                    assert(released(token as int, removed, nodes, j));
                    assert(tidy_at(was.graph.nodes@, j));
                    let list = was.graph.nodes@[node as int].necessary_children@;
                    if list.contains(token) {
                        assert(list[list.index_of(token)] == token);
                        assert(lists(list, token as int));
                        assert(removed[j].necessary_count <= was.graph.nodes@[j].necessary_count);
                    } else {
                        assert(!lists(list, token as int));
                        assert(removed == was.graph.nodes@);
                        if j == token && unneeded(removed[j]) {
                            assert(nodes[j].necessary_children@ =~= was.graph.nodes@[j].necessary_children@);
                        }
                    }
                }
                was.lemma_kept(self, token, false);
            }
        }
        let ghost released = *self;
        self.ledger = Ghost(Ledger { calls: self.ledger@.calls.push(Call::Unrequest { token }), ..self.ledger@ });
        proof {
            released.lemma_lost(self);
            was.lemma_called_on_once(self, Call::Unrequest { token });
        }
    }

    fn dirty_handle(&mut self) -> (handle: DirtyHandle)
        ensures
            handle.num == old(self).node,
            final(self).graph == old(self).graph,
    {
        reveal(EngineContextMut::wf);
        let ghost was = *self;
        self.ledger = Ghost(Ledger { calls: self.ledger@.calls.push(Call::DirtyHandle), ..self.ledger@ });
        proof {
            was.lemma_lost(self);
            was.lemma_called_on_once(self, Call::DirtyHandle);
        }
        DirtyHandle { num: self.node }
    }
}

impl<V, N: AnchorOutput<Output = V>> EngineContextMut<N, V> {
    /// What can be read of node `token`; nothing where it is not ready.
    pub open spec fn value(&self, token: AnchorToken) -> Option<V> {
        self.graph.reading(token, self.graph.nodes@.len())
    }
}

impl<O, V: Holds<O>, N: AnchorOutput<Output = V>> Reads<O> for EngineContextMut<N, V> {
    open spec fn cast(v: V) -> O {
        <V as Holds<O>>::held(v)->0
    }

    open spec fn reading(&self, token: AnchorToken) -> Option<O> {
        match self.value(token) {
            Some(v) => <V as Holds<O>>::held(v),
            None => None,
        }
    }

    proof fn reading_kept(&self, later: &Self, token: AnchorToken) {
        lemma_reading_kept(&self.graph, &later.graph, token, self.graph.nodes@.len());
    }

    proof fn reading_is_now(&self, token: AnchorToken) {
        reveal(EngineContextMut::wf);
        lemma_reading_announced(&self.graph, self.ledger@.outs, token, self.graph.nodes@.len());
    }

    fn get(&self, anchor: &Anchor<O>) -> (out: Option<&O>) {
        reveal(EngineContextMut::wf);
        match self.graph.read(anchor.token) {
            Some(v) => <V as Holds<O>>::hold(v),
            None => None,
        }
    }
}

impl<N: AnchorOutput> Graph2<N> {
    /// Reads the output of node `i`, from wherever it is found.
    pub fn read(&self, i: AnchorToken) -> (out: Option<&N::Output>)
        requires
            anchors_wf(self.nodes@),
        ensures
            out is Some <==> self.reading(i, self.nodes@.len()) is Some,
            out is Some ==> *out->0 == self.reading(i, self.nodes@.len())->0,
    {
        let mut at: AnchorToken = i;
        let mut fuel: usize = self.nodes.len();
        loop
            invariant
                anchors_wf(self.nodes@),
                fuel <= self.nodes@.len(),
                self.reading(i, self.nodes@.len()) == self.reading(at, fuel as nat),
            decreases fuel,
        {
            if at >= self.nodes.len() {
                return None;
            }
            let node = &self.nodes[at];
            if !node.alive || node.recalc_state != RecalcState::Ready {
                return None;
            }
            match &node.anchor {
                None => {
                    return None;
                },
                Some(inner) => {
                    match inner.output() {
                        OutputRef::Own(v) => {
                            return Some(v);
                        },
                        OutputRef::Of(token) => {
                            if fuel == 0 {
                                return None;
                            }
                            at = token;
                            fuel = fuel - 1;
                        },
                    }
                },
            }
        }
    }
}

} // verus!
