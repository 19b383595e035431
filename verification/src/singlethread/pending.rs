//! Requests that could not be answered at once, and the order in which they are tried again.

use crate::expert::AnchorToken;
use indexmap::IndexMap;
use std::collections::HashMap;
use vstd::prelude::*;

verus! {

/// How urgently a request is tried again.
#[derive(Clone, Copy, Debug, PartialEq, Eq, Structural, PartialOrd, Ord)]
pub enum PendingPriority {
    BackgroundLow,
    StateNormal,
    LayoutHigh,
    RenderCritical,
}

impl PendingPriority {
    /// The place of a priority in their order.
    pub open spec fn rank(self) -> int {
        match self {
            PendingPriority::BackgroundLow => 0,
            PendingPriority::StateNormal => 1,
            PendingPriority::LayoutHigh => 2,
            PendingPriority::RenderCritical => 3,
        }
    }

    /// The priority of a request. What the asking node is counts for more than what it asks for.
    pub open spec fn of_request(request_necessary: bool, parent_is_necessary: bool) -> Self {
        if request_necessary && parent_is_necessary {
            PendingPriority::RenderCritical
        } else if parent_is_necessary {
            PendingPriority::LayoutHigh
        } else if request_necessary {
            PendingPriority::StateNormal
        } else {
            PendingPriority::BackgroundLow
        }
    }

    /// The priority of a request.
    pub fn default_for(request_necessary: bool, parent_is_necessary: bool) -> (priority: Self)
        ensures
            priority == Self::of_request(request_necessary, parent_is_necessary),
            priority.rank() == (if parent_is_necessary {
                2int
            } else {
                0
            }) + (if request_necessary {
                1int
            } else {
                0
            }),
    {
        if request_necessary && parent_is_necessary {
            PendingPriority::RenderCritical
        } else if parent_is_necessary {
            PendingPriority::LayoutHigh
        } else if request_necessary {
            PendingPriority::StateNormal
        } else {
            PendingPriority::BackgroundLow
        }
    }

    pub fn as_u8(self) -> (n: u8)
        ensures
            n == self.rank(),
    {
        match self {
            PendingPriority::BackgroundLow => 0,
            PendingPriority::StateNormal => 1,
            PendingPriority::LayoutHigh => 2,
            PendingPriority::RenderCritical => 3,
        }
    }

    /// The higher of two priorities.
    pub fn raised_to(self, other: Self) -> (max: Self)
        ensures
            max == (if self.rank() >= other.rank() {
                self
            } else {
                other
            }),
    {
        if self.as_u8() >= other.as_u8() {
            self
        } else {
            other
        }
    }
}

/// A request of `parent` for `child` that has been put down.
#[derive(Clone, Copy, Debug, PartialEq, Eq, Structural)]
pub struct PendingRequest {
    pub parent: AnchorToken,
    pub child: AnchorToken,
    pub necessary: bool,
    pub priority: PendingPriority,
}

/// What became of a request that was put down.
#[derive(Clone, Copy, Debug, PartialEq, Eq, Structural)]
pub enum PendingEnqueueOutcome {
    /// There was none for this child.
    Inserted,
    /// It took the place of one for the same child.
    Replaced,
}

/// An ordered map with the keys in the order of their insertion.
#[verifier::external_type_specification]
#[verifier::external_body]
#[verifier::reject_recursive_types(K)]
#[verifier::reject_recursive_types(V)]
#[verifier::reject_recursive_types(S)]
pub struct ExIndexMap<K, V, S>(IndexMap<K, V, S>);

/// The requests of one priority: for each child, who asks and whether the child is necessary.
pub type Bucket = IndexMap<AnchorToken, (AnchorToken, bool)>;

/// One entry of a bucket.
pub type Entry = (AnchorToken, (AnchorToken, bool));

/// The entries of a bucket, in their order.
pub uninterp spec fn entries(bucket: Bucket) -> Seq<Entry>;

/// `IndexMap::new`: a map without entries.
#[verifier::external_body]
fn bucket_new() -> (bucket: Bucket)
    ensures
        entries(bucket) == Seq::<Entry>::empty(),
{
    IndexMap::new()
}

/// `IndexMap::insert` of a key that is not in the map: the entry comes last, and the others stay
/// where they are. The entries' keys stay distinct.
#[verifier::external_body]
fn bucket_insert(bucket: &mut Bucket, child: AnchorToken, request: (AnchorToken, bool))
    requires
        !asked(entries(*old(bucket)), child),
    ensures
        entries(*final(bucket)) == entries(*old(bucket)).push((child, request)),
{
    bucket.insert(child, request);
}

/// `IndexMap::shift_remove`: the entry of the key is taken out and the others keep their order;
/// the value that it had is returned, and nothing if there is none.
#[verifier::external_body]
fn bucket_shift_remove(bucket: &mut Bucket, child: AnchorToken) -> (removed: Option<(AnchorToken, bool)>)
    ensures
        entries(*final(bucket)) == without(entries(*old(bucket)), child),
        removed is Some <==> asked(entries(*old(bucket)), child),
        removed is Some ==> entries(*old(bucket)).contains((child, removed->0)),
{
    bucket.shift_remove(&child)
}

/// `IndexMap::keys`, whose first item is the key of the first entry.
#[verifier::external_body]
fn bucket_first(bucket: &Bucket) -> (first: Option<AnchorToken>)
    ensures
        first is None <==> entries(*bucket).len() == 0,
        first is Some ==> first->0 == entries(*bucket)[0].0,
{
    bucket.keys().next().copied()
}

/// Whether there is an entry for `child`.
pub open spec fn asked(s: Seq<Entry>, child: AnchorToken) -> bool {
    exists|k: int| 0 <= k < s.len() && (#[trigger] s[k]).0 == child
}

/// The entries that are not for `child`.
pub open spec fn without(s: Seq<Entry>, child: AnchorToken) -> Seq<Entry> {
    s.filter(|e: Entry| e.0 != child)
}

/// No two entries are for one child.
pub open spec fn distinct(s: Seq<Entry>) -> bool {
    forall|k: int, l: int| 0 <= k < l < s.len() ==> (#[trigger] s[k]).0 != (#[trigger] s[l]).0
}

/// The request that an entry of priority `priority` is.
pub open spec fn request_of(priority: PendingPriority, e: Entry) -> PendingRequest {
    PendingRequest { parent: e.1.0, child: e.0, necessary: e.1.1, priority }
}

/// The priority of the given rank.
pub open spec fn of_rank(rank: int) -> PendingPriority {
    if rank == 3 {
        PendingPriority::RenderCritical
    } else if rank == 2 {
        PendingPriority::LayoutHigh
    } else if rank == 1 {
        PendingPriority::StateNormal
    } else {
        PendingPriority::BackgroundLow
    }
}

/// How many entries there are at all priorities together.
pub open spec fn total(model: Seq<Seq<Entry>>) -> nat {
    model[0].len() + model[1].len() + model[2].len() + model[3].len()
}

/// All entries, the highest priority first.
pub open spec fn in_order(model: Seq<Seq<Entry>>) -> Seq<PendingRequest> {
    requests(model, 3) + requests(model, 2) + requests(model, 1) + requests(model, 0)
}

/// Where the request stands that is at `n` among all: its rank, and its place there.
pub open spec fn place_in(model: Seq<Seq<Entry>>, n: int) -> (int, int) {
    let first = model[3].len();
    let second = first + model[2].len();
    let third = second + model[1].len();
    if n < first {
        (3, n)
    } else if n < second {
        (2, n - first)
    } else if n < third {
        (1, n - second)
    } else {
        (0, n - third)
    }
}

/// The requests of one priority.
pub open spec fn requests(model: Seq<Seq<Entry>>, rank: int) -> Seq<PendingRequest> {
    Seq::new(model[rank].len(), |k: int| request_of(of_rank(rank), model[rank][k]))
}

/// The model once a request for `child` has been put in with priority `rank` in place of any there was.
pub open spec fn placed(model: Seq<Seq<Entry>>, rank: int, entry: Entry) -> Seq<Seq<Entry>> {
    Seq::new(
        4,
        |r: int|
            if r == rank {
                without(model[r], entry.0).push(entry)
            } else {
                without(model[r], entry.0)
            },
    )
}

/// What putting `entry` down makes of the queue. A request for the same child gives way to it: the
/// later parent asks, the child is necessary if it was to either, and the priority never falls.
pub open spec fn inserted(
    before: &PendingQueue,
    after: &PendingQueue,
    entry: PendingRequest,
    outcome: PendingEnqueueOutcome,
) -> bool {
    &&& outcome is Replaced <==> before.holds(entry.child)
    &&& outcome is Inserted ==> after.model() == placed(
        before.model(),
        entry.priority.rank(),
        (entry.child, (entry.parent, entry.necessary)),
    )
    &&& outcome is Replaced ==> exists|rank: int, k: int|
        0 <= rank < 4 && 0 <= k < before.model()[rank].len() && (#[trigger] before.model()[rank][k]).0 == entry.child
            && after.model() == placed(
            before.model(),
            if rank >= entry.priority.rank() {
                rank
            } else {
                entry.priority.rank()
            },
            (entry.child, (entry.parent, before.model()[rank][k].1.1 || entry.necessary)),
        )
}

/// Where nothing is for `child`, all entries remain.
proof fn lemma_without_absent(s: Seq<Entry>, child: AnchorToken)
    requires
        !asked(s, child),
    ensures
        without(s, child) == s,
    decreases s.len(),
{
    reveal(Seq::filter);
    if s.len() > 0 {
        assert forall|k: int| 0 <= k < s.drop_last().len() implies (#[trigger] s.drop_last()[k]).0 != child by {
            assert(s[k].0 != child);
        }
        lemma_without_absent(s.drop_last(), child);
        assert(s.last() == s[s.len() - 1]);
        assert(s.drop_last().push(s.last()) =~= s);
    }
}

/// Where the entry at `k` is for `child`, the others remain.
proof fn lemma_without_present(s: Seq<Entry>, child: AnchorToken, k: int)
    requires
        distinct(s),
        0 <= k < s.len(),
        s[k].0 == child,
    ensures
        without(s, child) == s.remove(k),
    decreases s.len(),
{
    reveal(Seq::filter);
    let t = s.drop_last();
    if k == s.len() - 1 {
        assert forall|l: int| 0 <= l < t.len() implies (#[trigger] t[l]).0 != child by {
            assert(s[l].0 != s[k].0);
        }
        lemma_without_absent(t, child);
        assert(s.remove(k) =~= t);
    } else {
        assert(t[k].0 == child);
        assert(distinct(t)) by {
            assert forall|a: int, b: int| 0 <= a < b < t.len() implies (#[trigger] t[a]).0 != (#[trigger] t[b]).0 by {
                assert(s[a].0 != s[b].0);
            }
        }
        lemma_without_present(t, child, k);
        assert(s[k].0 != s[s.len() - 1].0);
        assert(s.remove(k) =~= t.remove(k).push(s.last()));
    }
}

/// The requests that have been put down, at most one for each child.
pub struct PendingQueue {
    buckets: Vec<Bucket>,
    index: HashMap<AnchorToken, PendingPriority>,
}

impl PendingQueue {
    /// The entries of each priority, by its rank. The index holds nothing besides: it says under which priority each child
    /// is found.
    pub closed spec fn model(&self) -> Seq<Seq<Entry>> {
        Seq::new(4, |rank: int| entries(self.buckets@[rank]))
    }

    pub closed spec fn wf(&self) -> bool {
        &&& self.buckets@.len() == 4
        &&& self.index@.dom().finite()
        &&& self.index@.len() == total(self.model())
        &&& forall|rank: int| 0 <= rank < 4 ==> distinct(#[trigger] entries(self.buckets@[rank]))
        &&& forall|child: AnchorToken| #[trigger]
            self.index@.contains_key(child) ==> asked(entries(self.buckets@[self.index@[child].rank()]), child)
        &&& forall|rank: int, k: int|
            0 <= rank < 4 && 0 <= k < entries(self.buckets@[rank]).len() ==> {
                &&& self.index@.contains_key((#[trigger] entries(self.buckets@[rank])[k]).0)
                &&& self.index@[entries(self.buckets@[rank])[k].0].rank() == rank
            }
    }

    /// Whether there is a request for `child`.
    pub open spec fn holds(&self, child: AnchorToken) -> bool {
        exists|rank: int| 0 <= rank < 4 && asked(#[trigger] self.model()[rank], child)
    }

    /// There is at most one request for each child, over all priorities.
    pub proof fn children_stand_once(&self, rank: int, k: int, other: int, l: int)
        requires
            self.wf(),
            0 <= rank < 4,
            0 <= k < self.model()[rank].len(),
            0 <= other < 4,
            0 <= l < self.model()[other].len(),
            self.model()[rank][k].0 == self.model()[other][l].0,
        ensures
            rank == other,
            k == l,
    {
        let s = entries(self.buckets@[rank]);
        let t = entries(self.buckets@[other]);
        assert(self.model()[rank] == s && self.model()[other] == t);
        assert(self.index@[s[k].0].rank() == rank);
        assert(self.index@[t[l].0].rank() == other);
        if k < l {
            assert(s[k].0 != s[l].0);
        } else if l < k {
            assert(s[l].0 != s[k].0);
        }
    }

    /// Of all the requests, in the order in which they are tried, no two are for one child.
    pub proof fn children_come_once(&self, m: int, n: int)
        requires
            self.wf(),
            0 <= m < n < in_order(self.model()).len(),
        ensures
            in_order(self.model())[m].child != in_order(self.model())[n].child,
    {
        let model = self.model();
        let (r, k) = place_in(model, m);
        let (s, l) = place_in(model, n);
        assert(in_order(model)[m].child == model[r][k].0);
        assert(in_order(model)[n].child == model[s][l].0);
        if model[r][k].0 == model[s][l].0 {
            self.children_stand_once(r, k, s, l);
        }
    }

    pub fn new() -> (queue: Self)
        ensures
            queue.wf(),
            forall|rank: int| 0 <= rank < 4 ==> (#[trigger] queue.model()[rank]).len() == 0,
    {
        let mut buckets: Vec<Bucket> = Vec::new();
        buckets.push(bucket_new());
        buckets.push(bucket_new());
        buckets.push(bucket_new());
        buckets.push(bucket_new());
        PendingQueue { buckets, index: HashMap::new() }
    }

    pub fn len(&self) -> (n: usize)
        requires
            self.wf(),
        ensures
            n == total(self.model()),
    {
        self.index.len()
    }

    pub fn is_empty(&self) -> (b: bool)
        requires
            self.wf(),
        ensures
            b == (total(self.model()) == 0),
    {
        self.index.len() == 0
    }

    /// Puts a request down.
    pub fn insert(&mut self, entry: PendingRequest) -> (outcome: PendingEnqueueOutcome)
        requires
            old(self).wf(),
        ensures
            final(self).wf(),
            inserted(old(self), final(self), entry, outcome),
            total(final(self).model()) > 0,
            total(final(self).model()) == total(old(self).model()) + (if outcome is Inserted {
                1nat
            } else {
                0nat
            }),
    {
        let mut necessary: bool = entry.necessary;
        let mut priority: PendingPriority = entry.priority;
        let mut outcome = PendingEnqueueOutcome::Inserted;
        let found: Option<PendingPriority> = match self.index.get(&entry.child) {
            Some(p) => Some(*p),
            None => None,
        };
        let ghost was = *self;
        let ghost child = entry.child;
        if let Some(old_priority) = found {
            let ghost rank = old_priority.rank();
            let ghost k = choose|k: int| 0 <= k < entries(was.buckets@[rank]).len() && (#[trigger] entries(was.buckets@[rank])[k]).0 == child;
            assert(asked(entries(was.buckets@[rank]), child));
            let existing = bucket_shift_remove(&mut self.buckets[old_priority.as_u8() as usize], entry.child).unwrap();
            proof {
                lemma_without_present(entries(was.buckets@[rank]), child, k);
                let s = entries(was.buckets@[rank]);
                let m = choose|m: int| 0 <= m < s.len() && s[m] == (child, existing);
                assert(s[m].0 == s[k].0);
                assert(m == k);
                assert(was.model()[rank][k] == (child, existing));
                assert(was.model()[rank] == s);
            }
            priority = old_priority.raised_to(entry.priority);
            necessary = existing.1 || necessary;
            outcome = PendingEnqueueOutcome::Replaced;
        }
        proof {
            assert forall|r: int| 0 <= r < 4 implies #[trigger] entries(self.buckets@[r]) == without(was.model()[r], child) by {
                let s = entries(was.buckets@[r]);
                assert(was.model()[r] == s);
                if found is Some && r == found->0.rank() {
                } else {
                    assert(self.buckets@[r] == was.buckets@[r]);
                    if asked(s, child) {
                        let k = choose|k: int| 0 <= k < s.len() && (#[trigger] s[k]).0 == child;
                        assert(was.index@.contains_key(s[k].0));
                    }
                    lemma_without_absent(s, child);
                }
            }
        }
        let place: usize = priority.as_u8() as usize;
        proof {
            let s = without(was.model()[place as int], child);
            assert(!asked(s, child)) by {
                lemma_without_none(was.model()[place as int], child);
            }
            assert(entries(self.buckets@[place as int]) == s);
        }
        let ghost removed = self.buckets@;
        bucket_insert(&mut self.buckets[place], entry.child, (entry.parent, necessary));
        self.index.insert(entry.child, priority);
        proof {
            let e = (child, (entry.parent, necessary));
            assert forall|r: int| 0 <= r < 4 implies #[trigger] entries(self.buckets@[r]) == placed(was.model(), place as int, e)[r] by {
                assert(entries(removed[r]) == without(was.model()[r], child));
            }
            assert(self.model() =~= placed(was.model(), place as int, e));
            lemma_placed(was, *self, place as int, e, found);
            if found is None {
                assert(!was.holds(child)) by {
                    if was.holds(child) {
                        let r = choose|r: int| 0 <= r < 4 && asked(#[trigger] was.model()[r], child);
                        let s = was.model()[r];
                        let k = choose|k: int| 0 <= k < s.len() && (#[trigger] s[k]).0 == child;
                        assert(entries(was.buckets@[r])[k].0 == child);
                    }
                }
            } else {
                assert(asked(was.model()[found->0.rank()], child));
            }
        }
        outcome
    }

    /// Takes out the request that is tried first: of the highest priority there is, the one put
    /// down first.
    pub fn pop_front(&mut self) -> (first: Option<PendingRequest>)
        requires
            old(self).wf(),
        ensures
            final(self).wf(),
            first is None <==> total(old(self).model()) == 0,
            first is None ==> final(self).model() == old(self).model(),
            first matches Some(request) ==> {
                let rank = request.priority.rank();
                &&& forall|r: int| rank < r < 4 ==> (#[trigger] old(self).model()[r]).len() == 0
                &&& old(self).model()[rank].len() > 0
                &&& request == request_of(request.priority, old(self).model()[rank][0])
                &&& final(self).model() == old(self).model().update(rank, old(self).model()[rank].drop_first())
            },
    {
        let mut left: usize = 4;
        while left > 0
            invariant
                *self == *old(self),
                self.wf(),
                left <= 4,
                forall|r: int| left <= r < 4 ==> (#[trigger] self.model()[r]).len() == 0,
            decreases left,
        {
            let place: usize = left - 1;
            let ghost s = self.model()[place as int];
            assert(s == entries(self.buckets@[place as int]));
            if let Some(child) = bucket_first(&self.buckets[place]) {
                let priority: PendingPriority = if place == 3 {
                    PendingPriority::RenderCritical
                } else if place == 2 {
                    PendingPriority::LayoutHigh
                } else if place == 1 {
                    PendingPriority::StateNormal
                } else {
                    PendingPriority::BackgroundLow
                };
                let ghost was = *self;
                assert(s[0].0 == child);
                assert(asked(s, child));
                assert(distinct(entries(self.buckets@[place as int])));
                let taken = bucket_shift_remove(&mut self.buckets[place], child).unwrap();
                proof {
                    lemma_without_present(s, child, 0);
                    let m = choose|m: int| 0 <= m < s.len() && s[m] == (child, taken);
                    assert(s[m].0 == s[0].0);
                    assert(m == 0);
                    assert(s.remove(0) =~= s.drop_first());
                    assert(was.index@.contains_key(entries(was.buckets@[place as int])[0].0));
                }
                self.index.remove(&child);
                proof {
                    assert(self.model() =~= was.model().update(place as int, s.drop_first())) by {
                        assert forall|r: int| 0 <= r < 4 implies #[trigger] self.model()[r] == was.model().update(place as int, s.drop_first())[r] by {
                            if r != place {
                                assert(self.buckets@[r] == was.buckets@[r]);
                            }
                        }
                    }
                    lemma_popped(was, *self, place as int);
                }
                return Some(PendingRequest { parent: taken.0, child, necessary: taken.1, priority });
            }
            left = left - 1;
        }
        None
    }

    /// Takes out all requests, in the order in which they are tried.
    pub fn drain_all(&mut self) -> (drained: Vec<PendingRequest>)
        requires
            old(self).wf(),
        ensures
            final(self).wf(),
            drained@ == in_order(old(self).model()),
            total(final(self).model()) == 0,
            forall|m: int, n: int| 0 <= m < n < drained@.len() ==> (#[trigger] drained@[m]).child != (#[trigger] drained@[n]).child,
    {
        proof {
            let all = in_order(self.model());
            assert forall|m: int, n: int| 0 <= m < n < all.len() implies (#[trigger] all[m]).child != (#[trigger] all[n]).child by {
                self.children_come_once(m, n);
            }
        }
        let mut drained: Vec<PendingRequest> = Vec::with_capacity(self.len());
        let ghost whole = in_order(self.model());
        assert(drained@ + in_order(self.model()) =~= whole);
        loop
            invariant
                self.wf(),
                drained@ + in_order(self.model()) == whole,
            ensures
                total(self.model()) == 0,
            decreases total(self.model()),
        {
            let ghost before = self.model();
            let ghost taken = drained@;
            match self.pop_front() {
                Some(request) => {
                    drained.push(request);
                    proof {
                        lemma_in_order_first(before, self.model(), request);
                        assert(drained@ + in_order(self.model()) =~= taken + (seq![request] + in_order(self.model())));
                    }
                },
                None => {
                    break;
                },
            }
        }
        proof {
            assert(in_order(self.model()) =~= Seq::empty());
            assert(drained@ =~= whole);
        }
        drained
    }

    /// Drops all requests.
    pub fn clear(&mut self)
        requires
            old(self).wf(),
        ensures
            final(self).wf(),
            total(final(self).model()) == 0,
    {
        let empty = PendingQueue::new();
        *self = empty;
        assert(self.model()[0].len() == 0 && self.model()[1].len() == 0);
        assert(self.model()[2].len() == 0 && self.model()[3].len() == 0);
    }
}

/// An entry for `child` at the end is dropped with the others.
proof fn lemma_without_pushed(s: Seq<Entry>, e: Entry)
    ensures
        without(s.push(e), e.0) == without(s, e.0),
        without(without(s, e.0), e.0) == without(s, e.0),
{
    reveal(Seq::filter);
    assert(s.push(e).drop_last() =~= s);
    lemma_without_none(s, e.0);
    lemma_without_absent(without(s, e.0), e.0);
}

/// Putting a request down leaves just one for its child: that of the later parent, necessary if either was, of the higher of the
/// two priorities, and after all others of that priority. The requests for other children stay as they are, in their order.
pub proof fn requests_for_a_child_are_merged(
    before: &PendingQueue,
    after: &PendingQueue,
    entry: PendingRequest,
    outcome: PendingEnqueueOutcome,
    rank: int,
    k: int,
)
    requires
        before.wf(),
        after.wf(),
        inserted(before, after, entry, outcome),
        0 <= rank < 4,
        0 <= k < after.model()[rank].len(),
        after.model()[rank][k].0 == entry.child,
    ensures
        after.holds(entry.child),
        k == after.model()[rank].len() - 1,
        after.model()[rank][k].1.0 == entry.parent,
        !before.holds(entry.child) ==> {
            &&& rank == entry.priority.rank()
            &&& after.model()[rank][k].1.1 == entry.necessary
        },
        forall|r: int, l: int|
            0 <= r < 4 && 0 <= l < before.model()[r].len() && (#[trigger] before.model()[r][l]).0 == entry.child ==> {
                &&& rank == if r >= entry.priority.rank() {
                    r
                } else {
                    entry.priority.rank()
                }
                &&& after.model()[rank][k].1.1 == (before.model()[r][l].1.1 || entry.necessary)
            },
        forall|r: int| 0 <= r < 4 ==> without(#[trigger] after.model()[r], entry.child) == without(before.model()[r], entry.child),
{
    let child = entry.child;
    assert(asked(after.model()[rank], child));
    let (at, e): (int, Entry) = if outcome is Inserted {
        (entry.priority.rank(), (child, (entry.parent, entry.necessary)))
    } else {
        let (r, l) = choose|r: int, l: int|
            0 <= r < 4 && 0 <= l < before.model()[r].len() && (#[trigger] before.model()[r][l]).0 == child && after.model() == placed(
                before.model(),
                if r >= entry.priority.rank() {
                    r
                } else {
                    entry.priority.rank()
                },
                (child, (entry.parent, before.model()[r][l].1.1 || entry.necessary)),
            );
        (
            if r >= entry.priority.rank() {
                r
            } else {
                entry.priority.rank()
            },
            (child, (entry.parent, before.model()[r][l].1.1 || entry.necessary)),
        )
    };
    assert(after.model() == placed(before.model(), at, e));
    assert forall|r: int| 0 <= r < 4 implies without(#[trigger] after.model()[r], child) == without(before.model()[r], child) by {
        lemma_without_pushed(before.model()[r], e);
        lemma_without_pushed(without(before.model()[r], child), e);
    }
    lemma_without_none(before.model()[rank], child);
    let rest = without(before.model()[rank], child);
    if k < rest.len() {
        assert(rest[k] == after.model()[rank][k]);
        assert(asked(rest, child));
    }
    assert forall|r: int, l: int|
        0 <= r < 4 && 0 <= l < before.model()[r].len() && (#[trigger] before.model()[r][l]).0 == child implies asked(
        before.model()[r],
        child,
    ) && before.holds(child) by {
        assert(asked(before.model()[r], child));
    }
    if outcome is Replaced {
        assert forall|r: int, l: int, q: int, n: int|
            0 <= r < 4 && 0 <= l < before.model()[r].len() && (#[trigger] before.model()[r][l]).0 == child && 0 <= q < 4 && 0 <= n
                < before.model()[q].len() && (#[trigger] before.model()[q][n]).0 == child implies r == q && l == n by {
            before.children_stand_once(r, l, q, n);
        }
    }
}

/// No request is tried before one of a higher priority.
pub proof fn higher_priorities_come_first(model: Seq<Seq<Entry>>, m: int, n: int)
    requires
        0 <= m < n < in_order(model).len(),
    ensures
        in_order(model)[m].priority.rank() >= in_order(model)[n].priority.rank(),
{
    let (r, k) = place_in(model, m);
    let (s, l) = place_in(model, n);
    assert(in_order(model)[m] == request_of(of_rank(r), model[r][k]));
    assert(in_order(model)[n] == request_of(of_rank(s), model[s][l]));
}

/// What a necessary node asks for comes before what others ask for, and among the requests of one sort what is asked for as
/// necessary comes first.
pub proof fn necessary_requests_are_urgent(request_necessary: bool, parent_is_necessary: bool, other: bool)
    ensures
        PendingPriority::of_request(request_necessary, true).rank() > PendingPriority::of_request(other, false).rank(),
        PendingPriority::of_request(true, parent_is_necessary).rank() > PendingPriority::of_request(false, parent_is_necessary).rank(),
{
}

/// What is tried first comes first among all requests.
proof fn lemma_in_order_first(before: Seq<Seq<Entry>>, after: Seq<Seq<Entry>>, request: PendingRequest)
    requires
        before.len() == 4,
        ({
            let rank = request.priority.rank();
            &&& forall|r: int| rank < r < 4 ==> (#[trigger] before[r]).len() == 0
            &&& before[rank].len() > 0
            &&& request == request_of(request.priority, before[rank][0])
            &&& after == before.update(rank, before[rank].drop_first())
        }),
    ensures
        in_order(before) == seq![request] + in_order(after),
        total(after) + 1 == total(before),
{
    let rank = request.priority.rank();
    assert(of_rank(rank) == request.priority);
    assert forall|r: int| 0 <= r < 4 implies #[trigger] requests(before, r) =~= (if r == rank {
        seq![request] + requests(after, r)
    } else {
        requests(after, r)
    }) by {}
    if rank < 3 {
        assert(before[3].len() == 0);
        assert(requests(before, 3) =~= Seq::empty());
    }
    if rank < 2 {
        assert(before[2].len() == 0);
        assert(requests(before, 2) =~= Seq::empty());
    }
    if rank < 1 {
        assert(before[1].len() == 0);
        assert(requests(before, 1) =~= Seq::empty());
    }
    assert(in_order(before) =~= seq![request] + in_order(after));
}

/// The queue is in order once its first request of some priority has been taken out.
proof fn lemma_popped(was: PendingQueue, now: PendingQueue, place: int)
    requires
        was.wf(),
        0 <= place < 4,
        was.model()[place].len() > 0,
        now.buckets@.len() == 4,
        now.model() == was.model().update(place, was.model()[place].drop_first()),
        now.index@ == was.index@.remove(was.model()[place][0].0),
    ensures
        now.wf(),
{
    let child = was.model()[place][0].0;
    let s = entries(was.buckets@[place]);
    assert(s == was.model()[place]);
    assert(was.index@.contains_key(s[0].0));
    assert(distinct(s));
    assert forall|r: int| 0 <= r < 4 implies #[trigger] entries(now.buckets@[r]) == (if r == place {
        s.drop_first()
    } else {
        entries(was.buckets@[r])
    }) by {
        assert(now.model()[r] == entries(now.buckets@[r]));
        assert(was.model()[r] == entries(was.buckets@[r]));
    }
    assert forall|r: int| 0 <= r < 4 implies distinct(#[trigger] entries(now.buckets@[r])) by {
        assert(distinct(entries(was.buckets@[r])));
        if r == place {
            let w = s.drop_first();
            assert forall|a: int, b: int| 0 <= a < b < w.len() implies (#[trigger] w[a]).0 != (#[trigger] w[b]).0 by {
                assert(s[a + 1].0 != s[b + 1].0);
            }
        }
    }
    assert forall|c: AnchorToken| #[trigger] now.index@.contains_key(c) implies asked(entries(now.buckets@[now.index@[c].rank()]), c) by {
        assert(was.index@.contains_key(c));
        let r = was.index@[c].rank();
        let t = entries(was.buckets@[r]);
        let k = choose|k: int| 0 <= k < t.len() && (#[trigger] t[k]).0 == c;
        if r == place {
            assert(k != 0);
            assert(s.drop_first()[k - 1].0 == c);
        } else {
            assert(entries(now.buckets@[r])[k].0 == c);
        }
    }
    assert forall|r: int, k: int| 0 <= r < 4 && 0 <= k < entries(now.buckets@[r]).len() implies {
        &&& now.index@.contains_key((#[trigger] entries(now.buckets@[r])[k]).0)
        &&& now.index@[entries(now.buckets@[r])[k].0].rank() == r
    } by {
        if r == place {
            assert(s[k + 1].0 != s[0].0);
            assert(entries(now.buckets@[r])[k] == s[k + 1]);
            assert(was.index@.contains_key(s[k + 1].0));
        } else {
            let x = entries(was.buckets@[r])[k];
            assert(was.index@.contains_key(x.0));
            assert(was.index@[x.0].rank() == r);
            assert(was.index@[s[0].0].rank() == place);
        }
    }
}

/// The queue is in order once a request has been put in.
proof fn lemma_placed(was: PendingQueue, now: PendingQueue, place: int, e: Entry, found: Option<PendingPriority>)
    requires
        was.wf(),
        0 <= place < 4,
        now.buckets@.len() == 4,
        forall|r: int| 0 <= r < 4 ==> #[trigger] entries(now.buckets@[r]) == placed(was.model(), place, e)[r],
        found == (if was.index@.contains_key(e.0) {
            Some(was.index@[e.0])
        } else {
            None
        }),
        now.index@.dom() == was.index@.dom().insert(e.0),
        forall|c: AnchorToken| c != e.0 && was.index@.contains_key(c) ==> #[trigger] now.index@[c] == was.index@[c],
        now.index@[e.0].rank() == place,
    ensures
        now.wf(),
{
    let child = e.0;
    assert forall|r: int| 0 <= r < 4 implies {
        &&& #[trigger] without(was.model()[r], child).len() == was.model()[r].len() - (if found is Some && found->0.rank() == r {
            1int
        } else {
            0
        })
        &&& distinct(without(was.model()[r], child))
    } by {
        let s = was.model()[r];
        assert(s == entries(was.buckets@[r]));
        assert(distinct(entries(was.buckets@[r])));
        if asked(s, child) {
            let k = choose|k: int| 0 <= k < s.len() && (#[trigger] s[k]).0 == child;
            assert(was.index@.contains_key(entries(was.buckets@[r])[k].0));
            lemma_without_present(s, child, k);
            let w = s.remove(k);
            assert forall|a: int, b: int| 0 <= a < b < w.len() implies (#[trigger] w[a]).0 != (#[trigger] w[b]).0 by {
                assert(s[if a < k { a } else { a + 1 }].0 != s[if b < k { b } else { b + 1 }].0);
            }
        } else {
            lemma_without_absent(s, child);
            if found is Some && found->0.rank() == r {
                assert(was.index@.contains_key(child));
                assert(asked(entries(was.buckets@[r]), child));
            }
        }
    }
    assert forall|r: int| 0 <= r < 4 implies distinct(#[trigger] entries(now.buckets@[r])) by {
        let w = without(was.model()[r], child);
        lemma_without_none(was.model()[r], child);
        assert(distinct(w));
        if r == place {
            let n = w.push(e);
            assert forall|a: int, b: int| 0 <= a < b < n.len() implies (#[trigger] n[a]).0 != (#[trigger] n[b]).0 by {
                if b == w.len() {
                    assert(w[a].0 != child);
                }
            }
        }
    }
    assert forall|c: AnchorToken| #[trigger] now.index@.contains_key(c) implies asked(entries(now.buckets@[now.index@[c].rank()]), c) by {
        if c == child {
            let n = entries(now.buckets@[place]);
            assert(n[n.len() - 1] == e);
        } else {
            assert(was.index@.contains_key(c));
            let r = was.index@[c].rank();
            let s = entries(was.buckets@[r]);
            assert(was.model()[r] == s);
            let k = choose|k: int| 0 <= k < s.len() && (#[trigger] s[k]).0 == c;
            let w = without(s, child);
            assert(asked(w, c)) by {
                if asked(s, child) {
                    let m = choose|m: int| 0 <= m < s.len() && (#[trigger] s[m]).0 == child;
                    assert(distinct(entries(was.buckets@[r])));
                    lemma_without_present(s, child, m);
                    assert(w[if k < m { k } else { k - 1 }].0 == c);
                } else {
                    lemma_without_absent(s, child);
                    assert(w[k].0 == c);
                }
            }
            let k2 = choose|k2: int| 0 <= k2 < w.len() && (#[trigger] w[k2]).0 == c;
            assert(entries(now.buckets@[r])[k2].0 == c);
        }
    }
    assert forall|r: int, k: int| 0 <= r < 4 && 0 <= k < entries(now.buckets@[r]).len() implies {
        &&& now.index@.contains_key((#[trigger] entries(now.buckets@[r])[k]).0)
        &&& now.index@[entries(now.buckets@[r])[k].0].rank() == r
    } by {
        let s = was.model()[r];
        let w = without(s, child);
        assert(entries(now.buckets@[r]) == placed(was.model(), place, e)[r]);
        lemma_without_none(s, child);
        if k < w.len() {
            let x = w[k];
            assert(x.0 != child);
            assert(s.contains(x));
            let m = choose|m: int| 0 <= m < s.len() && s[m] == x;
            assert(entries(was.buckets@[r])[m] == x);
            assert(was.index@.contains_key(x.0));
        }
    }
    assert(now.model() =~= placed(was.model(), place, e));
    let b0 = without(was.model()[0], child).len();
    let b1 = without(was.model()[1], child).len();
    let b2 = without(was.model()[2], child).len();
    let b3 = without(was.model()[3], child).len();
}

/// Nothing that remains is for `child`.
proof fn lemma_without_none(s: Seq<Entry>, child: AnchorToken)
    ensures
        !asked(without(s, child), child),
        forall|k: int| 0 <= k < without(s, child).len() ==> s.contains(#[trigger] without(s, child)[k]),
    decreases s.len(),
{
    reveal(Seq::filter);
    if s.len() > 0 {
        let t = s.drop_last();
        lemma_without_none(t, child);
        let w = without(s, child);
        assert forall|k: int| 0 <= k < w.len() implies s.contains(#[trigger] w[k]) && w[k].0 != child by {
            if k < without(t, child).len() {
                assert(w[k] == without(t, child)[k]);
                assert(t.contains(w[k]));
                let m = choose|m: int| 0 <= m < t.len() && t[m] == w[k];
                assert(s[m] == w[k]);
            } else {
                assert(w[k] == s.last());
                assert(s[s.len() - 1] == w[k]);
            }
        }
    }
}

} // verus!
