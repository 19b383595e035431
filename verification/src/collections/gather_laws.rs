//! What gatherings show of what they gather, and when they say that it has changed.

use crate::collections::asking::{asked_every, asked_in_turn, lost, tokens_of, turn_calls};
use crate::collections::dynamic_keyed_vector_collect::DynamicKeyedVectorCollect;
use crate::collections::collect::{all_taken, anew, collect_answered, kept, present, taken, targets, Collect, Source};
use crate::collections::ord_map_collect::{
    dict_reading, gone_keys, sought, still_skipped, stream_answered, walk_calls, walked, CollectStream, Listing,
};
use crate::collections::ord_set::OrdSetCollect;
use crate::collections::persistent::{dict_entries, dict_view, set_view, vector_view, Dict};
use crate::collections::sequence::{small_view, Sequence, Small};
use crate::collections::small::SmallVecCollect;
use crate::expert::announcing::{says_updated, Announces};
use crate::expert::ext::then_clone::asked_one;
use crate::expert::var_val_or_anchor::ValOrAnchor;
use crate::expert::{Anchor, AnchorInner, AnchorOutput, AnchorToken, Call, Poll, Reads, UpdateContext};
use im_rc::{OrdSet, Vector};
use vstd::prelude::*;

verus! {

/// Once it has completed a poll, a gathering in a sequence shows one item for each of its sources, in their order: a clone of the
/// value, or of the output of the anchor, that the source is.
pub proof fn sequences_show_their_sources<G: Reads<T>, C: Sequence<T>, T: Clone, I: Source<T>>(
    collect: Collect<C, T, I>,
    outs: Map<AnchorToken, G::V>,
    k: int,
)
    requires
        AnchorInner::<G>::sound(&collect, outs),
        0 <= k < collect.anchors@.len(),
    ensures
        collect.own().items().len() == collect.anchors@.len(),
        match collect.anchors@[k].source() {
            ValOrAnchor::Val(v) => cloned(v, collect.own().items()[k]),
            ValOrAnchor::Anchor(anchor) => outs.contains_key(anchor.token) && cloned(
                G::cast(outs[anchor.token]),
                collect.own().items()[k],
            ),
        },
{
    let item = collect.anchors@[k];
    assert(item.source().target() is Some || item.source() is Val);
}

/// Once it has completed a poll, a small gathering shows the output of each of its anchors, in their order.
pub proof fn small_sequences_show_their_anchors<G: Reads<usize>>(collect: SmallVecCollect, outs: Map<AnchorToken, G::V>, k: int)
    requires
        AnchorInner::<G>::sound(&collect, outs),
        0 <= k < collect.anchors@.len(),
    ensures
        small_view(collect.own()).len() == collect.anchors@.len(),
        outs.contains_key(collect.anchors@[k].token),
        small_view(collect.own())[k] == G::cast(outs[collect.anchors@[k].token]),
{
    assert(tokens_of(collect.anchors@)[k] == collect.anchors@[k].token);
}

/// Once it has completed a poll, a gathering in a set shows just the outputs of its anchors.
pub proof fn sets_show_their_anchors<G: Reads<usize>>(collect: OrdSetCollect, outs: Map<AnchorToken, G::V>, v: usize)
    requires
        AnchorInner::<G>::sound(&collect, outs),
    ensures
        set_view(collect.own()).contains(v) <==> exists|t: AnchorToken| #[trigger]
            set_view(collect.anchors).contains(t) && outs.contains_key(t) && G::cast(outs[t]) == v,
{
}

/// Once it has completed a poll, a gathering in a dictionary shows every key of the dictionary that it gathers by: with the value
/// that stands there, or with the output of the anchor that stands there; and nothing else.
pub proof fn dictionaries_show_their_entries<G: Reads<usize> + Reads<D>, D: Listing>(
    collect: CollectStream<D>,
    outs: Map<AnchorToken, G::V>,
    key: usize,
)
    requires
        AnchorInner::<G>::sound(&collect, outs),
    ensures
        outs.contains_key(collect.input.token),
        ({
            let listing = <G as Reads<D>>::cast(outs[collect.input.token]).listing();
            let shown = dict_view(collect.own());
            &&& shown.contains_key(key) <==> listing.contains_key(key)
            &&& listing.contains_key(key) ==> match listing[key] {
                ValOrAnchor::Val(v) => shown[key] == v,
                ValOrAnchor::Anchor(anchor) => outs.contains_key(anchor.token) && shown[key] == <G as Reads<usize>>::cast(
                    outs[anchor.token],
                ),
            }
        }),
{
}

impl<G: Reads<T>, C: Sequence<T>, T: Clone, I: Source<T>> Announces<G, ()> for Collect<C, T, I> {
    open spec fn moved(&self) -> bool {
        false
    }

    open spec fn like(a: C, b: C) -> bool {
        a.items() == b.items()
    }

    open spec fn takes(&self, later: &Self, val: ()) -> bool {
        false
    }

    proof fn hearing_changes_nothing(&self, later: &Self, edge: AnchorToken) {
    }

    proof fn setting_changes_nothing(&self, later: &Self, val: ()) {
    }

    proof fn polling_announces(&self, later: &Self, before: &G, after: &G, poll: Poll) {
        if poll is Unchanged && self.had() && self.dirty {
            let polls = choose|polls: Seq<Poll>| #[trigger]
                asked_in_turn(before, after, targets::<T, I>(self.anchors@), polls) && collect_answered(*self, *later, after, polls, poll);
            let fresh = choose|fresh: Seq<Option<T>>| #[trigger]
                all_taken::<G, T, I>(self.anchors@, polls, anew(*self, polls), after, fresh) && forall|k: int|
                    0 <= k < fresh.len() ==> later.vals->0.items()[k] == (match #[trigger] fresh[k] {
                        Some(v) => v,
                        None => self.vals->0.items()[k],
                    });
            assert forall|k: int| 0 <= k < fresh.len() implies (#[trigger] fresh[k]) is None by {
                assert(taken::<G, T>(self.anchors@[k].source(), polls[k], false, after, fresh[k]));
                assert(!(polls[k] is Updated));
            }
            assert forall|k: int| 0 <= k < self.own().items().len() implies later.own().items()[k] == self.own().items()[k] by {
                assert(fresh[k] is None);
            }
            assert(later.own().items() =~= self.own().items());
        }
    }
}

impl<G: Reads<usize>> Announces<G, ()> for SmallVecCollect {
    open spec fn moved(&self) -> bool {
        false
    }

    open spec fn like(a: Small, b: Small) -> bool {
        a == b
    }

    open spec fn takes(&self, later: &Self, val: ()) -> bool {
        false
    }

    proof fn hearing_changes_nothing(&self, later: &Self, edge: AnchorToken) {
    }

    proof fn setting_changes_nothing(&self, later: &Self, val: ()) {
    }

    proof fn polling_announces(&self, later: &Self, before: &G, after: &G, poll: Poll) {
    }
}

impl<G: Reads<usize>> Announces<G, ()> for OrdSetCollect {
    open spec fn moved(&self) -> bool {
        false
    }

    open spec fn like(a: OrdSet<usize>, b: OrdSet<usize>) -> bool {
        set_view(a) == set_view(b)
    }

    open spec fn takes(&self, later: &Self, val: ()) -> bool {
        false
    }

    proof fn hearing_changes_nothing(&self, later: &Self, edge: AnchorToken) {
    }

    proof fn setting_changes_nothing(&self, later: &Self, val: ()) {
    }

    proof fn polling_announces(&self, later: &Self, before: &G, after: &G, poll: Poll) {
    }
}

impl<G: Reads<usize> + Reads<D>, D: Listing> Announces<G, ()> for CollectStream<D> {
    open spec fn moved(&self) -> bool {
        false
    }

    open spec fn like(a: Dict, b: Dict) -> bool {
        dict_view(a) == dict_view(b)
    }

    open spec fn takes(&self, later: &Self, val: ()) -> bool {
        false
    }

    proof fn hearing_changes_nothing(&self, later: &Self, edge: AnchorToken) {
    }

    proof fn setting_changes_nothing(&self, later: &Self, val: ()) {
    }

    proof fn polling_announces(&self, later: &Self, before: &G, after: &G, poll: Poll) {
    }
}

impl<G: Reads<Vector<usize>> + Reads<V>, C: Sequence<V>, V: Clone, F: FnMut(&usize) -> Anchor<V>> Announces<G, ()> for DynamicKeyedVectorCollect<
    C,
    V,
    F,
> {
    open spec fn moved(&self) -> bool {
        false
    }

    open spec fn like(a: C, b: C) -> bool {
        a.items() == b.items()
    }

    open spec fn takes(&self, later: &Self, val: ()) -> bool {
        false
    }

    proof fn hearing_changes_nothing(&self, later: &Self, edge: AnchorToken) {
    }

    proof fn setting_changes_nothing(&self, later: &Self, val: ()) {
    }

    proof fn polling_announces(&self, later: &Self, before: &G, after: &G, poll: Poll) {
        if poll is Unchanged && self.had() && later != self {
            let (mid, first) = choose|mid: G, first: Poll| #[trigger]
                asked_one(before, &mid, self.order.token, first) && exists|
                    r: DynamicKeyedVectorCollect<C, V, F>,
                    sorted: G,
                    answered: G,
                    polls: Seq<Poll>,
                |
                    #![trigger asked_every(&sorted, &answered, tokens_of(r.order_anchors@), polls)]
                    {
                        &&& self.reconciled(
                            r,
                            vector_view(<G as Reads<Vector<usize>>>::reading(&mid, self.order.token)->0),
                            &mid,
                            &sorted,
                        )
                        &&& asked_every(&sorted, &answered, tokens_of(r.order_anchors@), polls)
                        &&& r.concluded(*later, &answered, after, polls, poll)
                    };
            let (r, sorted, answered, polls) = choose|
                r: DynamicKeyedVectorCollect<C, V, F>,
                sorted: G,
                answered: G,
                polls: Seq<Poll>,
            |
                #![trigger asked_every(&sorted, &answered, tokens_of(r.order_anchors@), polls)]
                {
                    &&& self.reconciled(r, vector_view(<G as Reads<Vector<usize>>>::reading(&mid, self.order.token)->0), &mid, &sorted)
                    &&& asked_every(&sorted, &answered, tokens_of(r.order_anchors@), polls)
                    &&& r.concluded(*later, &answered, after, polls, poll)
                };
            let fresh = choose|fresh: Seq<Option<V>>| #[trigger]
                all_taken::<G, V, Anchor<V>>(r.order_anchors@, polls, r.anew(polls), &answered, fresh) && later.vals->0.items().len()
                    == r.vals->0.items().len() && forall|k: int|
                    0 <= k < fresh.len() ==> later.vals->0.items()[k] == (match #[trigger] fresh[k] {
                        Some(v) => v,
                        None => r.vals->0.items()[k],
                    });
            assert forall|k: int| 0 <= k < self.own().items().len() implies later.own().items()[k] == self.own().items()[k] by {
                assert(taken::<G, V>(r.order_anchors@[k].source(), polls[k], false, &answered, fresh[k]));
                assert(!(polls[k] is Updated));
                assert(fresh[k] is None);
            }
            assert(later.own().items() =~= self.own().items());
        }
    }
}

/// The places of what is not gone.
proof fn lemma_left<G: Reads<T>, T: Clone, I: Source<T>>(items: Seq<I>, polls: Seq<Poll>, ctx: &G, fresh: Seq<Option<T>>) -> (places: Seq<int>)
    requires
        items.len() <= polls.len(),
        fresh.len() == items.len(),
        forall|k: int| 0 <= k < items.len() ==> taken::<G, T>((#[trigger] items[k]).source(), polls[k], true, ctx, fresh[k]),
        forall|k: int| 0 <= k < items.len() && (#[trigger] items[k]).source().target() is None ==> polls[k] is Unchanged,
    ensures
        forall|m: int, n: int| 0 <= m < n < places.len() ==> #[trigger] places[m] < #[trigger] places[n],
        forall|k: int| 0 <= k < places.len() ==> 0 <= #[trigger] places[k] < items.len(),
        forall|m: int| #[trigger] places.contains(m) <==> 0 <= m < items.len() && !(polls[m] is PendingInvalidToken),
        kept(items, polls).len() == places.len(),
        present(fresh).len() == places.len(),
        forall|k: int| 0 <= k < places.len() ==> kept(items, polls)[k] == items[#[trigger] places[k]],
        forall|k: int|
            0 <= k < places.len() ==> fresh[#[trigger] places[k]] is Some && present(fresh)[k] == fresh[places[k]]->0,
    decreases items.len(),
{
    if items.len() == 0 {
        Seq::empty()
    } else {
        let last = items.len() - 1;
        let fewer = items.drop_last();
        let given = fresh.drop_last();
        assert forall|k: int| 0 <= k < fewer.len() implies taken::<G, T>((#[trigger] fewer[k]).source(), polls[k], true, ctx, given[k]) by {
            assert(taken::<G, T>(items[k].source(), polls[k], true, ctx, fresh[k]));
        }
        assert forall|k: int| 0 <= k < fewer.len() && (#[trigger] fewer[k]).source().target() is None implies polls[k] is Unchanged by {
            assert(items[k].source().target() is None);
        }
        let before = lemma_left::<G, T, I>(fewer, polls, ctx, given);
        assert(taken::<G, T>(items[last].source(), polls[last], true, ctx, fresh[last]));
        assert(items[last].source().target() is None ==> polls[last] is Unchanged);
        if polls[last] is PendingInvalidToken {
            assert forall|k: int| 0 <= k < before.len() implies fresh[#[trigger] before[k]] is Some && present(fresh)[k] == fresh[before[k]]->0
                && kept(items, polls)[k] == items[before[k]] by {
                assert(given[before[k]] is Some);
                assert(fewer[before[k]] == items[before[k]]);
            }
            before
        } else {
            let places = before.push(last);
            assert forall|m: int| #[trigger] places.contains(m) <==> 0 <= m < items.len() && !(polls[m] is PendingInvalidToken) by {
                if places.contains(m) {
                    let k = choose|k: int| 0 <= k < places.len() && places[k] == m;
                    if k < before.len() {
                        assert(before[k] == m);
                        assert(before.contains(m));
                    }
                }
                if before.contains(m) {
                    let k = choose|k: int| 0 <= k < before.len() && before[k] == m;
                    assert(places[k] == m);
                }
                assert(places[before.len() as int] == last);
            }
            assert forall|k: int| 0 <= k < places.len() implies fresh[#[trigger] places[k]] is Some && present(fresh)[k] == fresh[places[k]]->0
                && kept(items, polls)[k] == items[places[k]] by {
                if k < before.len() {
                    assert(before[k] == places[k]);
                    assert(given[before[k]] is Some);
                    assert(fewer[before[k]] == items[before[k]]);
                }
            }
            places
        }
    }
}

/// A poll of a gathering in a sequence that is completed: what is gone is dropped, and everything else stays in its order. What is
/// shown of an anchor is a clone of what is read of it, if it reports a change or something was dropped or nothing was shown before;
/// and otherwise what was shown of it before.
pub proof fn sequences_drop_just_what_is_gone<G: Reads<T>, C: Sequence<T>, T: Clone, I: Source<T>>(
    a: Collect<C, T, I>,
    b: Collect<C, T, I>,
    before: &G,
    after: &G,
    poll: Poll,
) -> (r: (Seq<Poll>, Seq<int>))
    requires
        a.inv(),
        AnchorInner::<G>::polls(&a, &b, before, after, poll),
        a.dirty,
        poll.ready(),
    ensures
        r.0.len() == a.anchors@.len(),
        after.calls() == before.calls() + turn_calls(targets::<T, I>(a.anchors@), r.0),
        forall|m: int, n: int| 0 <= m < n < r.1.len() ==> #[trigger] r.1[m] < #[trigger] r.1[n],
        forall|m: int| #[trigger] r.1.contains(m) <==> 0 <= m < a.anchors@.len() && !(r.0[m] is PendingInvalidToken),
        b.anchors@.len() == r.1.len(),
        b.own().items().len() == r.1.len(),
        forall|k: int|
            0 <= k < r.1.len() ==> {
                let place = #[trigger] r.1[k];
                let anew = r.1.len() < a.anchors@.len() || a.vals is None;
                &&& 0 <= place < a.anchors@.len()
                &&& b.anchors@[k] == a.anchors@[place]
                &&& match a.anchors@[place].source() {
                    ValOrAnchor::Val(v) => if anew {
                        cloned(v, b.own().items()[k])
                    } else {
                        b.own().items()[k] == a.own().items()[place]
                    },
                    ValOrAnchor::Anchor(anchor) => if anew || r.0[place] is Updated {
                        &&& after.reading(anchor.token) is Some
                        &&& cloned(after.reading(anchor.token)->0, b.own().items()[k])
                    } else {
                        b.own().items()[k] == a.own().items()[place]
                    },
                }
            },
{
    let polls = choose|polls: Seq<Poll>| #[trigger]
        asked_in_turn(before, after, targets::<T, I>(a.anchors@), polls) && collect_answered(a, b, after, polls, poll);
    let n = a.anchors@.len() as int;
    let fresh = choose|fresh: Seq<Option<T>>| #[trigger]
        all_taken::<G, T, I>(a.anchors@, polls, anew(a, polls), after, fresh) && if anew(a, polls) {
            &&& b.anchors@ == kept(a.anchors@, polls)
            &&& b.vals->0.items() == present(fresh)
        } else {
            &&& b.anchors == a.anchors
            &&& b.vals->0.items().len() == a.vals->0.items().len()
            &&& forall|k: int|
                0 <= k < fresh.len() ==> b.vals->0.items()[k] == (match #[trigger] fresh[k] {
                    Some(v) => v,
                    None => a.vals->0.items()[k],
                })
        };
    assert forall|k: int| 0 <= k < n implies taken::<G, T>((#[trigger] a.anchors@[k]).source(), polls[k], anew(a, polls), after, fresh[k]) by {
    }
    assert forall|k: int| 0 <= k < n && (#[trigger] a.anchors@[k]).source().target() is None implies polls[k] is Unchanged by {
        assert(targets::<T, I>(a.anchors@)[k] is None);
    }
    if anew(a, polls) {
        let places = lemma_left::<G, T, I>(a.anchors@, polls, after, fresh);
        if !lost(polls) {
            assert(a.vals is None);
        } else {
            let gone = choose|k: int| 0 <= k < polls.len() && (#[trigger] polls[k]) is PendingInvalidToken;
            assert(!places.contains(gone));
            if places.len() >= n {
                lemma_all_places(places, n, gone);
            }
        }
        assert forall|k: int| 0 <= k < places.len() implies {
            let place = #[trigger] places[k];
            taken::<G, T>(a.anchors@[place].source(), polls[place], true, after, fresh[place]) && !(polls[place] is PendingInvalidToken)
        } by {
            assert(places.contains(places[k]));
        }
        (polls, places)
    } else {
        let places = Seq::new(n as nat, |k: int| k);
        assert forall|m: int| #[trigger] places.contains(m) <==> 0 <= m < n && !(polls[m] is PendingInvalidToken) by {
            if 0 <= m < n {
                assert(places[m] == m);
                assert(!(polls[m] is PendingInvalidToken));
            }
        }
        assert forall|k: int| 0 <= k < places.len() implies taken::<G, T>(
            a.anchors@[#[trigger] places[k]].source(),
            polls[k],
            false,
            after,
            fresh[k],
        ) by {
        }
        (polls, places)
    }
}

/// Ascending places below `n` that leave one out are fewer than `n`.
proof fn lemma_all_places(places: Seq<int>, n: int, gone: int)
    requires
        0 <= gone < n,
        places.len() >= n,
        forall|k: int, l: int| 0 <= k < l < places.len() ==> #[trigger] places[k] < #[trigger] places[l],
        forall|k: int| 0 <= k < places.len() ==> 0 <= #[trigger] places[k] < n,
    ensures
        places.contains(gone),
{
    lemma_at_least(places, n, gone);
    lemma_at_most(places, n, gone);
    assert(places[gone] == gone);
}

proof fn lemma_at_least(places: Seq<int>, n: int, k: int)
    requires
        0 <= k < n <= places.len(),
        forall|k: int, l: int| 0 <= k < l < places.len() ==> #[trigger] places[k] < #[trigger] places[l],
        forall|k: int| 0 <= k < places.len() ==> 0 <= #[trigger] places[k] < n,
    ensures
        places[k] >= k,
    decreases k,
{
    if k > 0 {
        lemma_at_least(places, n, k - 1);
        assert(places[k - 1] < places[k]);
    }
}

proof fn lemma_at_most(places: Seq<int>, n: int, k: int)
    requires
        0 <= k < n <= places.len(),
        forall|k: int, l: int| 0 <= k < l < places.len() ==> #[trigger] places[k] < #[trigger] places[l],
        forall|k: int| 0 <= k < places.len() ==> 0 <= #[trigger] places[k] < n,
    ensures
        places[k] <= k,
    decreases n - k,
{
    if k < n - 1 {
        lemma_at_most(places, n, k + 1);
        assert(places[k] < places[k + 1]);
    }
}

/// A poll of a gathering in a dictionary that answers `Updated` shows every key of the dictionary that it reads, but for those whose
/// anchors are gone: with the value that stands there, or with what is read of the anchor that stands there.
pub proof fn dictionaries_leave_out_what_is_gone<G: Reads<usize> + Reads<D>, D: Listing>(
    a: CollectStream<D>,
    b: CollectStream<D>,
    before: &G,
    after: &G,
    poll: Poll,
    key: usize,
)
    requires
        AnchorInner::<G>::polls(&a, &b, before, after, poll),
        poll is Updated,
    ensures
        <G as Reads<D>>::reading(after, a.input.token) is Some,
        ({
            let listing = <G as Reads<D>>::reading(after, a.input.token)->0.listing();
            let shown = dict_view(b.own());
            &&& shown.contains_key(key) <==> listing.contains_key(key) && !b.invalid_keys@.contains(key)
            &&& shown.contains_key(key) ==> match listing[key] {
                ValOrAnchor::Val(v) => shown[key] == v,
                ValOrAnchor::Anchor(anchor) => shown[key] == <G as Reads<usize>>::reading(after, anchor.token)->0,
            }
        }),
{
    let (mid, first) = choose|mid: G, first: Poll| #[trigger]
        asked_one(before, &mid, a.input.token, first) && <G as Reads<D>>::reading(&mid, a.input.token) is Some && mid.evolves(after) && {
            let listing = <G as Reads<D>>::reading(&mid, a.input.token)->0.listing();
            b.vals is Some && dict_view(b.vals->0) == dict_reading(listing, b.invalid_keys@, after)
        };
    <G as Reads<D>>::reading_kept(&mid, after, a.input.token);
}

/// A gathering in a sequence shows the same items after a poll as before, unless it answers `Updated`.
pub proof fn sequences_announce_their_changes<G: Reads<T>, C: Sequence<T>, T: Clone, I: Source<T>>(
    a: Collect<C, T, I>,
    b: Collect<C, T, I>,
    before: &G,
    after: &G,
    poll: Poll,
)
    requires
        a.inv(),
        before.valid(),
        AnchorInner::<G>::holds(&a, before.told()),
        AnchorInner::<G>::polls(&a, &b, before, after, poll),
        !after.degraded(),
        a.vals is Some,
        !(poll is Updated),
    ensures
        b.vals is Some,
        b.own().items() == a.own().items(),
{
    Announces::<G, ()>::polling_announces(&a, &b, before, after, poll);
}

/// A small gathering shows the same items after a poll as before, unless it answers `Updated`.
pub proof fn small_sequences_announce_their_changes<G: Reads<usize>>(
    a: SmallVecCollect,
    b: SmallVecCollect,
    before: &G,
    after: &G,
    poll: Poll,
)
    requires
        a.inv(),
        before.valid(),
        AnchorInner::<G>::holds(&a, before.told()),
        AnchorInner::<G>::polls(&a, &b, before, after, poll),
        !after.degraded(),
        a.vals is Some,
        !(poll is Updated),
    ensures
        b.vals is Some,
        small_view(b.own()) == small_view(a.own()),
{
    Announces::<G, ()>::polling_announces(&a, &b, before, after, poll);
}

/// A gathering in a set shows the same set after a poll as before, unless it answers `Updated`.
pub proof fn sets_announce_their_changes<G: Reads<usize>>(
    a: OrdSetCollect,
    b: OrdSetCollect,
    before: &G,
    after: &G,
    poll: Poll,
)
    requires
        a.inv(),
        before.valid(),
        AnchorInner::<G>::holds(&a, before.told()),
        AnchorInner::<G>::polls(&a, &b, before, after, poll),
        !after.degraded(),
        a.vals is Some,
        !(poll is Updated),
    ensures
        b.vals is Some,
        set_view(b.own()) == set_view(a.own()),
{
    Announces::<G, ()>::polling_announces(&a, &b, before, after, poll);
}

/// A gathering in a dictionary shows the same entries after a poll as before, unless it answers `Updated`.
pub proof fn dictionaries_announce_their_changes<G: Reads<usize> + Reads<D>, D: Listing>(
    a: CollectStream<D>,
    b: CollectStream<D>,
    before: &G,
    after: &G,
    poll: Poll,
)
    requires
        a.inv(),
        before.valid(),
        AnchorInner::<G>::holds(&a, before.told()),
        AnchorInner::<G>::polls(&a, &b, before, after, poll),
        !after.degraded(),
        a.vals is Some,
        !(poll is Updated),
    ensures
        b.vals is Some,
        dict_view(b.own()) == dict_view(a.own()),
{
    Announces::<G, ()>::polling_announces(&a, &b, before, after, poll);
}

/// A gathering by keys shows the same items after a poll as before, unless it answers `Updated`.
pub proof fn keyed_sequences_announce_their_changes<G: Reads<Vector<usize>> + Reads<V>, C: Sequence<V>, V: Clone, F: FnMut(&usize) -> Anchor<V>>(
    a: DynamicKeyedVectorCollect<C, V, F>,
    b: DynamicKeyedVectorCollect<C, V, F>,
    before: &G,
    after: &G,
    poll: Poll,
)
    requires
        a.inv(),
        before.valid(),
        AnchorInner::<G>::holds(&a, before.told()),
        AnchorInner::<G>::polls(&a, &b, before, after, poll),
        !after.degraded(),
        a.vals is Some,
        !(poll is Updated),
    ensures
        b.vals is Some,
        b.own().items() == a.own().items(),
{
    Announces::<G, ()>::polling_announces(&a, &b, before, after, poll);
}

/// Between the two contexts, `token` was asked for and found to be gone.
pub open spec fn found_gone<G: UpdateContext>(before: &G, after: &G, token: AnchorToken) -> bool {
    exists|m: int|
        before.calls().len() <= m < after.calls().len() && #[trigger] after.calls()[m] == (Call::Request {
            token,
            necessary: true,
            poll: Poll::PendingInvalidToken,
        })
}

proof fn lemma_walk_call(entries: Seq<(usize, ValOrAnchor<usize>)>, skip: Set<usize>, polls: Seq<Poll>, k: int) -> (m: int)
    requires
        0 <= k < polls.len(),
        sought(entries[k], skip) is Some,
    ensures
        0 <= m < walk_calls(entries, skip, polls).len(),
        walk_calls(entries, skip, polls)[m] == (Call::Request {
            token: sought(entries[k], skip)->0,
            necessary: true,
            poll: polls[k],
        }),
    decreases polls.len(),
{
    let fewer = polls.drop_last();
    if k == polls.len() - 1 {
        walk_calls(entries, skip, fewer).len() as int
    } else {
        assert(fewer[k] == polls[k]);
        lemma_walk_call(entries, skip, fewer, k)
    }
}

proof fn lemma_gone_key(entries: Seq<(usize, ValOrAnchor<usize>)>, polls: Seq<Poll>, key: usize) -> (k: int)
    requires
        gone_keys(entries, polls).contains(key),
    ensures
        0 <= k < polls.len(),
        entries[k].0 == key,
        polls[k] is PendingInvalidToken,
    decreases polls.len(),
{
    let fewer = polls.drop_last();
    if polls.last() is PendingInvalidToken && entries[polls.len() - 1].0 == key {
        polls.len() - 1
    } else {
        let k = lemma_gone_key(entries, fewer, key);
        assert(fewer[k] == polls[k]);
        k
    }
}

/// A gathering in a dictionary skips a key only if the anchor that stands there was found to be gone: in this poll, or earlier and the
/// dictionary that it gathers by has not changed since.
pub proof fn dictionaries_skip_only_what_is_gone<G: Reads<usize> + Reads<D>, D: Listing>(
    a: CollectStream<D>,
    b: CollectStream<D>,
    before: &G,
    after: &G,
    poll: Poll,
    key: usize,
)
    requires
        AnchorInner::<G>::polls(&a, &b, before, after, poll),
        b.invalid_keys@.contains(key),
        poll is Updated,
    ensures
        ({
            let listing = <G as Reads<D>>::reading(after, a.input.token)->0.listing();
            ||| a.invalid_keys@.contains(key) && !says_updated(after.calls()[before.calls().len() as int], a.input.token)
            ||| listing.contains_key(key) && listing[key].target() is Some && found_gone(before, after, listing[key].target()->0)
        }),
{
    let (mid, first) = choose|mid: G, first: Poll| #[trigger]
        asked_one(before, &mid, a.input.token, first) && <G as Reads<D>>::reading(&mid, a.input.token) is Some && {
            let listing = <G as Reads<D>>::reading(&mid, a.input.token)->0.listing();
            exists|entries: Seq<(usize, ValOrAnchor<usize>)>, polls: Seq<Poll>|
                #![trigger walked(&mid, after, entries, still_skipped(a, first), polls)]
                dict_entries(listing, entries) && polls.len() == entries.len() && walked(
                    &mid,
                    after,
                    entries,
                    still_skipped(a, first),
                    polls,
                ) && stream_answered(a, b, after, listing, entries, still_skipped(a, first), polls, poll)
        };
    let listing = <G as Reads<D>>::reading(&mid, a.input.token)->0.listing();
    let skip = still_skipped(a, first);
    let (entries, polls) = choose|entries: Seq<(usize, ValOrAnchor<usize>)>, polls: Seq<Poll>|
        #![trigger walked(&mid, after, entries, skip, polls)]
        dict_entries(listing, entries) && polls.len() == entries.len() && walked(&mid, after, entries, skip, polls) && stream_answered(
            a,
            b,
            after,
            listing,
            entries,
            skip,
            polls,
            poll,
        );
    <G as Reads<D>>::reading_kept(&mid, after, a.input.token);
    if gone_keys(entries, polls).contains(key) {
        let k = lemma_gone_key(entries, polls, key);
        assert(sought(entries[k], skip) is Some);
        let m = lemma_walk_call(entries, skip, polls, k);
        let n = mid.calls().len() + m;
        assert(after.calls()[n] == walk_calls(entries, skip, polls)[m]);
        assert(listing.contains_key(key) && listing[key] == entries[k].1);
        assert(found_gone(before, after, listing[key].target()->0));
    } else {
        assert(skip.contains(key));
        assert(!(first is Updated));
        assert(after.calls()[before.calls().len() as int] == mid.calls()[before.calls().len() as int]);
    }
}

/// A gathering in a set answers `Updated` only if it shows another set than before.
pub proof fn sets_announce_only_changes<G: Reads<usize>>(a: OrdSetCollect, b: OrdSetCollect, before: &G, after: &G, poll: Poll)
    requires
        AnchorInner::<G>::polls(&a, &b, before, after, poll),
        a.vals is Some,
        poll is Updated,
    ensures
        set_view(b.own()) != set_view(a.own()),
{
}

/// A gathering in a dictionary answers `Updated` only if it has heard of a change, or the dictionary that it gathers by says that it has
/// changed.
pub proof fn dictionaries_announce_only_changes<G: Reads<usize> + Reads<D>, D: Listing>(
    a: CollectStream<D>,
    b: CollectStream<D>,
    before: &G,
    after: &G,
    poll: Poll,
)
    requires
        AnchorInner::<G>::polls(&a, &b, before, after, poll),
        poll is Updated,
    ensures
        a.dirty || says_updated(after.calls()[before.calls().len() as int], a.input.token),
{
}

/// A gathering in a sequence that shows something answers `Updated` only if one of its anchors reports a change or is gone.
pub proof fn sequences_announce_only_changes<G: Reads<T>, C: Sequence<T>, T: Clone, I: Source<T>>(
    a: Collect<C, T, I>,
    b: Collect<C, T, I>,
    before: &G,
    after: &G,
    poll: Poll,
) -> (r: (Seq<Poll>, int))
    requires
        a.inv(),
        AnchorInner::<G>::polls(&a, &b, before, after, poll),
        a.vals is Some,
        poll is Updated,
    ensures
        after.calls() == before.calls() + turn_calls(targets::<T, I>(a.anchors@), r.0),
        0 <= r.1 < r.0.len() <= a.anchors@.len(),
        r.0[r.1] is Updated || r.0[r.1] is PendingInvalidToken,
{
    let polls = choose|polls: Seq<Poll>| #[trigger]
        asked_in_turn(before, after, targets::<T, I>(a.anchors@), polls) && collect_answered(a, b, after, polls, poll);
    let k = choose|k: int| 0 <= k < polls.len() && ((#[trigger] polls[k]) is Updated || polls[k] is PendingInvalidToken);
    (polls, k)
}

} // verus!
