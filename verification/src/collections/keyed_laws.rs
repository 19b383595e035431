//! What a gathering by keys shows over any series of polls.

use crate::collections::asking::{asked_every, awaiting, lost, tokens_of};
use crate::collections::collect::{all_taken, kept, taken, Source};
use crate::collections::dynamic_keyed_vector_collect::{
    emptied, keyed_step, lemma_kept_whole, lost_keys, made, released, survivors_are_shown, usable, DynamicKeyedVectorCollect,
};
use crate::collections::persistent::vector_view;
use crate::collections::sequence::Sequence;
use crate::expert::ext::then_clone::asked_one;
use crate::expert::{Anchor, AnchorOutput, AnchorToken, Call, Poll, Reads, UpdateContext};
use im_rc::Vector;
use vstd::prelude::*;

verus! {

/// One poll of a gathering: `a` becomes `b` while the context goes from `before` to `after`.
pub ghost struct KeyedPoll<G, C, V, F> {
    pub a: DynamicKeyedVectorCollect<C, V, F>,
    pub b: DynamicKeyedVectorCollect<C, V, F>,
    pub before: G,
    pub after: G,
    pub poll: Poll,
}

impl<G: Reads<Vector<usize>> + Reads<V>, C: Sequence<V>, V: Clone, F: FnMut(&usize) -> Anchor<V>> KeyedPoll<G, C, V, F> {
    /// The poll made of the gathering what a poll makes of one.
    pub open spec fn happened(self) -> bool {
        &&& self.a.inv()
        &&& self.b.inv()
        &&& keyed_step::<G, C, V, F>(self.a, self.b, &self.before, &self.after, self.poll)
    }

    /// What could be read of `token` in this poll.
    pub open spec fn child(self, token: AnchorToken) -> Option<V> {
        <G as Reads<V>>::reading(&self.after, token)
    }

    /// The keys in order, if they could be read in this poll.
    pub open spec fn keys(self) -> Option<Vector<usize>> {
        <G as Reads<Vector<usize>>>::reading(&self.after, self.a.order.token)
    }

    /// Call `m` of the context was a request of this poll for `token`, answered by `poll`.
    pub open spec fn asked(self, m: int, token: AnchorToken, poll: Poll) -> bool {
        &&& self.before.calls().len() <= m < self.after.calls().len()
        &&& self.after.calls()[m] == (Call::Request { token, necessary: true, poll })
    }

    /// What was found to be gone cannot be read, and is found to be gone whenever it is asked for.
    pub open spec fn gone_is_gone(self) -> bool {
        forall|m: int, token: AnchorToken| #[trigger]
            self.asked(m, token, Poll::PendingInvalidToken) ==> {
                &&& token == self.a.order.token ==> self.keys() is None
                &&& forall|n: int, poll: Poll| #[trigger] self.asked(n, token, poll) ==> poll is PendingInvalidToken
            }
    }

    /// What answers `Unchanged` reads as it did in `earlier`, the last poll that was completed, and so does what was given
    /// then if the gathering has heard of no change since.
    pub open spec fn unchanged_since(self, earlier: Self) -> bool {
        &&& forall|m: int, token: AnchorToken| #[trigger]
            self.asked(m, token, Poll::Unchanged) ==> self.child(token) == earlier.child(token) && (token == self.a.order.token
                ==> self.keys() == earlier.keys())
        &&& !self.a.dirty ==> forall|k: int|
            0 <= k < self.a.order_anchors@.len() ==> self.child((#[trigger] self.a.order_anchors@[k]).token) == earlier.child(
                self.a.order_anchors@[k].token,
            )
    }

    /// The gathering shows a clone of what is read of every anchor in use, in order, and where the keys can be read these
    /// are the anchors of the keys that were never lost.
    pub open spec fn shows(self) -> bool {
        &&& self.b.vals is Some
        &&& self.b.vals->0.items().len() == self.b.order_anchors@.len()
        &&& forall|k: int|
            0 <= k < self.b.order_anchors@.len() ==> cloned(
                self.child((#[trigger] self.b.order_anchors@[k]).token)->0,
                self.b.vals->0.items()[k],
            )
        &&& self.keys() is Some ==> self.b.order_keys@ == usable(vector_view(self.keys()->0), self.b.invalid_keys@)
    }
}

/// The last poll before poll `k` that was completed, or -1.
pub open spec fn completed_before<G, C, V, F>(run: Seq<KeyedPoll<G, C, V, F>>, k: int) -> int
    decreases k,
{
    if k <= 0 {
        -1
    } else if run[k - 1].poll.ready() {
        k - 1
    } else {
        completed_before(run, k - 1)
    }
}

/// Poll `k` of a series: the gathering is as the poll before left it, but may have heard of a change.
pub open spec fn keyed_turn<G: Reads<Vector<usize>> + Reads<V>, C: Sequence<V>, V: Clone, F: FnMut(&usize) -> Anchor<V>>(
    run: Seq<KeyedPoll<G, C, V, F>>,
    k: int,
) -> bool {
    let j = completed_before(run, k);
    &&& run[k].happened()
    &&& run[k].gone_is_gone()
    &&& k > 0 ==> run[k].a == run[k - 1].b || run[k].a == (DynamicKeyedVectorCollect { dirty: true, ..run[k - 1].b })
    &&& k == 0 ==> run[k].a.vals is None
    &&& if j >= 0 {
        run[k].unchanged_since(run[j])
    } else {
        forall|m: int, token: AnchorToken| !(#[trigger] run[k].asked(m, token, Poll::Unchanged))
    }
}

/// A series of polls of a gathering that begins with a new one. An anchor that answers `Unchanged` has the output that it
/// had in the last poll that was completed.
pub open spec fn keyed_series<G: Reads<Vector<usize>> + Reads<V>, C: Sequence<V>, V: Clone, F: FnMut(&usize) -> Anchor<V>>(
    run: Seq<KeyedPoll<G, C, V, F>>,
) -> bool {
    forall|k: int| 0 <= k < run.len() ==> #[trigger] keyed_turn(run, k)
}

/// What holds of a gathering between polls: nothing is shown that was not shown by the last poll that was completed, and
/// what is in use is what was in use then unless it has been reordered.
spec fn carries_on<G: Reads<Vector<usize>> + Reads<V>, C: Sequence<V>, V: Clone, F: FnMut(&usize) -> Anchor<V>>(
    run: Seq<KeyedPoll<G, C, V, F>>,
    k: int,
    x: DynamicKeyedVectorCollect<C, V, F>,
) -> bool {
    let j = completed_before(run, k);
    if j >= 0 {
        &&& 0 <= j < k
        &&& run[j].shows()
        &&& x.vals == run[j].b.vals
        &&& x.order == run[j].b.order
        &&& run[j].a.order == run[j].b.order
        &&& !x.reordered ==> x.order_anchors@ == run[j].b.order_anchors@
        &&& !x.dirty ==> x.order_keys@ == run[j].b.order_keys@ && x.invalid_keys@ == run[j].b.invalid_keys@
    } else {
        x.vals is None
    }
}

proof fn lemma_kept_usable(keys: Seq<usize>, polls: Seq<Poll>, gone: Set<usize>)
    requires
        keys.len() <= polls.len(),
        forall|k: int| 0 <= k < keys.len() ==> (polls[k] is PendingInvalidToken <==> gone.contains(#[trigger] keys[k])),
    ensures
        kept(keys, polls) == usable(keys, gone),
    decreases keys.len(),
{
    if keys.len() > 0 {
        let fewer = keys.drop_last();
        assert forall|k: int| 0 <= k < fewer.len() implies (polls[k] is PendingInvalidToken <==> gone.contains(#[trigger] fewer[k])) by {
            assert(fewer[k] == keys[k]);
        }
        lemma_kept_usable(fewer, polls, gone);
        assert(polls[keys.len() - 1] is PendingInvalidToken <==> gone.contains(keys[keys.len() - 1]));
    }
}

proof fn lemma_usable_twice(order: Seq<usize>, a: Set<usize>, b: Set<usize>)
    ensures
        usable(usable(order, a), b) == usable(order, a + b),
    decreases order.len(),
{
    if order.len() > 0 {
        lemma_usable_twice(order.drop_last(), a, b);
        let rest = usable(order.drop_last(), a);
        if !a.contains(order.last()) {
            assert(rest.push(order.last()).drop_last() =~= rest);
        }
    }
}

/// What a poll that takes up the order makes of a gathering.
proof fn lemma_taken_up<G: Reads<Vector<usize>> + Reads<V>, C: Sequence<V>, V: Clone, F: FnMut(&usize) -> Anchor<V>>(
    run: Seq<KeyedPoll<G, C, V, F>>,
    k: int,
    mid: G,
    first: Poll,
    r: DynamicKeyedVectorCollect<C, V, F>,
    sorted: G,
    answered: G,
    polls: Seq<Poll>,
)
    requires
        keyed_series(run),
        0 <= k < run.len(),
        carries_on(run, k, run[k].a),
        asked_one(&run[k].before, &mid, run[k].a.order.token, first),
        first.ready(),
        <G as Reads<Vector<usize>>>::reading(&mid, run[k].a.order.token) is Some,
        run[k].a.reconciled(
            r,
            vector_view(<G as Reads<Vector<usize>>>::reading(&mid, run[k].a.order.token)->0),
            &mid,
            &sorted,
        ),
        asked_every(&sorted, &answered, tokens_of(r.order_anchors@), polls),
        r.concluded(run[k].b, &answered, &run[k].after, polls, run[k].poll),
    ensures
        run[k].poll.ready() ==> run[k].shows(),
        !run[k].poll.ready() ==> run[k].b.dirty && run[k].b.vals == run[k].a.vals && (!run[k].b.reordered ==> run[k].b.order_anchors@
            == run[k].a.order_anchors@ && !run[k].a.reordered),
{
    let p = run[k];
    let a = p.a;
    let b = p.b;
    let j = completed_before(run, k);
    assert(keyed_turn(run, k));
    let tokens = tokens_of(r.order_anchors@);
    let start = sorted.calls().len() as int;
    sorted.evolves_transitive(&answered, &p.after);
    mid.evolves_transitive(&sorted, &p.after);
    <G as Reads<Vector<usize>>>::reading_kept(&mid, &p.after, a.order.token);
    assert forall|m: int| 0 <= m < polls.len() implies p.asked(start + m, #[trigger] tokens[m], polls[m]) by {
        assert(answered.calls()[start + m] == (Call::Request { token: tokens[m], necessary: true, poll: polls[m] }));
        assert(p.after.calls()[start + m] == answered.calls()[start + m]);
    }
    assert forall|m: int| 0 <= m < r.order_anchors@.len() implies <G as Reads<V>>::reading(&answered, (#[trigger] r.order_anchors@[m]).token)
        == p.child(r.order_anchors@[m].token) by {
        <G as Reads<V>>::reading_kept(&answered, &p.after, r.order_anchors@[m].token);
    }
    let gone = lost_keys(r.order_keys@, polls, 0);
    assert forall|m: int| 0 <= m < r.order_keys@.len() implies (polls[m] is PendingInvalidToken <==> gone.contains(#[trigger] r.order_keys@[m])) by {
        if gone.contains(r.order_keys@[m]) {
            let n = choose|n: int| 0 <= n < polls.len() && (#[trigger] polls[n]) is PendingInvalidToken && r.order_keys@[n] == r.order_keys@[m];
            assert(r.cache@.contains_key(r.order_keys@[m])) by {
                assert(r.order_keys@.contains(r.order_keys@[m]));
            }
            assert(r.order_anchors@[n].token == r.order_anchors@[m].token);
            assert(tokens[n] == tokens[m]);
            assert(p.asked(start + n, tokens[n], polls[n]));
            assert(p.asked(start + m, tokens[m], polls[m]));
        }
    }
    lemma_kept_usable(r.order_keys@, polls, gone);
    lemma_usable_twice(vector_view(p.keys()->0), a.invalid_keys@, gone);
    if !lost(polls) {
        lemma_kept_whole(r.order_anchors@, polls);
        lemma_kept_whole(r.order_keys@, polls);
    }
    if p.poll.ready() {
        if r.anew(polls) {
            survivors_are_shown::<G, C, V, F>(r, b, &answered, &p.after, polls, p.poll);
            assert forall|m: int| 0 <= m < b.order_anchors@.len() implies cloned(
                p.child((#[trigger] b.order_anchors@[m]).token)->0,
                b.vals->0.items()[m],
            ) by {
                <G as Reads<V>>::reading_kept(&answered, &p.after, b.order_anchors@[m].token);
            }
        } else {
            assert(j >= 0);
            let fresh = choose|fresh: Seq<Option<V>>| #[trigger]
                all_taken::<G, V, Anchor<V>>(r.order_anchors@, polls, false, &answered, fresh) && {
                    &&& b.vals->0.items().len() == r.vals->0.items().len()
                    &&& forall|m: int|
                        0 <= m < fresh.len() ==> b.vals->0.items()[m] == (match #[trigger] fresh[m] {
                            Some(v) => v,
                            None => r.vals->0.items()[m],
                        })
                };
            assert(run[j].shows());
            assert forall|m: int| 0 <= m < b.order_anchors@.len() implies cloned(
                p.child((#[trigger] b.order_anchors@[m]).token)->0,
                b.vals->0.items()[m],
            ) by {
                let t = r.order_anchors@[m].token;
                assert(taken::<G, V>(r.order_anchors@[m].source(), polls[m], false, &answered, fresh[m]));
                assert(tokens[m] == t);
                assert(p.asked(start + m, tokens[m], polls[m]));
                assert(b.vals->0.items()[m] == (match fresh[m] {
                    Some(v) => v,
                    None => r.vals->0.items()[m],
                }));
                if !(polls[m] is Updated) {
                    assert(!polls[m].waiting()) by {
                        assert(!awaiting(polls));
                    }
                    assert(polls[m] is Unchanged) by {
                        assert(!lost(polls));
                    }
                    assert(run[j].b.order_anchors@[m].token == t);
                }
            }
        }
    }
}

proof fn lemma_carries_on<G: Reads<Vector<usize>> + Reads<V>, C: Sequence<V>, V: Clone, F: FnMut(&usize) -> Anchor<V>>(
    run: Seq<KeyedPoll<G, C, V, F>>,
    k: int,
)
    requires
        keyed_series(run),
        0 <= k <= run.len(),
    ensures
        k < run.len() ==> carries_on(run, k, run[k].a),
        k > 0 ==> carries_on(run, k, run[k - 1].b),
    decreases k,
{
    if k < run.len() {
        assert(keyed_turn(run, k));
    }
    if k > 0 {
        lemma_carries_on(run, k - 1);
        assert(keyed_turn(run, k - 1));
        let p = run[k - 1];
        let j = completed_before(run, k - 1);
        let (mid, first) = choose|mid: G, first: Poll| #[trigger]
            asked_one(&p.before, &mid, p.a.order.token, first) && if first.waiting() {
                p.b == p.a && p.after == mid && p.poll is Pending
            } else if first is PendingInvalidToken {
                emptied(p.a, p.b, &mid, &p.after) && p.poll is Updated
            } else if first is Unchanged && !p.a.dirty {
                p.b == p.a && p.after == mid && p.poll is Unchanged
            } else if <G as Reads<Vector<usize>>>::reading(&mid, p.a.order.token) is None {
                p.b == (DynamicKeyedVectorCollect { dirty: true, ..p.a }) && p.after == mid && p.poll is PendingInvalidToken
            } else {
                exists|r: DynamicKeyedVectorCollect<C, V, F>, sorted: G, answered: G, polls: Seq<Poll>|
                    #![trigger asked_every(&sorted, &answered, tokens_of(r.order_anchors@), polls)]
                    {
                        &&& p.a.reconciled(
                            r,
                            vector_view(<G as Reads<Vector<usize>>>::reading(&mid, p.a.order.token)->0),
                            &mid,
                            &sorted,
                        )
                        &&& asked_every(&sorted, &answered, tokens_of(r.order_anchors@), polls)
                        &&& r.concluded(p.b, &answered, &p.after, polls, p.poll)
                    }
            };
        let n = p.before.calls().len() as int;
        if first.waiting() {
        } else if first is PendingInvalidToken {
            assert(p.asked(n, p.a.order.token, first));
        } else if first is Unchanged && !p.a.dirty {
            assert(p.asked(n, p.a.order.token, first));
            assert(j >= 0);
            assert(p.shows());
        } else if <G as Reads<Vector<usize>>>::reading(&mid, p.a.order.token) is None {
        } else {
            let (r, sorted, answered, polls) = choose|r: DynamicKeyedVectorCollect<C, V, F>, sorted: G, answered: G, polls: Seq<Poll>|
                #![trigger asked_every(&sorted, &answered, tokens_of(r.order_anchors@), polls)]
                {
                    &&& p.a.reconciled(
                        r,
                        vector_view(<G as Reads<Vector<usize>>>::reading(&mid, p.a.order.token)->0),
                        &mid,
                        &sorted,
                    )
                    &&& asked_every(&sorted, &answered, tokens_of(r.order_anchors@), polls)
                    &&& r.concluded(p.b, &answered, &p.after, polls, p.poll)
                };
            lemma_taken_up(run, k - 1, mid, first, r, sorted, answered, polls);
        }
    }
}

/// Over any series of polls, a gathering that has completed one shows a clone of what is read of the anchor of every key, in
/// the order of the keys as they are read, without the keys that were ever lost.
pub proof fn gatherings_show_their_keys<G: Reads<Vector<usize>> + Reads<V>, C: Sequence<V>, V: Clone, F: FnMut(&usize) -> Anchor<V>>(
    run: Seq<KeyedPoll<G, C, V, F>>,
    n: int,
)
    requires
        keyed_series(run),
        0 <= n < run.len(),
        run[n].poll.ready(),
    ensures
        run[n].shows(),
        run[n].b.order_keys@.len() == run[n].b.order_anchors@.len(),
        forall|k: int|
            0 <= k < run[n].b.order_keys@.len() ==> made(
                run[n].b.make_anchor,
                #[trigger] run[n].b.order_keys@[k],
                run[n].b.order_anchors@[k].token,
            ),
{
    lemma_carries_on(run, n + 1);
    assert(keyed_turn(run, n));
}

proof fn lemma_released(keys: Seq<usize>, cache: Map<usize, AnchorToken>, keep: Set<usize>, key: usize)
    requires
        keys.contains(key),
        cache.contains_key(key),
        !keep.contains(key),
    ensures
        released(keys, cache, keep).contains(Call::Unrequest { token: cache[key] }),
    decreases keys.len(),
{
    let fewer = keys.drop_last();
    let call = Call::Unrequest { token: cache[key] };
    let all = released(keys, cache, keep);
    let before = released(fewer, cache, keep);
    if fewer.contains(key) {
        lemma_released(fewer, cache, keep, key);
        let m = choose|m: int| 0 <= m < before.len() && before[m] == call;
        assert(all[m] == call);
    } else {
        let m = choose|m: int| 0 <= m < keys.len() && keys[m] == key;
        assert(m == keys.len() - 1) by {
            if m < keys.len() - 1 {
                assert(fewer[m] == key);
            }
        }
        assert(all[before.len() as int] == call);
    }
}

/// When a new order is taken up, the anchor of a key that left it is given up, and a key that was in use and stays keeps the
/// anchor that it had: none is made for it.
pub proof fn keys_that_stay_keep_their_anchors<G: UpdateContext, C: Sequence<V>, V: Clone, F: FnMut(&usize) -> Anchor<V>>(
    a: DynamicKeyedVectorCollect<C, V, F>,
    r: DynamicKeyedVectorCollect<C, V, F>,
    order: Seq<usize>,
    before: &G,
    after: &G,
    key: usize,
)
    requires
        a.reconciled(r, order, before, after),
        a.order_keys@.contains(key),
        a.cache@.contains_key(key),
    ensures
        !r.order_keys@.contains(key) ==> after.calls().skip(before.calls().len() as int).contains(
            Call::Unrequest { token: a.cache@[key] },
        ),
        forall|k: int|
            0 <= k < r.order_keys@.len() && #[trigger] r.order_keys@[k] == key ==> r.order_anchors@[k].token == a.cache@[key],
{
    let keep = r.order_keys@.to_set();
    if !r.order_keys@.contains(key) {
        lemma_released(a.order_keys@, a.cache@, keep, key);
        assert(after.calls().skip(before.calls().len() as int) =~= released(a.order_keys@, a.cache@, keep));
    }
    assert forall|k: int| 0 <= k < r.order_keys@.len() && #[trigger] r.order_keys@[k] == key implies r.order_anchors@[k].token == a.cache@[key] by {
        assert(r.order_keys@.contains(key));
        assert(r.cache@.contains_key(key));
    }
}

} // verus!
