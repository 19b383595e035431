//! Anchors that gather outputs by keys, in an order that may change.

use crate::collections::asking::{any_awaiting, any_lost, ask_every, asked_every, awaiting, lost, stirred, tokens_of};
use crate::collections::collect::{
    all_taken, drop_lost, fill, gathered, kept, lemma_all_new, lemma_as_many, lemma_gathered_agreeing, lemma_supplied_less,
    lemma_supplied_more, present, renew, stands, supplied, supplies, take_anew, Source, taken, unreadable,
};
use crate::collections::persistent::{vector_list, vector_view, POOL_LIMIT};
use crate::collections::sequence::Sequence;
use crate::expert::ext::then_clone::asked_one;
use crate::expert::{Anchor, AnchorInner, AnchorOutput, AnchorToken, Call, OutputRef, Poll, Reads, UpdateContext};
use im_rc::Vector;
use std::collections::{HashMap, HashSet};
use vstd::prelude::*;

verus! {

/// An anchor whose output is the sequence of the outputs of the anchors that belong to the keys in
/// `order`. The anchor of a key is made once and kept as long as the key is in use, so that a new order
/// takes nothing apart. A key whose anchor is gone is left out from then on.
pub struct DynamicKeyedVectorCollect<C, V, F> {
    pub order: Anchor<Vector<usize>>,
    /// Makes the anchor of a key.
    pub make_anchor: F,
    pub dirty: bool,
    /// The keys whose anchors are gone.
    pub invalid_keys: HashSet<usize>,
    /// The anchors of the keys in use.
    pub cache: HashMap<usize, AnchorToken>,
    /// The keys in use, in order.
    pub order_keys: Vec<usize>,
    /// The anchors of `order_keys`.
    pub order_anchors: Vec<Anchor<V>>,
    pub vals: Option<C>,
    /// How many blocks of memory the output may keep.
    pub pool_size: usize,
    /// The keys in use are not those that `vals` was built from.
    pub reordered: bool,
    /// The keys and anchors that `vals` was built from.
    pub shown: Ghost<(Seq<usize>, Seq<Anchor<V>>)>,
}

/// The keys of `order` that are not in `invalid`.
pub open spec fn usable(order: Seq<usize>, invalid: Set<usize>) -> Seq<usize>
    decreases order.len(),
{
    if order.len() == 0 {
        Seq::empty()
    } else if invalid.contains(order.last()) {
        usable(order.drop_last(), invalid)
    } else {
        usable(order.drop_last(), invalid).push(order.last())
    }
}

/// `token` identifies an anchor that `f` can make for `key`.
pub open spec fn made<V, F: FnMut(&usize) -> Anchor<V>>(f: F, key: usize, token: AnchorToken) -> bool {
    exists|anchor: Anchor<V>| #[trigger] call_ensures(f, (&key,), anchor) && anchor.token == token
}

/// What is given up of `cache` when only the keys in `keep` are still in use: the anchors of `keys`, each
/// once.
pub open spec fn released(keys: Seq<usize>, cache: Map<usize, AnchorToken>, keep: Set<usize>) -> Seq<Call>
    decreases keys.len(),
{
    if keys.len() == 0 {
        Seq::empty()
    } else {
        let before = released(keys.drop_last(), cache, keep);
        let key = keys.last();
        if !keep.contains(key) && cache.contains_key(key) && !keys.drop_last().contains(key) {
            before.push(Call::Unrequest { token: cache[key] })
        } else {
            before
        }
    }
}

/// The requests that are given up because the anchors are gone, from the last to the `n`th.
pub open spec fn farewells(tokens: Seq<AnchorToken>, polls: Seq<Poll>, n: int) -> Seq<Call>
    decreases polls.len() - n,
{
    if n >= polls.len() {
        Seq::empty()
    } else {
        let later = farewells(tokens, polls, n + 1);
        if polls[n] is PendingInvalidToken {
            later.push(Call::Unrequest { token: tokens[n] })
        } else {
            later
        }
    }
}

/// The keys whose anchors turned out to be gone, from the `n`th on.
pub open spec fn lost_keys(keys: Seq<usize>, polls: Seq<Poll>, n: int) -> Set<usize> {
    Set::new(|key: usize| exists|k: int| n <= k < polls.len() && (#[trigger] polls[k]) is PendingInvalidToken && keys[k] == key)
}

/// `later` is `cache` without the keys that are not in use any more.
pub open spec fn trimmed(cache: Map<usize, AnchorToken>, later: Map<usize, AnchorToken>, keys: Seq<usize>, keep: Set<usize>) -> bool {
    forall|key: usize|
        #![trigger later.contains_key(key)]
        later.contains_key(key) == (cache.contains_key(key) && (keep.contains(key) || !keys.contains(key))) && (later.contains_key(key)
            ==> later[key] == cache[key])
}

/// Gives up the anchors of `keys` that are not in `keep`.
fn release<G: UpdateContext>(cache: &mut HashMap<usize, AnchorToken>, ctx: &mut G, keys: &Vec<usize>, keep: &HashSet<usize>)
    requires
        old(ctx).valid(),
    ensures
        old(ctx).evolves(final(ctx)),
        final(ctx).calls() == old(ctx).calls() + released(keys@, old(cache)@, keep@),
        final(ctx).degraded() == old(ctx).degraded(),
        final(ctx).told() == old(ctx).told(),
        trimmed(old(cache)@, final(cache)@, keys@, keep@),
{
    let ghost was = *ctx;
    let ghost full = cache@;
    proof {
        was.evolves_reflexive();
        was.evolves_keeps(ctx);
        assert(was.calls() + released(keys@.take(0), full, keep@) =~= was.calls());
    }
    let mut k: usize = 0;
    while k < keys.len()
        invariant
            k <= keys@.len(),
            was == *old(ctx),
            full == old(cache)@,
            was.valid(),
            ctx.valid(),
            was.evolves(ctx),
            ctx.calls() == was.calls() + released(keys@.take(k as int), full, keep@),
            ctx.degraded() == was.degraded(),
            ctx.told() == was.told(),
            trimmed(full, cache@, keys@.take(k as int), keep@),
        decreases keys@.len() - k,
    {
        let ghost before = *ctx;
        let ghost some = cache@;
        let key: usize = keys[k];
        let ghost less = keys@.take(k as int);
        let ghost more = keys@.take(k as int + 1);
        proof {
            before.evolves_reflexive();
            assert(more.drop_last() =~= less);
            assert(more.last() == key);
            assert(more =~= less.push(key));
            assert forall|x: usize| more.contains(x) == (less.contains(x) || x == key) by {
                if less.contains(x) {
                    let m = choose|m: int| 0 <= m < less.len() && less[m] == x;
                    assert(more[m] == x);
                }
                assert(more[k as int] == key);
            }
            assert(some.contains_key(key) == (full.contains_key(key) && (keep@.contains(key) || !less.contains(key))));
        }
        if !keep.contains(&key) {
            match cache.remove(&key) {
                Some(token) => {
                    ctx.unrequest(token);
                },
                None => {},
            }
        }
        proof {
            was.evolves_keeps(&before);
            before.evolves_keeps(ctx);
            was.evolves_transitive(&before, ctx);
            assert(ctx.calls() =~= was.calls() + released(more, full, keep@));
            assert forall|x: usize|
                #![trigger cache@.contains_key(x)]
                cache@.contains_key(x) == (full.contains_key(x) && (keep@.contains(x) || !more.contains(x))) && (cache@.contains_key(x)
                    ==> cache@[x] == full[x]) by {
                assert(some.contains_key(x) == (full.contains_key(x) && (keep@.contains(x) || !less.contains(x))));
            }
        }
        k = k + 1;
    }
    proof {
        assert(keys@.take(k as int) =~= keys@);
    }
}

impl<C: Sequence<V>, V: Clone, F: FnMut(&usize) -> Anchor<V>> DynamicKeyedVectorCollect<C, V, F> {
    pub fn new_to_anchor(order: Anchor<Vector<usize>>, make_anchor: F) -> (collect: Self)
        requires
            forall|key: usize| call_requires(make_anchor, (&key,)),
        ensures
            fresh_keyed(collect, order, make_anchor, 256),
            collect.inv(),
    {
        Self::new_to_anchor_with_vals_pool(order, 256, make_anchor)
    }

    /// A gathering whose output may keep up to `pool_size` blocks of memory.
    pub fn new_to_anchor_with_vals_pool(order: Anchor<Vector<usize>>, pool_size: usize, make_anchor: F) -> (collect: Self)
        requires
            pool_size <= POOL_LIMIT,
            forall|key: usize| call_requires(make_anchor, (&key,)),
        ensures
            fresh_keyed(collect, order, make_anchor, pool_size),
            collect.inv(),
    {
        DynamicKeyedVectorCollect {
            order,
            make_anchor,
            dirty: true,
            invalid_keys: HashSet::new(),
            cache: HashMap::new(),
            order_keys: Vec::new(),
            order_anchors: Vec::new(),
            vals: None,
            pool_size,
            reordered: true,
            shown: Ghost((Seq::empty(), Seq::empty())),
        }
    }

    /// The keys in use and their anchors belong together.
    pub open spec fn arranged(&self) -> bool {
        &&& forall|key: usize| call_requires(self.make_anchor, (&key,))
        &&& self.pool_size <= POOL_LIMIT
        &&& self.order_anchors@.len() == self.order_keys@.len()
        &&& forall|k: int|
            0 <= k < self.order_keys@.len() && self.cache@.contains_key(#[trigger] self.order_keys@[k]) ==> self.cache@[self.order_keys@[k]]
                == self.order_anchors@[k].token
        &&& forall|k: int| 0 <= k < self.order_keys@.len() ==> made(self.make_anchor, #[trigger] self.order_keys@[k], self.order_anchors@[k].token)
        &&& forall|k: int|
            0 <= k < self.order_keys@.len() ==> self.cache@.contains_key(#[trigger] self.order_keys@[k]) || self.invalid_keys@.contains(
                self.order_keys@[k],
            )
        &&& forall|key: usize| #[trigger] self.cache@.contains_key(key) ==> self.order_keys@.contains(key)
    }

    /// What a new order makes of the keys in use: `self` becomes `later`.
    pub open spec fn reconciled<G: UpdateContext>(self, later: Self, order: Seq<usize>, before: &G, after: &G) -> bool {
        &&& before.evolves(after)
        &&& later.arranged()
        &&& later.order == self.order
        &&& later.make_anchor == self.make_anchor
        &&& later.invalid_keys == self.invalid_keys
        &&& later.vals == self.vals
        &&& later.pool_size == self.pool_size
        &&& later.shown == self.shown
        &&& later.order_keys@ == usable(order, self.invalid_keys@)
        &&& later.reordered == (self.reordered || later.order_keys@ != self.order_keys@)
        &&& later.order_keys@ == self.order_keys@ ==> later.order_anchors == self.order_anchors
        &&& forall|key: usize| #[trigger] later.cache@.contains_key(key) == later.order_keys@.contains(key)
        &&& forall|key: usize|
            #[trigger] later.cache@.contains_key(key) ==> if self.cache@.contains_key(key) {
                later.cache@[key] == self.cache@[key]
            } else {
                made(self.make_anchor, key, later.cache@[key])
            }
        &&& after.calls() == before.calls() + released(self.order_keys@, self.cache@, later.order_keys@.to_set())
    }

    /// The output has to be built anew, and not only renewed in places.
    pub open spec fn anew(self, polls: Seq<Poll>) -> bool {
        self.reordered || lost(polls) || self.vals is None
    }

    /// What the answers of the anchors make of a gathering: `self` becomes `later`.
    pub open spec fn concluded<G: Reads<V>>(self, later: Self, before: &G, after: &G, polls: Seq<Poll>, poll: Poll) -> bool {
        &&& before.evolves(after)
        &&& after.calls() == before.calls() + farewells(tokens_of(self.order_anchors@), polls, 0)
        &&& later.order == self.order
        &&& later.make_anchor == self.make_anchor
        &&& later.pool_size == self.pool_size
        &&& later.order_keys@ == kept(self.order_keys@, polls)
        &&& later.order_anchors@ == kept(self.order_anchors@, polls)
        &&& later.invalid_keys@ == self.invalid_keys@ + lost_keys(self.order_keys@, polls, 0)
        &&& later.cache@ == self.cache@.remove_keys(lost_keys(self.order_keys@, polls, 0))
        &&& if awaiting(polls) || unreadable::<G, V, Anchor<V>>(self.order_anchors@, polls, self.anew(polls), before) {
            &&& poll == (if awaiting(polls) {
                Poll::Pending
            } else {
                Poll::PendingInvalidToken
            })
            &&& later.dirty
            &&& later.vals == self.vals
            &&& later.reordered == (self.reordered || lost(polls))
        } else {
            &&& !later.dirty
            &&& !later.reordered
            &&& later.vals is Some
            &&& exists|fresh: Seq<Option<V>>| #[trigger]
                all_taken::<G, V, Anchor<V>>(self.order_anchors@, polls, self.anew(polls), before, fresh) && if self.anew(polls) {
                    poll is Updated && later.vals->0.items() == present(fresh)
                } else {
                    &&& poll == (if stirred(polls) {
                        Poll::Updated
                    } else {
                        Poll::Unchanged
                    })
                    &&& later.vals->0.items().len() == self.vals->0.items().len()
                    &&& forall|k: int|
                        0 <= k < fresh.len() ==> later.vals->0.items()[k] == (match #[trigger] fresh[k] {
                            Some(v) => v,
                            None => self.vals->0.items()[k],
                        })
                }
        }
    }

    /// Takes up a new order. The anchors of keys that stay in use are kept.
    fn reconcile<G: UpdateContext>(&mut self, ctx: &mut G, order: &Vec<usize>)
        requires
            old(ctx).valid(),
            old(self).arranged(),
        ensures
            old(self).reconciled(*final(self), order@, old(ctx), final(ctx)),
            final(self).dirty == old(self).dirty,
            final(self).arranged(),
            final(ctx).degraded() == old(ctx).degraded(),
            final(ctx).told() == old(ctx).told(),
    {
        let ghost a = *self;
        let mut next_set: HashSet<usize> = HashSet::new();
        let mut next_keys: Vec<usize> = Vec::new();
        let mut next_anchors: Vec<Anchor<V>> = Vec::new();
        let mut k: usize = 0;
        while k < order.len()
            invariant
                k <= order@.len(),
                a.arranged(),
                *self == (DynamicKeyedVectorCollect { cache: self.cache, ..a }),
                next_keys@ == usable(order@.take(k as int), a.invalid_keys@),
                next_anchors@.len() == next_keys@.len(),
                forall|x: usize| #[trigger] next_set@.contains(x) == next_keys@.contains(x),
                forall|m: int|
                    0 <= m < next_keys@.len() ==> self.cache@.contains_key(#[trigger] next_keys@[m]) && self.cache@[next_keys@[m]]
                        == next_anchors@[m].token,
                forall|x: usize| #[trigger] a.cache@.contains_key(x) ==> self.cache@.contains_key(x) && self.cache@[x] == a.cache@[x],
                forall|x: usize|
                    #[trigger] self.cache@.contains_key(x) && !a.cache@.contains_key(x) ==> next_keys@.contains(x) && made(
                        a.make_anchor,
                        x,
                        self.cache@[x],
                    ),
            decreases order@.len() - k,
        {
            let key: usize = order[k];
            let ghost keys = next_keys@;
            let ghost some = self.cache@;
            proof {
                assert(order@.take(k as int + 1).drop_last() =~= order@.take(k as int));
                assert(order@.take(k as int + 1).last() == key);
            }
            if !self.invalid_keys.contains(&key) {
                let cached: Option<AnchorToken> = match self.cache.get(&key) {
                    Some(token) => Some(*token),
                    None => None,
                };
                let anchor: Anchor<V> = match cached {
                    Some(token) => Anchor::new_from_expert(token),
                    None => {
                        let created: Anchor<V> = (self.make_anchor)(&key);
                        assert(made(a.make_anchor, key, created.token));
                        let _ = self.cache.insert(key, created.token);
                        created
                    },
                };
                let _ = next_set.insert(key);
                next_keys.push(key);
                next_anchors.push(anchor);
                proof {
                    assert forall|x: usize| #[trigger] next_set@.contains(x) == next_keys@.contains(x) by {
                        if keys.contains(x) {
                            let m = choose|m: int| 0 <= m < keys.len() && keys[m] == x;
                            assert(next_keys@[m] == x);
                        }
                        assert(next_keys@[keys.len() as int] == key);
                    }
                    assert forall|m: int| 0 <= m < next_keys@.len() implies self.cache@.contains_key(#[trigger] next_keys@[m]) && self.cache@[next_keys@[m]]
                        == next_anchors@[m].token by {
                        if m < keys.len() {
                            assert(some.contains_key(keys[m]));
                        }
                    }
                    assert forall|x: usize| #[trigger] self.cache@.contains_key(x) && !a.cache@.contains_key(x) implies next_keys@.contains(x) && made(
                        a.make_anchor,
                        x,
                        self.cache@[x],
                    ) by {
                        assert(next_set@.contains(x) == next_keys@.contains(x));
                        if x != key {
                            assert(some.contains_key(x));
                            assert(keys.contains(x));
                            let m = choose|m: int| 0 <= m < keys.len() && keys[m] == x;
                            assert(next_keys@[m] == x);
                        } else {
                            assert(next_keys@[keys.len() as int] == key);
                        }
                    }
                }
            }
            k = k + 1;
        }
        let ghost filled = self.cache@;
        let ghost before = *ctx;
        release(&mut self.cache, ctx, &self.order_keys, &next_set);
        let same: bool = same_keys(&next_keys, &self.order_keys);
        proof {
            assert(order@.take(k as int) =~= order@);
            assert(next_set@ =~= next_keys@.to_set());
            assert forall|key: usize| a.order_keys@.contains(key) && !next_set@.contains(key) implies #[trigger] filled.contains_key(key)
                == a.cache@.contains_key(key) && (a.cache@.contains_key(key) ==> filled[key] == a.cache@[key]) by {
                assert(next_set@.contains(key) == next_keys@.contains(key));
            }
            lemma_released_known(a.order_keys@, a.cache@, filled, next_set@);
            assert forall|key: usize| #[trigger] self.cache@.contains_key(key) == next_keys@.contains(key) by {
                assert(next_set@.contains(key) == next_keys@.contains(key));
                if next_keys@.contains(key) {
                    let m = choose|m: int| 0 <= m < next_keys@.len() && next_keys@[m] == key;
                    assert(filled.contains_key(next_keys@[m]));
                } else if filled.contains_key(key) {
                    assert(a.cache@.contains_key(key));
                    assert(a.order_keys@.contains(key));
                }
            }
            assert forall|m: int| 0 <= m < next_keys@.len() implies self.cache@[#[trigger] next_keys@[m]] == next_anchors@[m].token && made(
                a.make_anchor,
                next_keys@[m],
                next_anchors@[m].token,
            ) by {
                let x = next_keys@[m];
                assert(next_keys@.contains(x));
                assert(self.cache@.contains_key(x));
                assert(filled.contains_key(x));
                if a.cache@.contains_key(x) {
                    assert(a.order_keys@.contains(x));
                    let j = choose|j: int| 0 <= j < a.order_keys@.len() && a.order_keys@[j] == x;
                    assert(a.cache@.contains_key(a.order_keys@[j]));
                    assert(made(a.make_anchor, a.order_keys@[j], a.order_anchors@[j].token));
                }
            }
        }
        if !same {
            self.order_keys = next_keys;
            self.order_anchors = next_anchors;
            self.reordered = true;
        }
        proof {
            assert(self.order_keys@ =~= next_keys@);
            assert forall|x: int| 0 <= x < self.order_keys@.len() && self.cache@.contains_key(#[trigger] self.order_keys@[x]) implies self.cache@[self.order_keys@[x]]
                == self.order_anchors@[x].token by {
                assert(self.cache@[next_keys@[x]] == next_anchors@[x].token);
                if same {
                    let y = next_keys@[x];
                    lemma_usable_valid(order@, a.invalid_keys@, x);
                    assert(a.cache@.contains_key(a.order_keys@[x]));
                    assert(self.cache@.contains_key(y));
                }
            }
        }
    }
}

/// A gathering that has not been polled yet.
pub open spec fn fresh_keyed<C, V, F: FnMut(&usize) -> Anchor<V>>(
    collect: DynamicKeyedVectorCollect<C, V, F>,
    order: Anchor<Vector<usize>>,
    make_anchor: F,
    pool_size: usize,
) -> bool {
    &&& collect.order == order
    &&& collect.make_anchor == make_anchor
    &&& collect.dirty
    &&& collect.invalid_keys@ == Set::<usize>::empty()
    &&& collect.cache@ == Map::<usize, AnchorToken>::empty()
    &&& collect.order_keys@ == Seq::<usize>::empty()
    &&& collect.order_anchors@ == Seq::<Anchor<V>>::empty()
    &&& collect.vals is None
    &&& collect.pool_size == pool_size
    &&& collect.reordered
}

fn same_keys(a: &Vec<usize>, b: &Vec<usize>) -> (same: bool)
    ensures
        same == (a@ == b@),
{
    if a.len() != b.len() {
        return false;
    }
    let mut k: usize = 0;
    while k < a.len()
        invariant
            k <= a@.len(),
            a@.len() == b@.len(),
            forall|m: int| 0 <= m < k ==> a@[m] == b@[m],
        decreases a@.len() - k,
    {
        if a[k] != b[k] {
            return false;
        }
        k = k + 1;
    }
    assert(a@ =~= b@);
    true
}

/// What is given up rests on the keys that are not in use any more alone.
proof fn lemma_released_known(keys: Seq<usize>, a: Map<usize, AnchorToken>, b: Map<usize, AnchorToken>, keep: Set<usize>)
    requires
        forall|key: usize|
            keys.contains(key) && !keep.contains(key) ==> #[trigger] b.contains_key(key) == a.contains_key(key) && (a.contains_key(key)
                ==> b[key] == a[key]),
    ensures
        released(keys, b, keep) == released(keys, a, keep),
    decreases keys.len(),
{
    if keys.len() > 0 {
        let less = keys.drop_last();
        assert forall|key: usize| less.contains(key) && !keep.contains(key) implies #[trigger] b.contains_key(key) == a.contains_key(key) && (a.contains_key(
            key,
        ) ==> b[key] == a[key]) by {
            let m = choose|m: int| 0 <= m < less.len() && less[m] == key;
            assert(keys[m] == key);
        }
        lemma_released_known(less, a, b, keep);
        assert(keys.contains(keys.last()));
    }
}

/// A usable key is not an invalid one.
proof fn lemma_usable_valid(order: Seq<usize>, invalid: Set<usize>, k: int)
    requires
        0 <= k < usable(order, invalid).len(),
    ensures
        !invalid.contains(usable(order, invalid)[k]),
    decreases order.len(),
{
    if order.len() > 0 {
        let less = usable(order.drop_last(), invalid);
        if k < less.len() {
            lemma_usable_valid(order.drop_last(), invalid, k);
        }
    }
}

/// Where no key is invalid, all are usable.
proof fn lemma_usable_all(order: Seq<usize>)
    ensures
        usable(order, Set::<usize>::empty()) == order,
    decreases order.len(),
{
    if order.len() > 0 {
        lemma_usable_all(order.drop_last());
        assert(order.drop_last().push(order.last()) =~= order);
    } else {
        assert(usable(order, Set::<usize>::empty()) =~= order);
    }
}

impl<C: Sequence<V>, V: Clone, F: FnMut(&usize) -> Anchor<V>> DynamicKeyedVectorCollect<C, V, F> {
    /// Leaves out the keys whose anchors are gone.
    fn leave_out<G: UpdateContext>(&mut self, ctx: &mut G, polls: &Vec<Poll>)
        requires
            old(ctx).valid(),
            old(self).arranged(),
            polls@.len() == old(self).order_keys@.len(),
        ensures
            *final(self) == (DynamicKeyedVectorCollect {
                order_keys: final(self).order_keys,
                order_anchors: final(self).order_anchors,
                invalid_keys: final(self).invalid_keys,
                cache: final(self).cache,
                ..*old(self)
            }),
            final(self).arranged(),
            final(self).order_keys@ == kept(old(self).order_keys@, polls@),
            final(self).order_anchors@ == kept(old(self).order_anchors@, polls@),
            final(self).invalid_keys@ == old(self).invalid_keys@ + lost_keys(old(self).order_keys@, polls@, 0),
            final(self).cache@ == old(self).cache@.remove_keys(lost_keys(old(self).order_keys@, polls@, 0)),
            old(ctx).evolves(final(ctx)),
            final(ctx).calls() == old(ctx).calls() + farewells(tokens_of(old(self).order_anchors@), polls@, 0),
            final(ctx).degraded() == old(ctx).degraded(),
            final(ctx).told() == old(ctx).told(),
    {
        let ghost a = *self;
        let ghost was = *ctx;
        let ghost keys = self.order_keys@;
        let ghost tokens = tokens_of(self.order_anchors@);
        let mut n: usize = polls.len();
        proof {
            was.evolves_reflexive();
            was.evolves_keeps(ctx);
            assert(was.calls() + farewells(tokens, polls@, n as int) =~= was.calls());
            assert(lost_keys(keys, polls@, n as int) =~= Set::<usize>::empty());
            assert(a.invalid_keys@ + lost_keys(keys, polls@, n as int) =~= a.invalid_keys@);
            assert(a.cache@.remove_keys(lost_keys(keys, polls@, n as int)) =~= a.cache@);
        }
        while n > 0
            invariant
                n <= polls@.len(),
                polls@.len() == keys.len(),
                keys == a.order_keys@,
                tokens == tokens_of(a.order_anchors@),
                a.arranged(),
                was == *old(ctx),
                was.valid(),
                ctx.valid(),
                was.evolves(ctx),
                *self == (DynamicKeyedVectorCollect { invalid_keys: self.invalid_keys, cache: self.cache, ..a }),
                self.invalid_keys@ == a.invalid_keys@ + lost_keys(keys, polls@, n as int),
                self.cache@ == a.cache@.remove_keys(lost_keys(keys, polls@, n as int)),
                ctx.calls() == was.calls() + farewells(tokens, polls@, n as int),
                ctx.degraded() == was.degraded(),
                ctx.told() == was.told(),
            decreases n,
        {
            let ghost before = *ctx;
            let ghost m = n as int;
            n = n - 1;
            proof {
                before.evolves_reflexive();
                lemma_lost_keys_on(keys, polls@, n as int);
            }
            if polls[n].is_invalid_token() {
                let key: usize = self.order_keys[n];
                let _ = self.invalid_keys.insert(key);
                let _ = self.cache.remove(&key);
                ctx.unrequest(self.order_anchors[n].token);
            }
            proof {
                was.evolves_keeps(&before);
                before.evolves_keeps(ctx);
                was.evolves_transitive(&before, ctx);
                assert(ctx.calls() =~= was.calls() + farewells(tokens, polls@, n as int));
                assert(self.invalid_keys@ =~= a.invalid_keys@ + lost_keys(keys, polls@, n as int));
                assert(self.cache@ =~= a.cache@.remove_keys(lost_keys(keys, polls@, n as int)));
            }
        }
        drop_lost(&mut self.order_keys, polls);
        drop_lost(&mut self.order_anchors, polls);
        proof {
            lemma_kept_pairs(a.order_keys@, a.order_anchors@, polls@);
            let gone = lost_keys(keys, polls@, 0);
            assert forall|k: int| 0 <= k < self.order_keys@.len() implies made(
                self.make_anchor,
                #[trigger] self.order_keys@[k],
                self.order_anchors@[k].token,
            ) && (self.cache@.contains_key(self.order_keys@[k]) ==> self.cache@[self.order_keys@[k]] == self.order_anchors@[k].token) && (self.cache@.contains_key(
                self.order_keys@[k],
            ) || self.invalid_keys@.contains(self.order_keys@[k])) by {
                let j = choose|j: int|
                    0 <= j < keys.len() && (#[trigger] keys[j]) == self.order_keys@[k] && a.order_anchors@[j] == self.order_anchors@[k];
                assert(made(a.make_anchor, a.order_keys@[j], a.order_anchors@[j].token));
                assert(a.cache@.contains_key(a.order_keys@[j]) || a.invalid_keys@.contains(a.order_keys@[j]));
            }
            assert forall|key: usize| #[trigger] self.cache@.contains_key(key) implies self.order_keys@.contains(key) by {
                assert(a.cache@.contains_key(key));
                assert(a.order_keys@.contains(key));
                let j = choose|j: int| 0 <= j < keys.len() && keys[j] == key;
                assert(!gone.contains(key));
                assert(!(polls@[j] is PendingInvalidToken));
                lemma_kept_has(keys, polls@, j);
            }
        }
    }

    /// Lets go of everything, because the order itself is gone.
    fn let_go<G: UpdateContext>(&mut self, ctx: &mut G)
        requires
            old(ctx).valid(),
            old(self).arranged(),
        ensures
            emptied(*old(self), *final(self), old(ctx), final(ctx)),
            final(self).inv(),
    {
        let ghost a = *self;
        let ghost was = *ctx;
        ctx.unrequest(self.order.token);
        let ghost mid = *ctx;
        proof {
            was.evolves_keeps(ctx);
        }
        let nobody: HashSet<usize> = HashSet::new();
        release(&mut self.cache, ctx, &self.order_keys, &nobody);
        proof {
            was.evolves_transitive(&mid, ctx);
            assert(self.cache@ =~= Map::<usize, AnchorToken>::empty()) by {
                assert forall|key: usize| !(#[trigger] self.cache@.contains_key(key)) by {
                    if self.cache@.contains_key(key) {
                        assert(a.cache@.contains_key(key));
                        assert(a.order_keys@.contains(key));
                    }
                }
            }
        }
        self.order_keys = Vec::new();
        self.order_anchors = Vec::new();
        self.vals = Some(C::with_pool(self.pool_size));
        self.shown = Ghost((Seq::empty(), Seq::empty()));
        self.reordered = false;
        self.dirty = false;
    }

    /// Builds the output, or renews it in places, once every anchor has answered.
    fn conclude<G: Reads<V>>(&mut self, ctx: &mut G, polls: &Vec<Poll>) -> (poll: Poll)
        requires
            old(ctx).valid(),
            old(self).arranged(),
            old(self).fits_shown(),
            polls@.len() == old(self).order_anchors@.len(),
        ensures
            old(self).concluded(*final(self), old(ctx), final(ctx), polls@, poll),
            final(self).arranged(),
            final(self).fits_shown(),
            final(ctx).degraded() == old(ctx).degraded(),
            final(ctx).told() == old(ctx).told(),
            !poll.ready() ==> final(self).shown == old(self).shown,
            poll.ready() ==> final(self).shown@ == (final(self).order_keys@, final(self).order_anchors@),
            poll is Unchanged ==> final(self).vals == old(self).vals,
    {
        let ghost a = *self;
        let ghost was = *ctx;
        let waiting: bool = any_awaiting(polls);
        let gone: bool = any_lost(polls);
        let whole: bool = self.reordered || gone || self.vals.is_none();
        let fresh: Option<Vec<Option<V>>> = if waiting {
            None
        } else {
            take_anew(&self.order_anchors, ctx, polls, whole)
        };
        self.leave_out(ctx, polls);
        proof {
            if !gone {
                lemma_none_lost(a.order_keys@, a.order_anchors@, polls@);
            }
        }
        if gone {
            self.reordered = true;
        }
        match fresh {
            None => {
                self.dirty = true;
                if waiting {
                    Poll::Pending
                } else {
                    Poll::PendingInvalidToken
                }
            },
            Some(fresh) => {
                let ghost new = fresh@;
                self.dirty = false;
                self.reordered = false;
                if whole {
                    proof {
                        lemma_as_many::<G, V, Anchor<V>>(a.order_anchors@, polls@, &was, new);
                    }
                    self.vals = Some(fill(fresh, self.pool_size));
                    self.shown = Ghost((self.order_keys@, self.order_anchors@));
                    assert(a.concluded(*self, &was, ctx, polls@, Poll::Updated)) by {
                        assert(all_taken::<G, V, Anchor<V>>(a.order_anchors@, polls@, a.anew(polls@), &was, new));
                    }
                    return Poll::Updated;
                }
                let mut vals: Option<C> = None;
                std::mem::swap(&mut self.vals, &mut vals);
                let mut changed: bool = false;
                match vals {
                    Some(mut vals) => {
                        changed = renew(&mut vals, fresh);
                        self.vals = Some(vals);
                    },
                    None => {},
                }
                proof {
                    assert(changed == stirred(polls@)) by {
                        let items = a.order_anchors@;
                        if changed {
                            let k = choose|k: int| 0 <= k < new.len() && (#[trigger] new[k]) is Some;
                            assert(taken::<G, V>(items[k].source(), polls@[k], false, &was, new[k]));
                            assert(polls@[k] is Updated);
                        }
                        if stirred(polls@) {
                            let k = choose|k: int| 0 <= k < polls@.len() && (#[trigger] polls@[k]) is Updated;
                            assert(taken::<G, V>(items[k].source(), polls@[k], false, &was, new[k]));
                            assert(new[k] is Some);
                        }
                    }
                }
                let poll: Poll = if changed {
                    Poll::Updated
                } else {
                    Poll::Unchanged
                };
                assert(a.concluded(*self, &was, ctx, polls@, poll)) by {
                    assert(all_taken::<G, V, Anchor<V>>(a.order_anchors@, polls@, a.anew(polls@), &was, new));
                }
                poll
            },
        }
    }

    /// The output has an item for every anchor that it was built from, and these are the ones in use unless
    /// they were reordered.
    pub open spec fn fits_shown(&self) -> bool {
        self.vals is Some ==> {
            &&& self.vals->0.items().len() == self.shown@.1.len()
            &&& !self.reordered ==> self.shown@ == (self.order_keys@, self.order_anchors@)
        }
    }
}

/// What a gathering becomes when its order is gone.
pub open spec fn emptied<G: UpdateContext, C: Sequence<V>, V, F: FnMut(&usize) -> Anchor<V>>(
    a: DynamicKeyedVectorCollect<C, V, F>,
    b: DynamicKeyedVectorCollect<C, V, F>,
    before: &G,
    after: &G,
) -> bool {
    &&& before.evolves(after)
    &&& after.calls() == before.calls().push(Call::Unrequest { token: a.order.token }) + released(a.order_keys@, a.cache@, Set::empty())
    &&& b.order == a.order
    &&& b.make_anchor == a.make_anchor
    &&& b.invalid_keys == a.invalid_keys
    &&& b.pool_size == a.pool_size
    &&& b.cache@ == Map::<usize, AnchorToken>::empty()
    &&& b.order_keys@ == Seq::<usize>::empty()
    &&& b.order_anchors@ == Seq::<Anchor<V>>::empty()
    &&& b.vals is Some && b.vals->0.items() == Seq::<V>::empty()
    &&& !b.dirty
    &&& !b.reordered
}

proof fn lemma_lost_keys_on(keys: Seq<usize>, polls: Seq<Poll>, n: int)
    requires
        0 <= n < polls.len(),
    ensures
        lost_keys(keys, polls, n) == (if polls[n] is PendingInvalidToken {
            lost_keys(keys, polls, n + 1).insert(keys[n])
        } else {
            lost_keys(keys, polls, n + 1)
        }),
{
    let more = lost_keys(keys, polls, n);
    let less = lost_keys(keys, polls, n + 1);
    let sum = if polls[n] is PendingInvalidToken {
        less.insert(keys[n])
    } else {
        less
    };
    assert forall|key: usize| #[trigger] more.contains(key) == sum.contains(key) by {
        if more.contains(key) {
            let k = choose|k: int| n <= k < polls.len() && (#[trigger] polls[k]) is PendingInvalidToken && keys[k] == key;
            if k > n {
                assert(polls[k] is PendingInvalidToken);
            }
        }
        if less.contains(key) {
            let k = choose|k: int| n + 1 <= k < polls.len() && (#[trigger] polls[k]) is PendingInvalidToken && keys[k] == key;
            assert(polls[k] is PendingInvalidToken);
        }
        if polls[n] is PendingInvalidToken && key == keys[n] {
            assert(more.contains(key));
        }
    }
    assert(more =~= sum);
}

/// Keys and anchors are kept in pairs.
proof fn lemma_kept_pairs<V>(keys: Seq<usize>, anchors: Seq<Anchor<V>>, polls: Seq<Poll>)
    requires
        keys.len() == anchors.len(),
    ensures
        kept(keys, polls).len() == kept(anchors, polls).len(),
        forall|k: int|
            0 <= k < kept(keys, polls).len() ==> exists|j: int|
                0 <= j < keys.len() && (#[trigger] keys[j]) == #[trigger] kept(keys, polls)[k] && anchors[j] == kept(anchors, polls)[k],
    decreases keys.len(),
{
    if keys.len() > 0 {
        let n = keys.len() - 1;
        let fewer = keys.drop_last();
        lemma_kept_pairs(fewer, anchors.drop_last(), polls);
        assert forall|k: int| 0 <= k < kept(keys, polls).len() implies exists|j: int|
            0 <= j < keys.len() && (#[trigger] keys[j]) == #[trigger] kept(keys, polls)[k] && anchors[j] == kept(anchors, polls)[k] by {
            if k < kept(fewer, polls).len() {
                assert(kept(fewer, polls)[k] == kept(keys, polls)[k]);
                let j = choose|j: int|
                    0 <= j < fewer.len() && (#[trigger] fewer[j]) == kept(fewer, polls)[k] && anchors.drop_last()[j] == kept(anchors.drop_last(), polls)[k];
                assert(keys[j] == kept(keys, polls)[k]);
            } else {
                assert(keys[n] == kept(keys, polls)[k]);
            }
        }
    }
}

/// What is not gone is kept.
proof fn lemma_kept_has(keys: Seq<usize>, polls: Seq<Poll>, j: int)
    requires
        0 <= j < keys.len(),
        !(polls[j] is PendingInvalidToken),
    ensures
        kept(keys, polls).contains(keys[j]),
    decreases keys.len(),
{
    let fewer = keys.drop_last();
    let few = kept(fewer, polls);
    let all = kept(keys, polls);
    if j < fewer.len() {
        lemma_kept_has(fewer, polls, j);
        let m = choose|m: int| 0 <= m < few.len() && few[m] == keys[j];
        assert(all[m] == keys[j]);
    } else {
        assert(all[few.len() as int] == keys[j]);
    }
}

proof fn lemma_none_lost<V>(keys: Seq<usize>, anchors: Seq<Anchor<V>>, polls: Seq<Poll>)
    requires
        keys.len() == anchors.len(),
        polls.len() == keys.len(),
        !lost(polls),
    ensures
        kept(keys, polls) == keys,
        kept(anchors, polls) == anchors,
        lost_keys(keys, polls, 0) == Set::<usize>::empty(),
    decreases keys.len(),
{
    lemma_kept_whole(keys, polls);
    lemma_kept_whole(anchors, polls);
    assert(lost_keys(keys, polls, 0) =~= Set::<usize>::empty());
}

pub proof fn lemma_kept_whole<I>(items: Seq<I>, polls: Seq<Poll>)
    requires
        items.len() <= polls.len(),
        !lost(polls),
    ensures
        kept(items, polls) == items,
    decreases items.len(),
{
    if items.len() > 0 {
        lemma_kept_whole(items.drop_last(), polls);
        assert(!(polls[items.len() - 1] is PendingInvalidToken));
        assert(items.drop_last().push(items.last()) =~= items);
    } else {
        assert(kept(items, polls) =~= items);
    }
}

impl<C: Sequence<V>, V: Clone, F: FnMut(&usize) -> Anchor<V>> AnchorOutput for DynamicKeyedVectorCollect<C, V, F> {
    type Output = C;

    type Handed = ();

    open spec fn inv(&self) -> bool {
        &&& self.arranged()
        &&& self.fits_shown()
        &&& !self.dirty ==> self.vals is Some && !self.reordered
    }

    open spec fn had(&self) -> bool {
        self.vals is Some
    }

    open spec fn alias(&self) -> Option<AnchorToken> {
        None
    }

    open spec fn own(&self) -> C {
        self.vals->0
    }

    open spec fn honest(&self) -> bool {
        true
    }

    open spec fn outside(&self) -> Option<()> {
        None
    }

    open spec fn displays(handed: (), out: C) -> bool {
        true
    }

    fn output(&self) -> (out: OutputRef<'_, C>) {
        OutputRef::Own(self.vals.as_ref().unwrap())
    }
}

/// The output is right for the outputs that `outs` holds: it was built from the keys in the order, and from
/// anchors that belong to them.
pub open spec fn keyed_fits<G: Reads<Vector<usize>> + Reads<V>, C: Sequence<V>, V: Clone, F: FnMut(&usize) -> Anchor<V>>(
    collect: DynamicKeyedVectorCollect<C, V, F>,
    outs: Map<AnchorToken, G::V>,
) -> bool {
    let keys = collect.shown@.0;
    let anchors = collect.shown@.1;
    &&& collect.vals is Some
    &&& outs.contains_key(collect.order.token)
    &&& keys == vector_view(<G as Reads<Vector<usize>>>::cast(outs[collect.order.token]))
    &&& anchors.len() == keys.len()
    &&& forall|k: int| 0 <= k < keys.len() ==> made(collect.make_anchor, #[trigger] keys[k], anchors[k].token)
    &&& supplied::<G::V, V, Anchor<V>>(anchors, outs)
    &&& gathered::<G, V, Anchor<V>>(anchors, outs, collect.vals->0.items())
}

/// What a poll makes of a gathering: `a` becomes `b` while the context goes from `before` to `after`.
pub open spec fn keyed_step<G: Reads<Vector<usize>> + Reads<V>, C: Sequence<V>, V: Clone, F: FnMut(&usize) -> Anchor<V>>(
    a: DynamicKeyedVectorCollect<C, V, F>,
    b: DynamicKeyedVectorCollect<C, V, F>,
    before: &G,
    after: &G,
    poll: Poll,
) -> bool {
    exists|mid: G, first: Poll| #[trigger]
        asked_one(before, &mid, a.order.token, first) && if first.waiting() {
            b == a && *after == mid && poll is Pending
        } else if first is PendingInvalidToken {
            emptied(a, b, &mid, after) && poll is Updated
        } else if first is Unchanged && !a.dirty {
            b == a && *after == mid && poll is Unchanged
        } else if <G as Reads<Vector<usize>>>::reading(&mid, a.order.token) is None {
            b == (DynamicKeyedVectorCollect { dirty: true, ..a }) && *after == mid && poll is PendingInvalidToken
        } else {
            exists|r: DynamicKeyedVectorCollect<C, V, F>, sorted: G, answered: G, polls: Seq<Poll>|
                #![trigger asked_every(&sorted, &answered, tokens_of(r.order_anchors@), polls)]
                {
                    &&& a.reconciled(r, vector_view(<G as Reads<Vector<usize>>>::reading(&mid, a.order.token)->0), &mid, &sorted)
                    &&& asked_every(&sorted, &answered, tokens_of(r.order_anchors@), polls)
                    &&& r.concluded(b, &answered, after, polls, poll)
                }
        }
}

/// From `a` to `b` a gathering was polled, or heard of a change.
pub open spec fn keyed_goes_on<G: Reads<Vector<usize>> + Reads<V>, C: Sequence<V>, V: Clone, F: FnMut(&usize) -> Anchor<V>>(
    a: DynamicKeyedVectorCollect<C, V, F>,
    b: DynamicKeyedVectorCollect<C, V, F>,
) -> bool {
    ||| b == (DynamicKeyedVectorCollect { dirty: true, ..a })
    ||| exists|before: G, after: G, poll: Poll| #[trigger] keyed_step::<G, C, V, F>(a, b, &before, &after, poll)
}

/// The states that a gathering goes through while it is polled and hears of changes.
pub open spec fn keyed_run<G: Reads<Vector<usize>> + Reads<V>, C: Sequence<V>, V: Clone, F: FnMut(&usize) -> Anchor<V>>(
    states: Seq<DynamicKeyedVectorCollect<C, V, F>>,
) -> bool {
    forall|k: int|
        0 <= k < states.len() - 1 ==> keyed_goes_on::<G, C, V, F>(states[k], #[trigger] states[k + 1])
}

/// A key that is lost stays lost, over any series of polls. What makes the anchors and what gives the order stay too.
pub proof fn lost_keys_stay_lost<G: Reads<Vector<usize>> + Reads<V>, C: Sequence<V>, V: Clone, F: FnMut(&usize) -> Anchor<V>>(
    states: Seq<DynamicKeyedVectorCollect<C, V, F>>,
    i: int,
    j: int,
)
    requires
        keyed_run::<G, C, V, F>(states),
        0 <= i <= j < states.len(),
    ensures
        states[i].invalid_keys@.subset_of(states[j].invalid_keys@),
        states[j].order == states[i].order,
        states[j].make_anchor == states[i].make_anchor,
    decreases j - i,
{
    if i < j {
        lost_keys_stay_lost::<G, C, V, F>(states, i, j - 1);
        let a = states[j - 1];
        let b = states[j - 1 + 1];
        assert(keyed_goes_on::<G, C, V, F>(a, b));
    }
}

proof fn lemma_survivors<G: Reads<V>, V: Clone>(anchors: Seq<Anchor<V>>, polls: Seq<Poll>, ctx: &G, fresh: Seq<Option<V>>)
    requires
        anchors.len() <= polls.len(),
        all_taken::<G, V, Anchor<V>>(anchors, polls, true, ctx, fresh),
    ensures
        present(fresh).len() == kept(anchors, polls).len(),
        forall|m: int| 0 <= m < present(fresh).len() ==> cloned(
            ctx.reading(kept(anchors, polls)[m].token)->0,
            #[trigger] present(fresh)[m],
        ),
    decreases anchors.len(),
{
    if anchors.len() > 0 {
        let last = anchors.len() - 1;
        let fewer = anchors.drop_last();
        assert forall|k: int| 0 <= k < fewer.len() implies taken::<G, V>((#[trigger] fewer[k]).source(), polls[k], true, ctx, fresh.drop_last()[k]) by {
            assert(taken::<G, V>(anchors[k].source(), polls[k], true, ctx, fresh[k]));
        }
        lemma_survivors::<G, V>(fewer, polls, ctx, fresh.drop_last());
        assert(taken::<G, V>(anchors[last].source(), polls[last], true, ctx, fresh[last]));
    }
}

/// When keys are lost, what is shown afterwards is a clone of what is read of each anchor that is left, in the order of
/// the keys that are left.
pub proof fn survivors_are_shown<G: Reads<V>, C: Sequence<V>, V: Clone, F: FnMut(&usize) -> Anchor<V>>(
    collect: DynamicKeyedVectorCollect<C, V, F>,
    later: DynamicKeyedVectorCollect<C, V, F>,
    before: &G,
    after: &G,
    polls: Seq<Poll>,
    poll: Poll,
)
    requires
        polls.len() == collect.order_anchors@.len(),
        collect.concluded(later, before, after, polls, poll),
        collect.anew(polls),
        poll.ready(),
    ensures
        later.vals is Some,
        later.vals->0.items().len() == later.order_anchors@.len(),
        forall|m: int| 0 <= m < later.order_anchors@.len() ==> cloned(
            before.reading((#[trigger] later.order_anchors@[m]).token)->0,
            later.vals->0.items()[m],
        ),
{
    let fresh = choose|fresh: Seq<Option<V>>| #[trigger]
        all_taken::<G, V, Anchor<V>>(collect.order_anchors@, polls, collect.anew(polls), before, fresh) && poll is Updated
            && later.vals->0.items() == present(fresh);
    lemma_survivors::<G, V>(collect.order_anchors@, polls, before, fresh);
}

/// A gathering that has nothing to take up shows one item for each key in use, in the order of the keys, each built from
/// an anchor that belongs to its key.
pub proof fn items_match_keys<C: Sequence<V>, V: Clone, F: FnMut(&usize) -> Anchor<V>>(
    collect: DynamicKeyedVectorCollect<C, V, F>,
    k: int,
)
    requires
        collect.inv(),
        !collect.dirty,
        0 <= k < collect.order_keys@.len(),
    ensures
        collect.vals is Some,
        collect.vals->0.items().len() == collect.order_keys@.len(),
        collect.shown@ == (collect.order_keys@, collect.order_anchors@),
        made(collect.make_anchor, collect.order_keys@[k], collect.shown@.1[k].token),
{
}

impl<G: Reads<Vector<usize>> + Reads<V>, C: Sequence<V>, V: Clone, F: FnMut(&usize) -> Anchor<V>> AnchorInner<G> for DynamicKeyedVectorCollect<
    C,
    V,
    F,
> {
    open spec fn current(&self) -> bool {
        true
    }

    open spec fn holds(&self, told: Map<AnchorToken, G::V>) -> bool {
        &&& self.invalid_keys@ == Set::<usize>::empty()
        &&& !self.dirty ==> keyed_fits::<G, C, V, F>(*self, told)
    }

    open spec fn sound(&self, told: Map<AnchorToken, G::V>) -> bool {
        keyed_fits::<G, C, V, F>(*self, told)
    }

    open spec fn right(&self, seen: Map<AnchorToken, G::V>) -> bool {
        self.vals is Some ==> keyed_fits::<G, C, V, F>(*self, seen)
    }

    open spec fn hears(&self, later: &Self, edge: AnchorToken) -> bool {
        *later == (DynamicKeyedVectorCollect { dirty: true, ..*self })
    }

    open spec fn polls(&self, later: &Self, before: &G, after: &G, poll: Poll) -> bool {
        keyed_step(*self, *later, before, after, poll)
    }

    open spec fn leans_on(&self, told: Map<AnchorToken, G::V>, d: AnchorToken) -> bool {
        d == self.order.token || supplies(self.shown@.1, d)
    }

    proof fn less_told(&self, told: Map<AnchorToken, G::V>, less: Map<AnchorToken, G::V>) {
        assert(told.contains_key(self.order.token));
        assert(less.contains_key(self.order.token));
        assert(less.dom().contains(self.order.token));
        lemma_supplied_less::<G, V, Anchor<V>>(self.shown@.1, told, less);
        lemma_gathered_agreeing::<G, V, Anchor<V>>(self.shown@.1, told, less, self.vals->0.items());
    }

    proof fn more_told(&self, told: Map<AnchorToken, G::V>, more: Map<AnchorToken, G::V>) {
        if keyed_fits::<G, C, V, F>(*self, told) {
            lemma_keyed_more::<G, C, V, F>(*self, told, more);
        }
    }

    proof fn shows_outside(&self) {
    }

    fn dirty(&mut self, edge: AnchorToken) {
        self.dirty = true;
    }

    fn poll_updated(&mut self, ctx: &mut G) -> (poll: Poll) {
        let ghost a = *self;
        let ghost before = *ctx;
        let first: Poll = ctx.request(self.order.token, true);
        let ghost mid = *ctx;
        proof {
            before.evolves_keeps(ctx);
            assert(asked_one(&before, &mid, a.order.token, first));
            mid.evolves_reflexive();
        }
        if first.is_waiting() {
            return Poll::Pending;
        }
        if first.is_invalid_token() {
            self.let_go(ctx);
            proof {
                mid.evolves_keeps(ctx);
                before.evolves_transitive(&mid, ctx);
            }
            return Poll::Updated;
        }
        if first == Poll::Updated {
            self.dirty = true;
        }
        if !self.dirty {
            proof {
                if !ctx.degraded() {
                    lemma_keyed_more::<G, C, V, F>(a, before.told(), ctx.told());
                }
            }
            return Poll::Unchanged;
        }
        let order: Vec<usize> = match <G as Reads<Vector<usize>>>::get(ctx, &self.order) {
            Some(order) => vector_list(order),
            None => {
                self.dirty = true;
                return Poll::PendingInvalidToken;
            },
        };
        self.reconcile(ctx, &order);
        let ghost r = *self;
        let ghost sorted = *ctx;
        proof {
            mid.evolves_keeps(&sorted);
            assert(a.reconciled(r, order@, &mid, &sorted));
        }
        let polls: Vec<Poll> = ask_every(ctx, &self.order_anchors);
        let ghost answered = *ctx;
        proof {
            sorted.evolves_keeps(&answered);
        }
        let poll: Poll = self.conclude(ctx, &polls);
        proof {
            answered.evolves_keeps(ctx);
            before.evolves_transitive(&mid, &sorted);
            before.evolves_transitive(&sorted, &answered);
            before.evolves_transitive(&answered, ctx);
            assert(asked_every(&sorted, &answered, tokens_of(r.order_anchors@), polls@));
            if !ctx.degraded() {
                lemma_none_lost(r.order_keys@, r.order_anchors@, polls@);
                assert(self.invalid_keys@ =~= Set::<usize>::empty());
                lemma_usable_all(order@);
                if poll.ready() {
                    <G as Reads<Vector<usize>>>::reading_is_now(&mid, a.order.token);
                    assert(mid.told().dom().contains(a.order.token));
                    assert(answered.told().dom().contains(a.order.token));
                    assert(answered.now().dom().contains(a.order.token));
                    lemma_concluded_fits::<G, C, V, F>(r, *self, &before, &sorted, &answered, ctx, polls@, poll);
                }
            }
        }
        poll
    }
}

proof fn lemma_keyed_more<G: Reads<Vector<usize>> + Reads<V>, C: Sequence<V>, V: Clone, F: FnMut(&usize) -> Anchor<V>>(
    collect: DynamicKeyedVectorCollect<C, V, F>,
    told: Map<AnchorToken, G::V>,
    more: Map<AnchorToken, G::V>,
)
    requires
        keyed_fits::<G, C, V, F>(collect, told),
        told.submap_of(more),
    ensures
        keyed_fits::<G, C, V, F>(collect, more),
{
    let anchors = collect.shown@.1;
    assert(told.dom().contains(collect.order.token));
    assert(more.dom().contains(collect.order.token));
    lemma_supplied_more::<G::V, V, Anchor<V>>(anchors, told, more);
    assert forall|k: int| 0 <= k < anchors.len() implies stands::<G, V>((#[trigger] anchors[k]).source(), more, collect.vals->0.items()[k]) by {
        assert(stands::<G, V>(anchors[k].source(), told, collect.vals->0.items()[k]));
    }
}

/// What a ready gathering shows is right.
proof fn lemma_concluded_fits<G: Reads<Vector<usize>> + Reads<V>, C: Sequence<V>, V: Clone, F: FnMut(&usize) -> Anchor<V>>(
    r: DynamicKeyedVectorCollect<C, V, F>,
    b: DynamicKeyedVectorCollect<C, V, F>,
    before: &G,
    sorted: &G,
    answered: &G,
    after: &G,
    polls: Seq<Poll>,
    poll: Poll,
)
    requires
        before.valid(),
        before.evolves(sorted),
        sorted.valid(),
        !answered.degraded(),
        answered.valid(),
        after.told() == answered.told(),
        r.arranged(),
        r.fits_shown(),
        asked_every(sorted, answered, tokens_of(r.order_anchors@), polls),
        r.concluded(b, answered, after, polls, poll),
        poll.ready(),
        b.shown@ == (b.order_keys@, b.order_anchors@),
        answered.told().contains_key(r.order.token),
        r.order_keys@ == vector_view(<G as Reads<Vector<usize>>>::cast(answered.told()[r.order.token])),
        before.completed() && r.vals is Some ==> keyed_fits::<G, C, V, F>(r, before.seen()),
    ensures
        keyed_fits::<G, C, V, F>(b, after.told()),
{
    let items = r.order_anchors@;
    let tokens = tokens_of(items);
    before.evolves_keeps(sorted);
    sorted.evolves_keeps(answered);
    lemma_none_lost(r.order_keys@, items, polls);
    assert forall|k: int| 0 <= k < polls.len() implies (#[trigger] polls[k]).ready() by {
        assert(!polls[k].waiting());
        assert(!(polls[k] is PendingInvalidToken));
    }
    assert forall|k: int| 0 <= k < items.len() && (#[trigger] items[k]).source().target() is Some implies answered.told().contains_key(
        items[k].source().target()->0,
    ) by {
        assert(polls[k].ready());
        assert(tokens[k] == items[k].token);
    }
    lemma_supplied_more::<G::V, V, Anchor<V>>(items, answered.told(), answered.now());
    let fresh = choose|fresh: Seq<Option<V>>| #[trigger]
        all_taken::<G, V, Anchor<V>>(items, polls, r.anew(polls), answered, fresh) && if r.anew(polls) {
            poll is Updated && b.vals->0.items() == present(fresh)
        } else {
            &&& b.vals->0.items().len() == r.vals->0.items().len()
            &&& forall|k: int|
                0 <= k < fresh.len() ==> b.vals->0.items()[k] == (match #[trigger] fresh[k] {
                    Some(v) => v,
                    None => r.vals->0.items()[k],
                })
        };
    if r.anew(polls) {
        lemma_all_new::<G, V, Anchor<V>>(answered, items, polls, fresh);
    } else {
        assert forall|k: int| 0 <= k < items.len() implies stands::<G, V>((#[trigger] items[k]).source(), answered.told(), b.vals->0.items()[k]) by {
            assert(polls[k].ready());
            assert(taken::<G, V>(items[k].source(), polls[k], false, answered, fresh[k]));
            assert(tokens[k] == items[k].token);
            match fresh[k] {
                Some(v) => {
                    <G as Reads<V>>::reading_is_now(answered, items[k].token);
                },
                None => {
                    assert(polls[k] is Unchanged);
                    assert(before.completed());
                    assert(stands::<G, V>(r.shown@.1[k].source(), before.seen(), r.vals->0.items()[k]));
                    assert(before.seen().contains_key(items[k].token));
                },
            }
        }
    }
}

} // verus!
