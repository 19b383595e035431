//! Anchors that gather outputs into a sequence.

use crate::collections::asking::{any_lost, ask_in_turn, asked_in_turn, has_stopped, lost, stirred, stopped};
use crate::collections::persistent::POOL_LIMIT;
use crate::collections::sequence::Sequence;
use crate::expert::var_val_or_anchor::ValOrAnchor;
use crate::expert::{Anchor, AnchorInner, AnchorOutput, AnchorToken, OutputRef, Poll, Reads};
use im_rc::Vector;
use std::marker::PhantomData;
use vstd::prelude::*;

verus! {

/// Where an item of a sequence comes from.
pub enum Origin<'a, T> {
    Val(&'a T),
    Anchor(&'a Anchor<T>),
}

/// Something that stands for a value of type `T`.
pub trait Source<T>: Sized {
    spec fn source(&self) -> ValOrAnchor<T>;

    fn origin(&self) -> (origin: Origin<'_, T>)
        ensures
            match origin {
                Origin::Val(v) => self.source() == ValOrAnchor::Val(*v),
                Origin::Anchor(anchor) => self.source() == ValOrAnchor::Anchor(*anchor),
            },
    ;
}

impl<T> Source<T> for Anchor<T> {
    open spec fn source(&self) -> ValOrAnchor<T> {
        ValOrAnchor::Anchor(*self)
    }

    fn origin(&self) -> (origin: Origin<'_, T>) {
        Origin::Anchor(self)
    }
}

impl<T> Source<T> for ValOrAnchor<T> {
    open spec fn source(&self) -> ValOrAnchor<T> {
        *self
    }

    fn origin(&self) -> (origin: Origin<'_, T>) {
        match self {
            ValOrAnchor::Val(v) => Origin::Val(v),
            ValOrAnchor::Anchor(anchor) => Origin::Anchor(anchor),
        }
    }
}

/// An anchor whose output is the sequence of the values that `anchors` stand for. An anchor among
/// them that is gone is dropped from the sequence.
pub struct Collect<C, T, I> {
    pub anchors: Vec<I>,
    pub vals: Option<C>,
    pub dirty: bool,
    pub phantom: PhantomData<T>,
}

pub type VecCollect<T> = Collect<Vec<T>, T, Anchor<T>>;

pub type VectorCollect = Collect<Vector<usize>, usize, Anchor<usize>>;

pub type VectorVOACollect = Collect<Vector<usize>, usize, ValOrAnchor<usize>>;

impl<C: Sequence<T>, T, I: Source<T>> Collect<C, T, I> {
    pub fn new_to_anchor(anchors: Vec<I>) -> (collect: Self)
        ensures
            collect == (Collect { anchors, vals: None::<C>, dirty: true, phantom: PhantomData::<T> }),
            collect.inv(),
    {
        Collect { anchors, vals: None, dirty: true, phantom: PhantomData }
    }
}

/// The anchors among `items`.
pub open spec fn targets<T, I: Source<T>>(items: Seq<I>) -> Seq<Option<AnchorToken>> {
    Seq::new(items.len(), |k: int| items[k].source().target())
}

/// Every anchor among `items` is in `told`.
pub open spec fn supplied<V, T, I: Source<T>>(items: Seq<I>, told: Map<AnchorToken, V>) -> bool {
    forall|k: int| 0 <= k < items.len() && (#[trigger] items[k]).source().target() is Some ==> told.contains_key(items[k].source().target()->0)
}

/// Some item is the anchor `d`.
pub open spec fn supplies<T, I: Source<T>>(items: Seq<I>, d: AnchorToken) -> bool {
    exists|k: int| 0 <= k < items.len() && (#[trigger] items[k]).source().target() == Some(d)
}

/// `value` is a clone of what `item` stands for, given the outputs of all anchors.
pub open spec fn stands<G: Reads<T>, T: Clone>(item: ValOrAnchor<T>, outs: Map<AnchorToken, G::V>, value: T) -> bool {
    match item {
        ValOrAnchor::Val(v) => cloned(v, value),
        ValOrAnchor::Anchor(anchor) => cloned(G::cast(outs[anchor.token]), value),
    }
}

/// `values` are clones of what `items` stand for, given the outputs of all anchors.
pub open spec fn gathered<G: Reads<T>, T: Clone, I: Source<T>>(
    items: Seq<I>,
    outs: Map<AnchorToken, G::V>,
    values: Seq<T>,
) -> bool {
    &&& values.len() == items.len()
    &&& forall|k: int| 0 <= k < items.len() ==> stands::<G, T>((#[trigger] items[k]).source(), outs, values[k])
}

/// The items that are values themselves are in `values`.
pub open spec fn constants<T: Clone, I: Source<T>>(items: Seq<I>, values: Seq<T>) -> bool {
    forall|k: int| 0 <= k < items.len() && (#[trigger] items[k]).source() is Val ==> cloned(items[k].source()->Val_0, values[k])
}

/// The items that are not gone.
pub open spec fn kept<I>(items: Seq<I>, polls: Seq<Poll>) -> Seq<I>
    decreases items.len(),
{
    if items.len() == 0 {
        Seq::empty()
    } else {
        let before = kept(items.drop_last(), polls);
        if polls[items.len() - 1] is PendingInvalidToken {
            before
        } else {
            before.push(items.last())
        }
    }
}

/// The values that there are.
pub open spec fn present<T>(fresh: Seq<Option<T>>) -> Seq<T>
    decreases fresh.len(),
{
    if fresh.len() == 0 {
        Seq::empty()
    } else {
        match fresh.last() {
            Some(v) => present(fresh.drop_last()).push(v),
            None => present(fresh.drop_last()),
        }
    }
}

/// What is taken anew of one item: everything that is not gone if `whole`, and else what has changed.
pub open spec fn taken<G: Reads<T>, T: Clone>(item: ValOrAnchor<T>, poll: Poll, whole: bool, ctx: &G, fresh: Option<T>) -> bool {
    match item {
        ValOrAnchor::Val(v) => if whole {
            fresh is Some && cloned(v, fresh->0)
        } else {
            fresh is None
        },
        ValOrAnchor::Anchor(anchor) => if (whole && !(poll is PendingInvalidToken)) || poll is Updated {
            &&& ctx.reading(anchor.token) is Some
            &&& fresh is Some
            &&& cloned(ctx.reading(anchor.token)->0, fresh->0)
        } else {
            fresh is None
        },
    }
}

/// What is taken anew of `items`.
pub open spec fn all_taken<G: Reads<T>, T: Clone, I: Source<T>>(
    items: Seq<I>,
    polls: Seq<Poll>,
    whole: bool,
    ctx: &G,
    fresh: Seq<Option<T>>,
) -> bool {
    &&& fresh.len() == items.len()
    &&& forall|k: int| 0 <= k < items.len() ==> taken::<G, T>((#[trigger] items[k]).source(), polls[k], whole, ctx, fresh[k])
}

/// Some item has to be taken anew and cannot be read.
pub open spec fn unreadable<G: Reads<T>, T: Clone, I: Source<T>>(items: Seq<I>, polls: Seq<Poll>, whole: bool, ctx: &G) -> bool {
    exists|k: int|
        0 <= k < items.len() && (#[trigger] items[k]).source().target() is Some && ((whole && !(polls[k] is PendingInvalidToken))
            || polls[k] is Updated) && ctx.reading(items[k].source().target()->0) is None
}

/// What a poll makes of a gathering: `a` becomes `b` while the context goes from `before` to `after`.
pub open spec fn collect_step<G: Reads<T>, C: Sequence<T>, T: Clone, I: Source<T>>(
    a: Collect<C, T, I>,
    b: Collect<C, T, I>,
    before: &G,
    after: &G,
    poll: Poll,
) -> bool {
    if !a.dirty {
        b == a && *after == *before && poll is Unchanged
    } else {
        exists|polls: Seq<Poll>| #[trigger]
            asked_in_turn(before, after, targets::<T, I>(a.anchors@), polls) && collect_answered(a, b, after, polls, poll)
    }
}

/// The sequence has to be built anew, and not only renewed in places.
pub open spec fn anew<C, T, I>(a: Collect<C, T, I>, polls: Seq<Poll>) -> bool {
    lost(polls) || a.vals is None
}

/// What comes of the answers to a gathering's requests.
pub open spec fn collect_answered<G: Reads<T>, C: Sequence<T>, T: Clone, I: Source<T>>(
    a: Collect<C, T, I>,
    b: Collect<C, T, I>,
    after: &G,
    polls: Seq<Poll>,
    poll: Poll,
) -> bool {
    if stopped(polls) {
        b == a && poll is Pending
    } else if unreadable::<G, T, I>(a.anchors@, polls, anew(a, polls), after) {
        b == a && poll is PendingInvalidToken
    } else {
        &&& !b.dirty
        &&& b.vals is Some
        &&& exists|fresh: Seq<Option<T>>| #[trigger]
            all_taken::<G, T, I>(a.anchors@, polls, anew(a, polls), after, fresh) && if anew(a, polls) {
                &&& poll is Updated
                &&& b.anchors@ == kept(a.anchors@, polls)
                &&& b.vals->0.items() == present(fresh)
            } else {
                &&& poll == (if stirred(polls) {
                    Poll::Updated
                } else {
                    Poll::Unchanged
                })
                &&& b.anchors == a.anchors
                &&& b.vals->0.items().len() == a.vals->0.items().len()
                &&& forall|k: int|
                    0 <= k < fresh.len() ==> b.vals->0.items()[k] == (match #[trigger] fresh[k] {
                        Some(v) => v,
                        None => a.vals->0.items()[k],
                    })
            }
    }
}

impl<C: Sequence<T>, T, I: Source<T>> AnchorOutput for Collect<C, T, I> {
    type Output = C;

    type Handed = ();

    open spec fn inv(&self) -> bool {
        &&& !self.dirty ==> self.vals is Some
        &&& self.vals is Some ==> self.vals->0.items().len() == self.anchors@.len()
    }

    open spec fn had(&self) -> bool {
        self.vals is Some
    }

    open spec fn alias(&self) -> Option<AnchorToken> {
        None
    }

    open spec fn own(&self) -> C {
        self.vals->0
    }

    open spec fn honest(&self) -> bool {
        true
    }

    open spec fn outside(&self) -> Option<()> {
        None
    }

    open spec fn displays(handed: (), out: C) -> bool {
        true
    }

    fn output(&self) -> (out: OutputRef<'_, C>) {
        OutputRef::Own(self.vals.as_ref().unwrap())
    }
}

impl<C: Sequence<T>, T: Clone, I: Source<T>> Collect<C, T, I> {
    fn target_list(&self) -> (list: Vec<Option<AnchorToken>>)
        ensures
            list@ == targets::<T, I>(self.anchors@),
    {
        let mut list: Vec<Option<AnchorToken>> = Vec::new();
        let mut k: usize = 0;
        while k < self.anchors.len()
            invariant
                k <= self.anchors@.len(),
                list@ =~= targets::<T, I>(self.anchors@).take(k as int),
            decreases self.anchors@.len() - k,
        {
            match self.anchors[k].origin() {
                Origin::Val(_) => {
                    list.push(None);
                },
                Origin::Anchor(anchor) => {
                    list.push(Some(anchor.token));
                },
            }
            k = k + 1;
        }
        list
    }
}

/// Takes what is wanted, if it can be read.
pub fn take_anew<G: Reads<T>, T: Clone, I: Source<T>>(anchors: &Vec<I>, ctx: &G, polls: &Vec<Poll>, whole: bool) -> (fresh: Option<Vec<Option<T>>>)
    requires
        ctx.valid(),
        polls@.len() == anchors@.len(),
        forall|k: int|
            0 <= k < polls@.len() && anchors@[k].source().target() is None ==> (#[trigger] polls@[k]) is Unchanged,
    ensures
        fresh is None <==> unreadable::<G, T, I>(anchors@, polls@, whole, ctx),
        fresh is Some ==> all_taken::<G, T, I>(anchors@, polls@, whole, ctx, fresh->0@),
{
    let mut fresh: Vec<Option<T>> = Vec::new();
    let mut k: usize = 0;
    while k < anchors.len()
        invariant
            k <= anchors@.len(),
            ctx.valid(),
            polls@.len() == anchors@.len(),
            forall|m: int|
                0 <= m < polls@.len() && anchors@[m].source().target() is None ==> (#[trigger] polls@[m]) is Unchanged,
            fresh@.len() == k,
            forall|m: int|
                0 <= m < k ==> taken::<G, T>((#[trigger] anchors@[m]).source(), polls@[m], whole, ctx, fresh@[m]),
        decreases anchors@.len() - k,
    {
        let ghost given = fresh@;
        match anchors[k].origin() {
            Origin::Val(v) => {
                if whole {
                    fresh.push(Some(v.clone()));
                } else {
                    fresh.push(None);
                }
            },
            Origin::Anchor(anchor) => {
                let poll: Poll = polls[k];
                if (whole && !poll.is_invalid_token()) || poll == Poll::Updated {
                    match ctx.get(anchor) {
                        Some(v) => {
                            fresh.push(Some(v.clone()));
                        },
                        None => {
                            assert(unreadable::<G, T, I>(anchors@, polls@, whole, ctx)) by {
                                let item = anchors@[k as int];
                                assert(item.source().target() == Some(anchor.token));
                            }
                            return None;
                        },
                    }
                } else {
                    fresh.push(None);
                }
            },
        }
        assert forall|m: int| 0 <= m < k + 1 implies taken::<G, T>((#[trigger] anchors@[m]).source(), polls@[m], whole, ctx, fresh@[m]) by {
            if m < k {
                assert(fresh@[m] == given[m]);
            }
        }
        k = k + 1;
    }
    proof {
        if unreadable::<G, T, I>(anchors@, polls@, whole, ctx) {
            let m = choose|m: int|
                0 <= m < anchors@.len() && (#[trigger] anchors@[m]).source().target() is Some && ((whole && !(polls@[m] is PendingInvalidToken))
                    || polls@[m] is Updated) && ctx.reading(anchors@[m].source().target()->0) is None;
            assert(taken::<G, T>(anchors@[m].source(), polls@[m], whole, ctx, fresh@[m]));
        }
    }
    Some(fresh)
}

/// Drops what is gone.
pub fn drop_lost<I>(items: &mut Vec<I>, polls: &Vec<Poll>)
    requires
        polls@.len() == old(items)@.len(),
    ensures
        final(items)@ == kept(old(items)@, polls@),
{
    let ghost all = items@;
    let mut k: usize = 0;
    let mut at: usize = 0;
    while k < polls.len()
        invariant
            k <= polls@.len(),
            polls@.len() == all.len(),
            at <= k,
            items@ =~= kept(all.take(k as int), polls@) + all.skip(k as int),
            kept(all.take(k as int), polls@).len() == at,
        decreases polls@.len() - k,
    {
        proof {
            assert(all.take(k as int + 1).drop_last() =~= all.take(k as int));
            assert(all.take(k as int + 1).last() == all[k as int]);
            assert(all.skip(k as int) =~= seq![all[k as int]] + all.skip(k as int + 1));
            assert(items@[at as int] == all[k as int]);
        }
        if polls[k].is_invalid_token() {
            let _ = items.remove(at);
        } else {
            at = at + 1;
        }
        k = k + 1;
    }
    assert(all.take(k as int) =~= all);
}

/// Builds the sequence of the values that there are.
pub fn fill<C: Sequence<T>, T>(fresh: Vec<Option<T>>, pool_size: usize) -> (c: C)
    requires
        pool_size <= POOL_LIMIT,
    ensures
        c.items() == present(fresh@),
{
    let mut c = C::with_pool(pool_size);
    let ghost all = fresh@;
    let mut fresh = fresh;
    let mut k: usize = 0;
    while k < fresh.len()
        invariant
            k <= fresh@.len(),
            fresh@.len() == all.len(),
            forall|m: int| k <= m < all.len() ==> fresh@[m] == all[m],
            c.items() == present(all.take(k as int)),
        decreases fresh@.len() - k,
    {
        let item: Option<T> = fresh[k].take();
        proof {
            assert(all.take(k as int + 1).drop_last() =~= all.take(k as int));
            assert(all.take(k as int + 1).last() == all[k as int]);
        }
        match item {
            Some(v) => {
                c.push_item(v);
            },
            None => {},
        }
        k = k + 1;
    }
    assert(all.take(k as int) =~= all);
    c
}

/// Puts new values in place, and says whether there are any.
pub fn renew<C: Sequence<T>, T>(vals: &mut C, fresh: Vec<Option<T>>) -> (changed: bool)
    requires
        fresh@.len() == old(vals).items().len(),
    ensures
        changed == exists|k: int| 0 <= k < fresh@.len() && (#[trigger] fresh@[k]) is Some,
        !changed ==> *final(vals) == *old(vals),
        final(vals).items().len() == old(vals).items().len(),
        forall|k: int|
            0 <= k < fresh@.len() ==> final(vals).items()[k] == (match #[trigger] fresh@[k] {
                Some(v) => v,
                None => old(vals).items()[k],
            }),
{
    let ghost was = *vals;
    let ghost all = fresh@;
    let mut fresh = fresh;
    let mut changed = false;
    let mut k: usize = 0;
    while k < fresh.len()
        invariant
            k <= fresh@.len(),
            fresh@.len() == all.len(),
            was.items().len() == all.len(),
            vals.items().len() == was.items().len(),
            forall|m: int| k <= m < all.len() ==> fresh@[m] == all[m],
            forall|m: int| k <= m < all.len() ==> vals.items()[m] == was.items()[m],
            forall|m: int|
                0 <= m < k ==> vals.items()[m] == (match #[trigger] all[m] {
                    Some(v) => v,
                    None => was.items()[m],
                }),
            changed == exists|m: int| 0 <= m < k && (#[trigger] all[m]) is Some,
            !changed ==> *vals == was,
        decreases fresh@.len() - k,
    {
        let item: Option<T> = fresh[k].take();
        assert(item == all[k as int]);
        match item {
            Some(v) => {
                vals.set_item(k, v);
                changed = true;
            },
            None => {},
        }
        k = k + 1;
    }
    changed
}

/// As many blocks as there are items, within bounds.
pub fn pool_for(len: usize) -> (size: usize)
    ensures
        len <= POOL_LIMIT ==> size == len,
        len > POOL_LIMIT ==> size == POOL_LIMIT,
{
    if len <= POOL_LIMIT {
        len
    } else {
        POOL_LIMIT
    }
}

pub proof fn lemma_supplied_less<G: Reads<T>, T: Clone, I: Source<T>>(
    items: Seq<I>,
    told: Map<AnchorToken, G::V>,
    less: Map<AnchorToken, G::V>,
)
    requires
        supplied::<G::V, T, I>(items, told),
        less.submap_of(told),
        forall|d: AnchorToken| told.contains_key(d) && supplies(items, d) ==> #[trigger] less.contains_key(d),
    ensures
        supplied::<G::V, T, I>(items, less),
        forall|k: int|
            0 <= k < items.len() && (#[trigger] items[k]).source().target() is Some ==> told[items[k].source().target()->0]
                == less[items[k].source().target()->0],
{
    assert forall|k: int| 0 <= k < items.len() && (#[trigger] items[k]).source().target() is Some implies less.contains_key(
        items[k].source().target()->0,
    ) && told[items[k].source().target()->0] == less[items[k].source().target()->0] by {
        let t = items[k].source().target()->0;
        assert(supplies(items, t));
        assert(less.contains_key(t));
        assert(less.dom().contains(t));
    }
}

pub proof fn lemma_gathered_agreeing<G: Reads<T>, T: Clone, I: Source<T>>(
    items: Seq<I>,
    a: Map<AnchorToken, G::V>,
    b: Map<AnchorToken, G::V>,
    values: Seq<T>,
)
    requires
        gathered::<G, T, I>(items, a, values),
        forall|k: int|
            0 <= k < items.len() && (#[trigger] items[k]).source().target() is Some ==> a[items[k].source().target()->0]
                == b[items[k].source().target()->0],
    ensures
        gathered::<G, T, I>(items, b, values),
{
    assert forall|k: int| 0 <= k < items.len() implies stands::<G, T>((#[trigger] items[k]).source(), b, values[k]) by {
        assert(stands::<G, T>(items[k].source(), a, values[k]));
    }
}

pub(crate) proof fn lemma_supplied_more<V, T, I: Source<T>>(items: Seq<I>, told: Map<AnchorToken, V>, more: Map<AnchorToken, V>)
    requires
        supplied::<V, T, I>(items, told),
        told.submap_of(more),
    ensures
        supplied::<V, T, I>(items, more),
        forall|k: int|
            0 <= k < items.len() && (#[trigger] items[k]).source().target() is Some ==> told[items[k].source().target()->0]
                == more[items[k].source().target()->0],
{
    assert forall|k: int| 0 <= k < items.len() && (#[trigger] items[k]).source().target() is Some implies more.contains_key(
        items[k].source().target()->0,
    ) && told[items[k].source().target()->0] == more[items[k].source().target()->0] by {
        let token = items[k].source().target()->0;
        assert(told.contains_key(token));
        assert(told.dom().contains(token));
        assert(more.dom().contains(token));
    }
}

/// Where nothing is gone, everything is kept.
proof fn lemma_kept_all<I>(items: Seq<I>, polls: Seq<Poll>)
    requires
        items.len() <= polls.len(),
        forall|k: int| 0 <= k < items.len() ==> !((#[trigger] polls[k]) is PendingInvalidToken),
    ensures
        kept(items, polls) == items,
    decreases items.len(),
{
    if items.len() > 0 {
        lemma_kept_all(items.drop_last(), polls);
        assert(items.drop_last().push(items.last()) =~= items);
    }
}

proof fn lemma_present_all<T>(fresh: Seq<Option<T>>)
    requires
        forall|k: int| 0 <= k < fresh.len() ==> (#[trigger] fresh[k]) is Some,
    ensures
        present(fresh) == Seq::new(fresh.len(), |k: int| fresh[k]->0),
    decreases fresh.len(),
{
    if fresh.len() > 0 {
        lemma_present_all(fresh.drop_last());
        assert(fresh.last() is Some);
        assert(present(fresh) =~= Seq::new(fresh.len(), |k: int| fresh[k]->0));
    } else {
        assert(present(fresh) =~= Seq::new(fresh.len(), |k: int| fresh[k]->0));
    }
}

/// As many items are kept as values are taken.
pub(crate) proof fn lemma_as_many<G: Reads<T>, T: Clone, I: Source<T>>(items: Seq<I>, polls: Seq<Poll>, ctx: &G, fresh: Seq<Option<T>>)
    requires
        items.len() == polls.len(),
        all_taken::<G, T, I>(items, polls, true, ctx, fresh),
        forall|k: int| 0 <= k < items.len() && (#[trigger] items[k]).source().target() is None ==> polls[k] is Unchanged,
    ensures
        kept(items, polls).len() == present(fresh).len(),
    decreases items.len(),
{
    lemma_as_many_of(items, polls, ctx, fresh, items.len() as int);
    assert(items.take(items.len() as int) =~= items);
    assert(fresh.take(items.len() as int) =~= fresh);
}

proof fn lemma_as_many_of<G: Reads<T>, T: Clone, I: Source<T>>(items: Seq<I>, polls: Seq<Poll>, ctx: &G, fresh: Seq<Option<T>>, n: int)
    requires
        0 <= n <= items.len(),
        items.len() == polls.len(),
        all_taken::<G, T, I>(items, polls, true, ctx, fresh),
        forall|k: int| 0 <= k < items.len() && (#[trigger] items[k]).source().target() is None ==> polls[k] is Unchanged,
    ensures
        kept(items.take(n), polls).len() == present(fresh.take(n)).len(),
    decreases n,
{
    if n > 0 {
        lemma_as_many_of(items, polls, ctx, fresh, n - 1);
        assert(items.take(n).drop_last() =~= items.take(n - 1));
        assert(fresh.take(n).drop_last() =~= fresh.take(n - 1));
        assert(taken::<G, T>(items[n - 1].source(), polls[n - 1], true, ctx, fresh[n - 1]));
        assert(fresh.take(n).last() == fresh[n - 1]);
        assert(items[n - 1].source().target() is None ==> polls[n - 1] is Unchanged);
    }
}

impl<G: Reads<T>, C: Sequence<T>, T: Clone, I: Source<T>> AnchorInner<G> for Collect<C, T, I> {
    open spec fn current(&self) -> bool {
        true
    }

    open spec fn holds(&self, told: Map<AnchorToken, G::V>) -> bool {
        &&& self.vals is Some ==> constants(self.anchors@, self.vals->0.items())
        &&& !self.dirty ==> supplied::<G::V, T, I>(self.anchors@, told) && gathered::<G, T, I>(self.anchors@, told, self.vals->0.items())
    }

    open spec fn sound(&self, told: Map<AnchorToken, G::V>) -> bool {
        &&& self.vals is Some
        &&& supplied::<G::V, T, I>(self.anchors@, told)
        &&& gathered::<G, T, I>(self.anchors@, told, self.vals->0.items())
    }

    open spec fn right(&self, seen: Map<AnchorToken, G::V>) -> bool {
        self.vals is Some ==> supplied::<G::V, T, I>(self.anchors@, seen) && gathered::<G, T, I>(
            self.anchors@,
            seen,
            self.vals->0.items(),
        )
    }

    open spec fn hears(&self, later: &Self, edge: AnchorToken) -> bool {
        *later == (Collect { dirty: true, ..*self })
    }

    open spec fn polls(&self, later: &Self, before: &G, after: &G, poll: Poll) -> bool {
        collect_step(*self, *later, before, after, poll)
    }

    open spec fn leans_on(&self, told: Map<AnchorToken, G::V>, d: AnchorToken) -> bool {
        supplies(self.anchors@, d)
    }

    proof fn less_told(&self, told: Map<AnchorToken, G::V>, less: Map<AnchorToken, G::V>) {
        lemma_supplied_less::<G, T, I>(self.anchors@, told, less);
        lemma_gathered_agreeing::<G, T, I>(self.anchors@, told, less, self.vals->0.items());
    }

    proof fn more_told(&self, told: Map<AnchorToken, G::V>, more: Map<AnchorToken, G::V>) {
        if supplied::<G::V, T, I>(self.anchors@, told) {
            lemma_supplied_more::<G::V, T, I>(self.anchors@, told, more);
            if gathered::<G, T, I>(self.anchors@, told, self.vals->0.items()) {
                lemma_gathered_agreeing::<G, T, I>(self.anchors@, told, more, self.vals->0.items());
            }
        }
    }

    proof fn shows_outside(&self) {
    }

    fn dirty(&mut self, edge: AnchorToken) {
        self.dirty = true;
    }

    fn poll_updated(&mut self, ctx: &mut G) -> (poll: Poll) {
        let ghost a = *self;
        let ghost before = *ctx;
        proof {
            before.evolves_reflexive();
        }
        if !self.dirty {
            return Poll::Unchanged;
        }
        let list: Vec<Option<AnchorToken>> = self.target_list();
        let polls: Vec<Poll> = ask_in_turn(ctx, &list);
        let ghost items = self.anchors@;
        proof {
            before.evolves_keeps(ctx);
            assert(asked_in_turn(&before, ctx, targets::<T, I>(a.anchors@), polls@));
        }
        if has_stopped(&polls) {
            return Poll::Pending;
        }
        assert forall|k: int| 0 <= k < polls@.len() && items[k].source().target() is None implies (#[trigger] polls@[k]) is Unchanged by {
            assert(list@[k] is None);
        }
        let gone: bool = any_lost(&polls);
        let whole: bool = gone || self.vals.is_none();
        let fresh: Vec<Option<T>> = match take_anew(&self.anchors, ctx, &polls, whole) {
            Some(fresh) => fresh,
            None => {
                return Poll::PendingInvalidToken;
            },
        };
        let ghost new = fresh@;
        proof {
            if !ctx.degraded() {
                lemma_answers_supply::<G, T, I>(&before, ctx, items, polls@);
            }
        }
        self.dirty = false;
        if whole {
            let size: usize = pool_for(fresh.len());
            let vals: C = fill(fresh, size);
            drop_lost(&mut self.anchors, &polls);
            self.vals = Some(vals);
            proof {
                lemma_as_many::<G, T, I>(items, polls@, ctx, new);
                if !ctx.degraded() {
                    lemma_all_new::<G, T, I>(ctx, items, polls@, new);
                }
            }
            assert(collect_answered(a, *self, ctx, polls@, Poll::Updated)) by {
                assert(all_taken::<G, T, I>(a.anchors@, polls@, anew(a, polls@), ctx, new));
            }
            return Poll::Updated;
        }
        let mut vals: Option<C> = None;
        std::mem::swap(&mut self.vals, &mut vals);
        let mut changed: bool = false;
        match vals {
            Some(mut vals) => {
                changed = renew(&mut vals, fresh);
                self.vals = Some(vals);
            },
            None => {},
        }
        proof {
            assert(all_taken::<G, T, I>(items, polls@, false, ctx, new));
            assert(changed == stirred(polls@)) by {
                if changed {
                    let k = choose|k: int| 0 <= k < new.len() && (#[trigger] new[k]) is Some;
                    assert(taken::<G, T>(items[k].source(), polls@[k], false, ctx, new[k]));
                    assert(polls@[k] is Updated);
                }
                if stirred(polls@) {
                    let k = choose|k: int| 0 <= k < polls@.len() && (#[trigger] polls@[k]) is Updated;
                    assert(taken::<G, T>(items[k].source(), polls@[k], false, ctx, new[k]));
                    assert(new[k] is Some);
                }
            }
            if !ctx.degraded() {
                lemma_some_new::<G, C, T, I>(a, *self, &before, ctx, polls@, new);
            }
        }
        let poll: Poll = if changed {
            Poll::Updated
        } else {
            Poll::Unchanged
        };
        assert(collect_answered(a, *self, ctx, polls@, poll)) by {
            assert(all_taken::<G, T, I>(a.anchors@, polls@, anew(a, polls@), ctx, new));
        }
        poll
    }
}

/// Once every item has been asked for, the context has given what they stand for.
proof fn lemma_answers_supply<G: Reads<T>, T: Clone, I: Source<T>>(before: &G, after: &G, items: Seq<I>, polls: Seq<Poll>)
    requires
        !after.degraded(),
        asked_in_turn(before, after, targets::<T, I>(items), polls),
        !stopped(polls),
    ensures
        polls.len() == items.len(),
        supplied::<G::V, T, I>(items, after.told()),
        forall|k: int| 0 <= k < polls.len() ==> (#[trigger] polls[k]).ready(),
{
    let list = targets::<T, I>(items);
    assert forall|k: int| 0 <= k < polls.len() implies (#[trigger] polls[k]).ready() by {
        assert(!(polls[k] is PendingInvalidToken)) by {
            if polls[k] is PendingInvalidToken {
                assert(lost(polls));
            }
        }
        if polls[k].waiting() {
            assert(k == polls.len() - 1);
        }
    }
    assert forall|k: int| 0 <= k < items.len() && (#[trigger] items[k]).source().target() is Some implies after.told().contains_key(
        items[k].source().target()->0,
    ) by {
        assert(list[k] == items[k].source().target());
        assert(polls[k].ready());
    }
}

/// A sequence that was built anew is the right one.
pub(crate) proof fn lemma_all_new<G: Reads<T>, T: Clone, I: Source<T>>(ctx: &G, items: Seq<I>, polls: Seq<Poll>, fresh: Seq<Option<T>>)
    requires
        ctx.valid(),
        !ctx.degraded(),
        ctx.told().submap_of(ctx.now()),
        polls.len() == items.len(),
        forall|k: int| 0 <= k < polls.len() ==> (#[trigger] polls[k]).ready(),
        supplied::<G::V, T, I>(items, ctx.told()),
        all_taken::<G, T, I>(items, polls, true, ctx, fresh),
    ensures
        kept(items, polls) == items,
        gathered::<G, T, I>(items, ctx.told(), present(fresh)),
{
    lemma_supplied_more::<G::V, T, I>(items, ctx.told(), ctx.now());
    assert forall|k: int| 0 <= k < items.len() implies !((#[trigger] polls[k]) is PendingInvalidToken) by {
        assert(polls[k].ready());
    }
    lemma_kept_all(items, polls);
    assert forall|k: int| 0 <= k < fresh.len() implies (#[trigger] fresh[k]) is Some by {
        assert(polls[k].ready());
        assert(taken::<G, T>(items[k].source(), polls[k], true, ctx, fresh[k]));
    }
    lemma_present_all(fresh);
    assert forall|k: int| 0 <= k < items.len() implies stands::<G, T>((#[trigger] items[k]).source(), ctx.told(), present(fresh)[k]) by {
        assert(polls[k].ready());
        assert(taken::<G, T>(items[k].source(), polls[k], true, ctx, fresh[k]));
        if items[k].source().target() is Some {
            ctx.reading_is_now(items[k].source().target()->0);
        }
    }
}

/// A sequence whose changed items were renewed is the right one.
proof fn lemma_some_new<G: Reads<T>, C: Sequence<T>, T: Clone, I: Source<T>>(
    a: Collect<C, T, I>,
    b: Collect<C, T, I>,
    before: &G,
    ctx: &G,
    polls: Seq<Poll>,
    fresh: Seq<Option<T>>,
)
    requires
        before.valid(),
        before.evolves(ctx),
        !ctx.degraded(),
        a.inv(),
        a.vals is Some,
        b.vals is Some,
        constants(a.anchors@, a.vals->0.items()),
        before.completed() ==> AnchorInner::<G>::right(&a, before.seen()),
        asked_in_turn(before, ctx, targets::<T, I>(a.anchors@), polls),
        !stopped(polls),
        all_taken::<G, T, I>(a.anchors@, polls, false, ctx, fresh),
        b.vals->0.items().len() == a.vals->0.items().len(),
        forall|k: int|
            0 <= k < fresh.len() ==> b.vals->0.items()[k] == (match #[trigger] fresh[k] {
                Some(v) => v,
                None => a.vals->0.items()[k],
            }),
    ensures
        gathered::<G, T, I>(a.anchors@, ctx.told(), b.vals->0.items()),
{
    let items = a.anchors@;
    let list = targets::<T, I>(items);
    before.evolves_keeps(ctx);
    lemma_answers_supply::<G, T, I>(before, ctx, items, polls);
    lemma_supplied_more::<G::V, T, I>(items, ctx.told(), ctx.now());
    assert forall|k: int| 0 <= k < items.len() implies stands::<G, T>((#[trigger] items[k]).source(), ctx.told(), b.vals->0.items()[k]) by {
        assert(polls[k].ready());
        assert(taken::<G, T>(items[k].source(), polls[k], false, ctx, fresh[k]));
        assert(list[k] == items[k].source().target());
        match fresh[k] {
            Some(v) => {
                ctx.reading_is_now(items[k].source().target()->0);
            },
            None => {
                assert(polls[k] is Unchanged);
                assert(b.vals->0.items()[k] == a.vals->0.items()[k]);
            },
        }
    }
}

} // verus!
