//! Tuples of anchors that another anchor is calculated from.

use crate::expert::equal::{alike, equal, unlike};
use crate::expert::{Anchor, AnchorToken, Call, Poll, Reads, UpdateContext};
use vstd::prelude::*;

verus! {

/// The anchors that another anchor is calculated from.
pub trait Inputs {
    spec fn tokens(&self) -> Seq<AnchorToken>;

    proof fn some(&self)
        ensures
            self.tokens().len() > 0,
    ;

    fn list(&self) -> (list: Vec<AnchorToken>)
        ensures
            list@ == self.tokens(),
    ;
}

/// Inputs whose outputs are what functions of type `F` take.
pub trait Takes<F, R>: Inputs {
    /// `f` can be called on any outputs.
    spec fn callable(&self, f: F) -> bool;
}

/// Inputs whose outputs can be read from contexts of type `G`.
pub trait Applies<G: UpdateContext, F, R>: Takes<F, R> {
    /// `r` is a result of `f` on the outputs that `outs` holds.
    spec fn gives(&self, f: F, outs: Map<AnchorToken, G::V>, r: R) -> bool;

    /// `r` is a result of `f` on the outputs as they are read.
    spec fn gives_read(&self, f: F, ctx: &G, r: R) -> bool;

    /// All outputs can be read.
    spec fn readable(&self, ctx: &G) -> bool;

    /// A result rests on the outputs of the inputs alone.
    proof fn depends(&self, f: F, a: Map<AnchorToken, G::V>, b: Map<AnchorToken, G::V>, r: R)
        requires
            forall|k: int| 0 <= k < self.tokens().len() ==> a[#[trigger] self.tokens()[k]] == b[self.tokens()[k]],
        ensures
            self.gives(f, a, r) == self.gives(f, b, r),
    ;

    /// Calls `f` on the outputs, if they can be read.
    fn apply(&self, f: &mut F, ctx: &G) -> (r: Option<R>)
        requires
            ctx.valid(),
            self.callable(*old(f)),
        ensures
            *final(f) == *old(f),
            r is Some <==> self.readable(ctx),
            r is Some ==> self.gives_read(*old(f), ctx, r->0),
            r is Some && !ctx.degraded() ==> self.gives(*old(f), ctx.now(), r->0),
    ;
}

/// The value behind a reference.
pub open spec fn behind<Out>(out: &mut Out) -> Out {
    *out
}

/// Inputs whose outputs are what functions of type `F` take that work on a value of type `Out`.
pub trait TakesMut<F, Out>: Inputs {
    /// `f` can be called on any value and any outputs.
    spec fn callable_mut(&self, f: F) -> bool;
}

pub trait AppliesMut<G: UpdateContext, F, Out>: TakesMut<F, Out> {
    /// `f`, called on the value behind `out` and the outputs as they are read, can answer `changed`.
    spec fn makes(&self, f: F, out: &mut Out, ctx: &G, changed: bool) -> bool;

    /// All outputs can be read.
    spec fn readable_mut(&self, ctx: &G) -> bool;

    /// Calls `f` on a value and the outputs, if they can be read.
    fn apply_mut(&self, f: &mut F, out: &mut Out, ctx: &G) -> (changed: Option<bool>)
        requires
            ctx.valid(),
            self.callable_mut(*old(f)),
        ensures
            *final(f) == *old(f),
            changed is Some <==> self.readable_mut(ctx),
            changed is None ==> *final(out) == *old(out),
            changed is Some ==> exists|o: &mut Out|
                #[trigger] behind(o) == *old(out) && *final(o) == *final(out) && self.makes(*old(f), o, ctx, changed->0),
    ;
}

/// Inputs whose outputs can be kept, and compared with later ones.
pub trait Snapshots<G: UpdateContext>: Inputs {
    type Values;

    /// All outputs can be read.
    spec fn all_read(&self, ctx: &G) -> bool;

    /// `values` are clones of the outputs as they are read.
    spec fn copied(&self, ctx: &G, values: Self::Values) -> bool;

    /// `values` are clones of the outputs that `outs` holds.
    spec fn copies(&self, outs: Map<AnchorToken, G::V>, values: Self::Values) -> bool;

    /// `==` finds no difference.
    spec fn values_alike(a: Self::Values, b: Self::Values) -> bool;

    /// `==` finds some difference.
    spec fn values_unlike(a: Self::Values, b: Self::Values) -> bool;

    /// Clones are those of the outputs of the inputs alone.
    proof fn copies_depend(&self, a: Map<AnchorToken, G::V>, b: Map<AnchorToken, G::V>, values: Self::Values)
        requires
            forall|k: int| 0 <= k < self.tokens().len() ==> a[#[trigger] self.tokens()[k]] == b[self.tokens()[k]],
        ensures
            self.copies(a, values) == self.copies(b, values),
    ;

    /// Clones the outputs, if they can be read.
    fn snapshot(&self, ctx: &G) -> (values: Option<Self::Values>)
        requires
            ctx.valid(),
        ensures
            values is Some <==> self.all_read(ctx),
            values is Some ==> self.copied(ctx, values->0),
            values is Some && !ctx.degraded() ==> self.copies(ctx.now(), values->0),
    ;

    fn same_values(a: &Self::Values, b: &Self::Values) -> (same: bool)
        ensures
            same ==> Self::values_alike(*a, *b),
            !same ==> Self::values_unlike(*a, *b),
    ;
}

/// What comes of requests for a number of anchors.
#[derive(Clone, Copy, Debug, PartialEq, Eq, Structural)]
pub struct Found {
    pub pending: bool,
    pub invalid: bool,
    pub updated: bool,
}

/// What answers come to.
pub open spec fn found(polls: Seq<Poll>) -> Found {
    Found {
        pending: exists|k: int| 0 <= k < polls.len() && (#[trigger] polls[k]).waiting(),
        invalid: exists|k: int| 0 <= k < polls.len() && (#[trigger] polls[k]) is PendingInvalidToken,
        updated: exists|k: int| 0 <= k < polls.len() && (#[trigger] polls[k]) is Updated,
    }
}

/// Requests for `tokens` that were answered by `polls`.
pub open spec fn requests(tokens: Seq<AnchorToken>, necessary: bool, polls: Seq<Poll>) -> Seq<Call> {
    Seq::new(tokens.len(), |k: int| Call::Request { token: tokens[k], necessary, poll: polls[k] })
}

/// Every one of `tokens` is in `told`.
pub open spec fn within<V>(tokens: Seq<AnchorToken>, told: Map<AnchorToken, V>) -> bool {
    forall|k: int| 0 <= k < tokens.len() ==> told.contains_key(#[trigger] tokens[k])
}

/// The outcome of requests for `tokens` between two contexts.
pub open spec fn requested<G: UpdateContext>(
    before: &G,
    after: &G,
    tokens: Seq<AnchorToken>,
    necessary: bool,
    outcome: Found,
) -> bool {
    &&& before.evolves(after)
    &&& exists|polls: Seq<Poll>|
        polls.len() == tokens.len() && after.calls() == before.calls() + #[trigger] requests(tokens, necessary, polls)
            && outcome == found(polls)
    &&& outcome.invalid ==> after.degraded()
    &&& !after.degraded() && !outcome.pending ==> within(tokens, after.told())
    &&& !after.degraded() && !outcome.pending && !outcome.updated && tokens.len() > 0 ==> before.completed() && forall|
        k: int,
    |
        0 <= k < tokens.len() && before.seen().contains_key(#[trigger] tokens[k]) ==> before.seen()[tokens[k]]
            == before.now()[tokens[k]]
}

/// Requests a number of anchors.
pub fn request_all<G: UpdateContext>(ctx: &mut G, list: &Vec<AnchorToken>, necessary: bool) -> (outcome: Found)
    requires
        old(ctx).valid(),
    ensures
        requested(old(ctx), final(ctx), list@, necessary, outcome),
{
    let ghost was = *ctx;
    let mut outcome = Found { pending: false, invalid: false, updated: false };
    let ghost mut polls: Seq<Poll> = Seq::empty();
    let mut k: usize = 0;
    proof {
        was.evolves_reflexive();
        was.evolves_keeps(ctx);
        assert(was.calls() + requests(list@.take(0), necessary, polls) =~= was.calls());
    }
    while k < list.len()
        invariant
            k <= list@.len(),
            was == *old(ctx),
            was.valid(),
            ctx.valid(),
            was.evolves(ctx),
            polls.len() == k,
            ctx.calls() == was.calls() + requests(list@.take(k as int), necessary, polls),
            outcome == found(polls),
            outcome.invalid ==> ctx.degraded(),
            !ctx.degraded() ==> forall|m: int|
                0 <= m < k && (#[trigger] polls[m]).ready() ==> ctx.told().contains_key(list@[m]),
            !ctx.degraded() ==> forall|m: int|
                0 <= m < k && (#[trigger] polls[m]) is Unchanged ==> was.completed() && (was.seen().contains_key(list@[m])
                    ==> was.seen()[list@[m]] == was.now()[list@[m]]),
        decreases list@.len() - k,
    {
        let ghost before = *ctx;
        let ghost given = polls;
        let poll = ctx.request(list[k], necessary);
        if poll.is_waiting() {
            outcome.pending = true;
        } else if poll.is_invalid_token() {
            outcome.invalid = true;
        } else if poll == Poll::Updated {
            outcome.updated = true;
        }
        proof {
            polls = polls.push(poll);
            was.evolves_keeps(&before);
            before.evolves_keeps(ctx);
            was.evolves_transitive(&before, ctx);
            assert(requests(list@.take(k as int + 1), necessary, polls) =~= requests(
                list@.take(k as int),
                necessary,
                given,
            ).push(Call::Request { token: list@[k as int], necessary, poll }));
            assert(ctx.calls() =~= was.calls() + requests(list@.take(k as int + 1), necessary, polls));
            lemma_found_push(given, poll);
            if !ctx.degraded() {
                assert forall|m: int| 0 <= m < k + 1 && (#[trigger] polls[m]).ready() implies ctx.told().contains_key(list@[m]) by {
                    if m < k {
                        assert(given[m].ready());
                        assert(before.told().dom().contains(list@[m]));
                        assert(ctx.told().dom().contains(list@[m]));
                    }
                }
                assert forall|m: int| 0 <= m < k + 1 && (#[trigger] polls[m]) is Unchanged implies was.completed() && (was.seen().contains_key(list@[m]) ==> was.seen()[list@[m]] == was.now()[list@[m]]) by {
                    if m < k {
                        assert(given[m] is Unchanged);
                    }
                }
            }
        }
        k = k + 1;
    }
    proof {
        assert(list@.take(list@.len() as int) =~= list@);
        if !ctx.degraded() && !outcome.pending {
            assert forall|m: int| 0 <= m < list@.len() implies ctx.told().contains_key(#[trigger] list@[m]) by {
                assert(!polls[m].waiting());
                assert(!(polls[m] is PendingInvalidToken));
                assert(polls[m].ready());
            }
            if !outcome.updated && list@.len() > 0 {
                assert(polls[0] is Unchanged) by {
                    assert(!polls[0].waiting() && !(polls[0] is PendingInvalidToken) && !(polls[0] is Updated));
                }
                assert forall|m: int| 0 <= m < list@.len() && was.seen().contains_key(#[trigger] list@[m]) implies was.seen()[list@[m]] == was.now()[list@[m]] by {
                    assert(!polls[m].waiting() && !(polls[m] is PendingInvalidToken) && !(polls[m] is Updated));
                    assert(polls[m] is Unchanged);
                }
            }
        }
        assert(requested(&was, ctx, list@, necessary, outcome)) by {
            assert(ctx.calls() == was.calls() + requests(list@, necessary, polls));
        }
    }
    outcome
}

/// Whether `edge` is one of `list`.
pub fn listed(list: &Vec<AnchorToken>, edge: AnchorToken) -> (b: bool)
    ensures
        b == list@.contains(edge),
{
    let mut k: usize = 0;
    while k < list.len()
        invariant
            k <= list@.len(),
            forall|m: int| 0 <= m < k ==> list@[m] != edge,
        decreases list@.len() - k,
    {
        if list[k] == edge {
            return true;
        }
        k = k + 1;
    }
    false
}

pub proof fn lemma_within_more<V>(tokens: Seq<AnchorToken>, told: Map<AnchorToken, V>, more: Map<AnchorToken, V>)
    requires
        within(tokens, told),
        told.submap_of(more),
    ensures
        within(tokens, more),
        forall|k: int| 0 <= k < tokens.len() ==> told[#[trigger] tokens[k]] == more[tokens[k]],
{
    assert forall|k: int| 0 <= k < tokens.len() implies more.contains_key(#[trigger] tokens[k]) && told[tokens[k]] == more[tokens[k]] by {
        assert(told.contains_key(tokens[k]));
        assert(told.dom().contains(tokens[k]));
        assert(more.dom().contains(tokens[k]));
    }
}

pub proof fn lemma_within_less<V>(tokens: Seq<AnchorToken>, told: Map<AnchorToken, V>, less: Map<AnchorToken, V>)
    requires
        within(tokens, told),
        less.submap_of(told),
        forall|d: AnchorToken| told.contains_key(d) && tokens.contains(d) ==> #[trigger] less.contains_key(d),
    ensures
        within(tokens, less),
        forall|k: int| 0 <= k < tokens.len() ==> told[#[trigger] tokens[k]] == less[tokens[k]],
{
    assert forall|k: int| 0 <= k < tokens.len() implies less.contains_key(#[trigger] tokens[k]) && told[tokens[k]] == less[tokens[k]] by {
        assert(told.contains_key(tokens[k]));
        assert(tokens.contains(tokens[k]));
        assert(less.contains_key(tokens[k]));
        assert(less.dom().contains(tokens[k]));
    }
}

pub proof fn lemma_within_removed<V>(tokens: Seq<AnchorToken>, told: Map<AnchorToken, V>, edge: AnchorToken)
    requires
        within(tokens, told),
        !tokens.contains(edge),
    ensures
        within(tokens, told.remove(edge)),
        forall|k: int| 0 <= k < tokens.len() ==> told[#[trigger] tokens[k]] == told.remove(edge)[tokens[k]],
{
    assert forall|k: int| 0 <= k < tokens.len() implies told.remove(edge).contains_key(#[trigger] tokens[k]) && told[tokens[k]] == told.remove(edge)[tokens[k]] by {
        assert(told.contains_key(tokens[k]));
        assert(tokens[k] != edge) by {
            if tokens[k] == edge {
                assert(tokens.contains(edge));
            }
        }
    }
}

proof fn lemma_found_push(polls: Seq<Poll>, poll: Poll)
    ensures
        found(polls.push(poll)) == (Found {
            pending: found(polls).pending || poll.waiting(),
            invalid: found(polls).invalid || poll is PendingInvalidToken,
            updated: found(polls).updated || poll is Updated,
        }),
{
    let all = polls.push(poll);
    assert forall|k: int| 0 <= k < polls.len() implies #[trigger] all[k] == polls[k] by {
    }
    assert(all[polls.len() as int] == poll);
    if found(polls).pending {
        let k = choose|k: int| 0 <= k < polls.len() && (#[trigger] polls[k]).waiting();
        assert(all[k].waiting());
    }
    if found(polls).invalid {
        let k = choose|k: int| 0 <= k < polls.len() && (#[trigger] polls[k]) is PendingInvalidToken;
        assert(all[k] is PendingInvalidToken);
    }
    if found(polls).updated {
        let k = choose|k: int| 0 <= k < polls.len() && (#[trigger] polls[k]) is Updated;
        assert(all[k] is Updated);
    }
}

impl<O0> Inputs for (Anchor<O0>,) {
    open spec fn tokens(&self) -> Seq<AnchorToken> {
        seq![self.0.token]
    }

    proof fn some(&self) {
    }

    fn list(&self) -> (list: Vec<AnchorToken>) {
        let list: Vec<AnchorToken> = vec![self.0.token];
        assert(list@ =~= self.tokens());
        list
    }
}

impl<O0, F: FnMut(&O0) -> R, R> Takes<F, R> for (Anchor<O0>,) {
    open spec fn callable(&self, f: F) -> bool {
        forall|v0: O0| call_requires(f, (&v0,))
    }
}

impl<O0, G: Reads<O0>, F: FnMut(&O0) -> R, R> Applies<G, F, R> for (Anchor<O0>,) {
    open spec fn gives(&self, f: F, outs: Map<AnchorToken, G::V>, r: R) -> bool {
        call_ensures(f, (&<G as Reads<O0>>::cast(outs[self.0.token]),), r)
    }

    open spec fn gives_read(&self, f: F, ctx: &G, r: R) -> bool {
        call_ensures(f, (&<G as Reads<O0>>::reading(ctx, self.0.token)->0,), r)
    }

    open spec fn readable(&self, ctx: &G) -> bool {
        &&& <G as Reads<O0>>::reading(ctx, self.0.token) is Some
    }

    proof fn depends(&self, f: F, a: Map<AnchorToken, G::V>, b: Map<AnchorToken, G::V>, r: R) {
        assert(a[self.tokens()[0]] == b[self.tokens()[0]]);
    }

    fn apply(&self, f: &mut F, ctx: &G) -> (r: Option<R>) {
        let v0: &O0 = match <G as Reads<O0>>::get(ctx, &self.0) {
            Some(v) => v,
            None => {
                return None;
            },
        };
        proof {
            if !ctx.degraded() {
            <G as Reads<O0>>::reading_is_now(ctx, self.0.token);
            }
        }
        Some(f(v0))
    }
}

impl<O0, F: FnMut(&mut Out, &O0) -> bool, Out> TakesMut<F, Out> for (Anchor<O0>,) {
    open spec fn callable_mut(&self, f: F) -> bool {
        forall|out: &mut Out, v0: O0| call_requires(f, (out, &v0))
    }
}

impl<O0, G: Reads<O0>, F: FnMut(&mut Out, &O0) -> bool, Out> AppliesMut<G, F, Out> for (Anchor<O0>,) {
    open spec fn makes(&self, f: F, out: &mut Out, ctx: &G, changed: bool) -> bool {
        call_ensures(f, (out, &<G as Reads<O0>>::reading(ctx, self.0.token)->0), changed)
    }

    open spec fn readable_mut(&self, ctx: &G) -> bool {
        &&& <G as Reads<O0>>::reading(ctx, self.0.token) is Some
    }

    fn apply_mut(&self, f: &mut F, out: &mut Out, ctx: &G) -> (changed: Option<bool>) {
        let v0: &O0 = match <G as Reads<O0>>::get(ctx, &self.0) {
            Some(v) => v,
            None => {
                return None;
            },
        };
        let changed: bool = f(out, v0);
        assert(forall|o: &mut Out| #[trigger] call_ensures(*old(f), (o, v0), changed) ==> behind(o) == *o);
        Some(changed)
    }
}

impl<O0: Clone + PartialEq, G: Reads<O0>> Snapshots<G> for (Anchor<O0>,) {
    type Values = (O0,);

    open spec fn all_read(&self, ctx: &G) -> bool {
        &&& <G as Reads<O0>>::reading(ctx, self.0.token) is Some
    }

    open spec fn copied(&self, ctx: &G, values: (O0,)) -> bool {
        &&& cloned(<G as Reads<O0>>::reading(ctx, self.0.token)->0, values.0)
    }

    open spec fn copies(&self, outs: Map<AnchorToken, G::V>, values: (O0,)) -> bool {
        &&& cloned(<G as Reads<O0>>::cast(outs[self.0.token]), values.0)
    }

    open spec fn values_alike(a: (O0,), b: (O0,)) -> bool {
        &&& alike(a.0, b.0)
    }

    open spec fn values_unlike(a: (O0,), b: (O0,)) -> bool {
        ||| unlike(a.0, b.0)
    }

    proof fn copies_depend(&self, a: Map<AnchorToken, G::V>, b: Map<AnchorToken, G::V>, values: (O0,)) {
        assert(a[self.tokens()[0]] == b[self.tokens()[0]]);
    }

    fn snapshot(&self, ctx: &G) -> (values: Option<(O0,)>) {
        let v0: &O0 = match <G as Reads<O0>>::get(ctx, &self.0) {
            Some(v) => v,
            None => {
                return None;
            },
        };
        proof {
            if !ctx.degraded() {
                <G as Reads<O0>>::reading_is_now(ctx, self.0.token);
            }
        }
        Some((v0.clone(),))
    }

    fn same_values(a: &(O0,), b: &(O0,)) -> (same: bool) {
        equal(&a.0, &b.0)
    }
}

impl<O0, O1> Inputs for (Anchor<O0>, Anchor<O1>) {
    open spec fn tokens(&self) -> Seq<AnchorToken> {
        seq![self.0.token, self.1.token]
    }

    proof fn some(&self) {
    }

    fn list(&self) -> (list: Vec<AnchorToken>) {
        let list: Vec<AnchorToken> = vec![self.0.token, self.1.token];
        assert(list@ =~= self.tokens());
        list
    }
}

impl<O0, O1, F: FnMut(&O0, &O1) -> R, R> Takes<F, R> for (Anchor<O0>, Anchor<O1>) {
    open spec fn callable(&self, f: F) -> bool {
        forall|v0: O0, v1: O1| call_requires(f, (&v0, &v1))
    }
}

impl<O0, O1, G: Reads<O0> + Reads<O1>, F: FnMut(&O0, &O1) -> R, R> Applies<G, F, R> for (Anchor<O0>, Anchor<O1>) {
    open spec fn gives(&self, f: F, outs: Map<AnchorToken, G::V>, r: R) -> bool {
        call_ensures(f, (&<G as Reads<O0>>::cast(outs[self.0.token]), &<G as Reads<O1>>::cast(outs[self.1.token])), r)
    }

    open spec fn gives_read(&self, f: F, ctx: &G, r: R) -> bool {
        call_ensures(f, (&<G as Reads<O0>>::reading(ctx, self.0.token)->0, &<G as Reads<O1>>::reading(ctx, self.1.token)->0), r)
    }

    open spec fn readable(&self, ctx: &G) -> bool {
        &&& <G as Reads<O0>>::reading(ctx, self.0.token) is Some
        &&& <G as Reads<O1>>::reading(ctx, self.1.token) is Some
    }

    proof fn depends(&self, f: F, a: Map<AnchorToken, G::V>, b: Map<AnchorToken, G::V>, r: R) {
        assert(a[self.tokens()[0]] == b[self.tokens()[0]]);
        assert(a[self.tokens()[1]] == b[self.tokens()[1]]);
    }

    fn apply(&self, f: &mut F, ctx: &G) -> (r: Option<R>) {
        let v0: &O0 = match <G as Reads<O0>>::get(ctx, &self.0) {
            Some(v) => v,
            None => {
                return None;
            },
        };
        let v1: &O1 = match <G as Reads<O1>>::get(ctx, &self.1) {
            Some(v) => v,
            None => {
                return None;
            },
        };
        proof {
            if !ctx.degraded() {
            <G as Reads<O0>>::reading_is_now(ctx, self.0.token);
            <G as Reads<O1>>::reading_is_now(ctx, self.1.token);
            }
        }
        Some(f(v0, v1))
    }
}

impl<O0, O1, F: FnMut(&mut Out, &O0, &O1) -> bool, Out> TakesMut<F, Out> for (Anchor<O0>, Anchor<O1>) {
    open spec fn callable_mut(&self, f: F) -> bool {
        forall|out: &mut Out, v0: O0, v1: O1| call_requires(f, (out, &v0, &v1))
    }
}

impl<O0, O1, G: Reads<O0> + Reads<O1>, F: FnMut(&mut Out, &O0, &O1) -> bool, Out> AppliesMut<G, F, Out> for (Anchor<O0>, Anchor<O1>) {
    open spec fn makes(&self, f: F, out: &mut Out, ctx: &G, changed: bool) -> bool {
        call_ensures(f, (out, &<G as Reads<O0>>::reading(ctx, self.0.token)->0, &<G as Reads<O1>>::reading(ctx, self.1.token)->0), changed)
    }

    open spec fn readable_mut(&self, ctx: &G) -> bool {
        &&& <G as Reads<O0>>::reading(ctx, self.0.token) is Some
        &&& <G as Reads<O1>>::reading(ctx, self.1.token) is Some
    }

    fn apply_mut(&self, f: &mut F, out: &mut Out, ctx: &G) -> (changed: Option<bool>) {
        let v0: &O0 = match <G as Reads<O0>>::get(ctx, &self.0) {
            Some(v) => v,
            None => {
                return None;
            },
        };
        let v1: &O1 = match <G as Reads<O1>>::get(ctx, &self.1) {
            Some(v) => v,
            None => {
                return None;
            },
        };
        let changed: bool = f(out, v0, v1);
        assert(forall|o: &mut Out| #[trigger] call_ensures(*old(f), (o, v0, v1), changed) ==> behind(o) == *o);
        Some(changed)
    }
}

impl<O0: Clone + PartialEq, O1: Clone + PartialEq, G: Reads<O0> + Reads<O1>> Snapshots<G> for (Anchor<O0>, Anchor<O1>) {
    type Values = (O0, O1);

    open spec fn all_read(&self, ctx: &G) -> bool {
        &&& <G as Reads<O0>>::reading(ctx, self.0.token) is Some
        &&& <G as Reads<O1>>::reading(ctx, self.1.token) is Some
    }

    open spec fn copied(&self, ctx: &G, values: (O0, O1)) -> bool {
        &&& cloned(<G as Reads<O0>>::reading(ctx, self.0.token)->0, values.0)
        &&& cloned(<G as Reads<O1>>::reading(ctx, self.1.token)->0, values.1)
    }

    open spec fn copies(&self, outs: Map<AnchorToken, G::V>, values: (O0, O1)) -> bool {
        &&& cloned(<G as Reads<O0>>::cast(outs[self.0.token]), values.0)
        &&& cloned(<G as Reads<O1>>::cast(outs[self.1.token]), values.1)
    }

    open spec fn values_alike(a: (O0, O1), b: (O0, O1)) -> bool {
        &&& alike(a.0, b.0)
        &&& alike(a.1, b.1)
    }

    open spec fn values_unlike(a: (O0, O1), b: (O0, O1)) -> bool {
        ||| unlike(a.0, b.0)
        ||| unlike(a.1, b.1)
    }

    proof fn copies_depend(&self, a: Map<AnchorToken, G::V>, b: Map<AnchorToken, G::V>, values: (O0, O1)) {
        assert(a[self.tokens()[0]] == b[self.tokens()[0]]);
        assert(a[self.tokens()[1]] == b[self.tokens()[1]]);
    }

    fn snapshot(&self, ctx: &G) -> (values: Option<(O0, O1)>) {
        let v0: &O0 = match <G as Reads<O0>>::get(ctx, &self.0) {
            Some(v) => v,
            None => {
                return None;
            },
        };
        let v1: &O1 = match <G as Reads<O1>>::get(ctx, &self.1) {
            Some(v) => v,
            None => {
                return None;
            },
        };
        proof {
            if !ctx.degraded() {
                <G as Reads<O0>>::reading_is_now(ctx, self.0.token);
                <G as Reads<O1>>::reading_is_now(ctx, self.1.token);
            }
        }
        Some((v0.clone(), v1.clone()))
    }

    fn same_values(a: &(O0, O1), b: &(O0, O1)) -> (same: bool) {
        equal(&a.0, &b.0) && equal(&a.1, &b.1)
    }
}

impl<O0, O1, O2> Inputs for (Anchor<O0>, Anchor<O1>, Anchor<O2>) {
    open spec fn tokens(&self) -> Seq<AnchorToken> {
        seq![self.0.token, self.1.token, self.2.token]
    }

    proof fn some(&self) {
    }

    fn list(&self) -> (list: Vec<AnchorToken>) {
        let list: Vec<AnchorToken> = vec![self.0.token, self.1.token, self.2.token];
        assert(list@ =~= self.tokens());
        list
    }
}

impl<O0, O1, O2, F: FnMut(&O0, &O1, &O2) -> R, R> Takes<F, R> for (Anchor<O0>, Anchor<O1>, Anchor<O2>) {
    open spec fn callable(&self, f: F) -> bool {
        forall|v0: O0, v1: O1, v2: O2| call_requires(f, (&v0, &v1, &v2))
    }
}

impl<O0, O1, O2, G: Reads<O0> + Reads<O1> + Reads<O2>, F: FnMut(&O0, &O1, &O2) -> R, R> Applies<G, F, R> for (Anchor<O0>, Anchor<O1>, Anchor<O2>) {
    open spec fn gives(&self, f: F, outs: Map<AnchorToken, G::V>, r: R) -> bool {
        call_ensures(f, (&<G as Reads<O0>>::cast(outs[self.0.token]), &<G as Reads<O1>>::cast(outs[self.1.token]), &<G as Reads<O2>>::cast(outs[self.2.token])), r)
    }

    open spec fn gives_read(&self, f: F, ctx: &G, r: R) -> bool {
        call_ensures(f, (&<G as Reads<O0>>::reading(ctx, self.0.token)->0, &<G as Reads<O1>>::reading(ctx, self.1.token)->0, &<G as Reads<O2>>::reading(ctx, self.2.token)->0), r)
    }

    open spec fn readable(&self, ctx: &G) -> bool {
        &&& <G as Reads<O0>>::reading(ctx, self.0.token) is Some
        &&& <G as Reads<O1>>::reading(ctx, self.1.token) is Some
        &&& <G as Reads<O2>>::reading(ctx, self.2.token) is Some
    }

    proof fn depends(&self, f: F, a: Map<AnchorToken, G::V>, b: Map<AnchorToken, G::V>, r: R) {
        assert(a[self.tokens()[0]] == b[self.tokens()[0]]);
        assert(a[self.tokens()[1]] == b[self.tokens()[1]]);
        assert(a[self.tokens()[2]] == b[self.tokens()[2]]);
    }

    fn apply(&self, f: &mut F, ctx: &G) -> (r: Option<R>) {
        let v0: &O0 = match <G as Reads<O0>>::get(ctx, &self.0) {
            Some(v) => v,
            None => {
                return None;
            },
        };
        let v1: &O1 = match <G as Reads<O1>>::get(ctx, &self.1) {
            Some(v) => v,
            None => {
                return None;
            },
        };
        let v2: &O2 = match <G as Reads<O2>>::get(ctx, &self.2) {
            Some(v) => v,
            None => {
                return None;
            },
        };
        proof {
            if !ctx.degraded() {
            <G as Reads<O0>>::reading_is_now(ctx, self.0.token);
            <G as Reads<O1>>::reading_is_now(ctx, self.1.token);
            <G as Reads<O2>>::reading_is_now(ctx, self.2.token);
            }
        }
        Some(f(v0, v1, v2))
    }
}

impl<O0, O1, O2, F: FnMut(&mut Out, &O0, &O1, &O2) -> bool, Out> TakesMut<F, Out> for (Anchor<O0>, Anchor<O1>, Anchor<O2>) {
    open spec fn callable_mut(&self, f: F) -> bool {
        forall|out: &mut Out, v0: O0, v1: O1, v2: O2| call_requires(f, (out, &v0, &v1, &v2))
    }
}

impl<O0, O1, O2, G: Reads<O0> + Reads<O1> + Reads<O2>, F: FnMut(&mut Out, &O0, &O1, &O2) -> bool, Out> AppliesMut<G, F, Out> for (Anchor<O0>, Anchor<O1>, Anchor<O2>) {
    open spec fn makes(&self, f: F, out: &mut Out, ctx: &G, changed: bool) -> bool {
        call_ensures(f, (out, &<G as Reads<O0>>::reading(ctx, self.0.token)->0, &<G as Reads<O1>>::reading(ctx, self.1.token)->0, &<G as Reads<O2>>::reading(ctx, self.2.token)->0), changed)
    }

    open spec fn readable_mut(&self, ctx: &G) -> bool {
        &&& <G as Reads<O0>>::reading(ctx, self.0.token) is Some
        &&& <G as Reads<O1>>::reading(ctx, self.1.token) is Some
        &&& <G as Reads<O2>>::reading(ctx, self.2.token) is Some
    }

    fn apply_mut(&self, f: &mut F, out: &mut Out, ctx: &G) -> (changed: Option<bool>) {
        let v0: &O0 = match <G as Reads<O0>>::get(ctx, &self.0) {
            Some(v) => v,
            None => {
                return None;
            },
        };
        let v1: &O1 = match <G as Reads<O1>>::get(ctx, &self.1) {
            Some(v) => v,
            None => {
                return None;
            },
        };
        let v2: &O2 = match <G as Reads<O2>>::get(ctx, &self.2) {
            Some(v) => v,
            None => {
                return None;
            },
        };
        let changed: bool = f(out, v0, v1, v2);
        assert(forall|o: &mut Out| #[trigger] call_ensures(*old(f), (o, v0, v1, v2), changed) ==> behind(o) == *o);
        Some(changed)
    }
}

impl<O0: Clone + PartialEq, O1: Clone + PartialEq, O2: Clone + PartialEq, G: Reads<O0> + Reads<O1> + Reads<O2>> Snapshots<G> for (Anchor<O0>, Anchor<O1>, Anchor<O2>) {
    type Values = (O0, O1, O2);

    open spec fn all_read(&self, ctx: &G) -> bool {
        &&& <G as Reads<O0>>::reading(ctx, self.0.token) is Some
        &&& <G as Reads<O1>>::reading(ctx, self.1.token) is Some
        &&& <G as Reads<O2>>::reading(ctx, self.2.token) is Some
    }

    open spec fn copied(&self, ctx: &G, values: (O0, O1, O2)) -> bool {
        &&& cloned(<G as Reads<O0>>::reading(ctx, self.0.token)->0, values.0)
        &&& cloned(<G as Reads<O1>>::reading(ctx, self.1.token)->0, values.1)
        &&& cloned(<G as Reads<O2>>::reading(ctx, self.2.token)->0, values.2)
    }

    open spec fn copies(&self, outs: Map<AnchorToken, G::V>, values: (O0, O1, O2)) -> bool {
        &&& cloned(<G as Reads<O0>>::cast(outs[self.0.token]), values.0)
        &&& cloned(<G as Reads<O1>>::cast(outs[self.1.token]), values.1)
        &&& cloned(<G as Reads<O2>>::cast(outs[self.2.token]), values.2)
    }

    open spec fn values_alike(a: (O0, O1, O2), b: (O0, O1, O2)) -> bool {
        &&& alike(a.0, b.0)
        &&& alike(a.1, b.1)
        &&& alike(a.2, b.2)
    }

    open spec fn values_unlike(a: (O0, O1, O2), b: (O0, O1, O2)) -> bool {
        ||| unlike(a.0, b.0)
        ||| unlike(a.1, b.1)
        ||| unlike(a.2, b.2)
    }

    proof fn copies_depend(&self, a: Map<AnchorToken, G::V>, b: Map<AnchorToken, G::V>, values: (O0, O1, O2)) {
        assert(a[self.tokens()[0]] == b[self.tokens()[0]]);
        assert(a[self.tokens()[1]] == b[self.tokens()[1]]);
        assert(a[self.tokens()[2]] == b[self.tokens()[2]]);
    }

    fn snapshot(&self, ctx: &G) -> (values: Option<(O0, O1, O2)>) {
        let v0: &O0 = match <G as Reads<O0>>::get(ctx, &self.0) {
            Some(v) => v,
            None => {
                return None;
            },
        };
        let v1: &O1 = match <G as Reads<O1>>::get(ctx, &self.1) {
            Some(v) => v,
            None => {
                return None;
            },
        };
        let v2: &O2 = match <G as Reads<O2>>::get(ctx, &self.2) {
            Some(v) => v,
            None => {
                return None;
            },
        };
        proof {
            if !ctx.degraded() {
                <G as Reads<O0>>::reading_is_now(ctx, self.0.token);
                <G as Reads<O1>>::reading_is_now(ctx, self.1.token);
                <G as Reads<O2>>::reading_is_now(ctx, self.2.token);
            }
        }
        Some((v0.clone(), v1.clone(), v2.clone()))
    }

    fn same_values(a: &(O0, O1, O2), b: &(O0, O1, O2)) -> (same: bool) {
        equal(&a.0, &b.0) && equal(&a.1, &b.1) && equal(&a.2, &b.2)
    }
}

impl<O0, O1, O2, O3> Inputs for (Anchor<O0>, Anchor<O1>, Anchor<O2>, Anchor<O3>) {
    open spec fn tokens(&self) -> Seq<AnchorToken> {
        seq![self.0.token, self.1.token, self.2.token, self.3.token]
    }

    proof fn some(&self) {
    }

    fn list(&self) -> (list: Vec<AnchorToken>) {
        let list: Vec<AnchorToken> = vec![self.0.token, self.1.token, self.2.token, self.3.token];
        assert(list@ =~= self.tokens());
        list
    }
}

impl<O0, O1, O2, O3, F: FnMut(&O0, &O1, &O2, &O3) -> R, R> Takes<F, R> for (Anchor<O0>, Anchor<O1>, Anchor<O2>, Anchor<O3>) {
    open spec fn callable(&self, f: F) -> bool {
        forall|v0: O0, v1: O1, v2: O2, v3: O3| call_requires(f, (&v0, &v1, &v2, &v3))
    }
}

impl<O0, O1, O2, O3, G: Reads<O0> + Reads<O1> + Reads<O2> + Reads<O3>, F: FnMut(&O0, &O1, &O2, &O3) -> R, R> Applies<G, F, R> for (Anchor<O0>, Anchor<O1>, Anchor<O2>, Anchor<O3>) {
    open spec fn gives(&self, f: F, outs: Map<AnchorToken, G::V>, r: R) -> bool {
        call_ensures(f, (&<G as Reads<O0>>::cast(outs[self.0.token]), &<G as Reads<O1>>::cast(outs[self.1.token]), &<G as Reads<O2>>::cast(outs[self.2.token]), &<G as Reads<O3>>::cast(outs[self.3.token])), r)
    }

    open spec fn gives_read(&self, f: F, ctx: &G, r: R) -> bool {
        call_ensures(f, (&<G as Reads<O0>>::reading(ctx, self.0.token)->0, &<G as Reads<O1>>::reading(ctx, self.1.token)->0, &<G as Reads<O2>>::reading(ctx, self.2.token)->0, &<G as Reads<O3>>::reading(ctx, self.3.token)->0), r)
    }

    open spec fn readable(&self, ctx: &G) -> bool {
        &&& <G as Reads<O0>>::reading(ctx, self.0.token) is Some
        &&& <G as Reads<O1>>::reading(ctx, self.1.token) is Some
        &&& <G as Reads<O2>>::reading(ctx, self.2.token) is Some
        &&& <G as Reads<O3>>::reading(ctx, self.3.token) is Some
    }

    proof fn depends(&self, f: F, a: Map<AnchorToken, G::V>, b: Map<AnchorToken, G::V>, r: R) {
        assert(a[self.tokens()[0]] == b[self.tokens()[0]]);
        assert(a[self.tokens()[1]] == b[self.tokens()[1]]);
        assert(a[self.tokens()[2]] == b[self.tokens()[2]]);
        assert(a[self.tokens()[3]] == b[self.tokens()[3]]);
    }

    fn apply(&self, f: &mut F, ctx: &G) -> (r: Option<R>) {
        let v0: &O0 = match <G as Reads<O0>>::get(ctx, &self.0) {
            Some(v) => v,
            None => {
                return None;
            },
        };
        let v1: &O1 = match <G as Reads<O1>>::get(ctx, &self.1) {
            Some(v) => v,
            None => {
                return None;
            },
        };
        let v2: &O2 = match <G as Reads<O2>>::get(ctx, &self.2) {
            Some(v) => v,
            None => {
                return None;
            },
        };
        let v3: &O3 = match <G as Reads<O3>>::get(ctx, &self.3) {
            Some(v) => v,
            None => {
                return None;
            },
        };
        proof {
            if !ctx.degraded() {
            <G as Reads<O0>>::reading_is_now(ctx, self.0.token);
            <G as Reads<O1>>::reading_is_now(ctx, self.1.token);
            <G as Reads<O2>>::reading_is_now(ctx, self.2.token);
            <G as Reads<O3>>::reading_is_now(ctx, self.3.token);
            }
        }
        Some(f(v0, v1, v2, v3))
    }
}

impl<O0, O1, O2, O3, F: FnMut(&mut Out, &O0, &O1, &O2, &O3) -> bool, Out> TakesMut<F, Out> for (Anchor<O0>, Anchor<O1>, Anchor<O2>, Anchor<O3>) {
    open spec fn callable_mut(&self, f: F) -> bool {
        forall|out: &mut Out, v0: O0, v1: O1, v2: O2, v3: O3| call_requires(f, (out, &v0, &v1, &v2, &v3))
    }
}

impl<O0, O1, O2, O3, G: Reads<O0> + Reads<O1> + Reads<O2> + Reads<O3>, F: FnMut(&mut Out, &O0, &O1, &O2, &O3) -> bool, Out> AppliesMut<G, F, Out> for (Anchor<O0>, Anchor<O1>, Anchor<O2>, Anchor<O3>) {
    open spec fn makes(&self, f: F, out: &mut Out, ctx: &G, changed: bool) -> bool {
        call_ensures(f, (out, &<G as Reads<O0>>::reading(ctx, self.0.token)->0, &<G as Reads<O1>>::reading(ctx, self.1.token)->0, &<G as Reads<O2>>::reading(ctx, self.2.token)->0, &<G as Reads<O3>>::reading(ctx, self.3.token)->0), changed)
    }

    open spec fn readable_mut(&self, ctx: &G) -> bool {
        &&& <G as Reads<O0>>::reading(ctx, self.0.token) is Some
        &&& <G as Reads<O1>>::reading(ctx, self.1.token) is Some
        &&& <G as Reads<O2>>::reading(ctx, self.2.token) is Some
        &&& <G as Reads<O3>>::reading(ctx, self.3.token) is Some
    }

    fn apply_mut(&self, f: &mut F, out: &mut Out, ctx: &G) -> (changed: Option<bool>) {
        let v0: &O0 = match <G as Reads<O0>>::get(ctx, &self.0) {
            Some(v) => v,
            None => {
                return None;
            },
        };
        let v1: &O1 = match <G as Reads<O1>>::get(ctx, &self.1) {
            Some(v) => v,
            None => {
                return None;
            },
        };
        let v2: &O2 = match <G as Reads<O2>>::get(ctx, &self.2) {
            Some(v) => v,
            None => {
                return None;
            },
        };
        let v3: &O3 = match <G as Reads<O3>>::get(ctx, &self.3) {
            Some(v) => v,
            None => {
                return None;
            },
        };
        let changed: bool = f(out, v0, v1, v2, v3);
        assert(forall|o: &mut Out| #[trigger] call_ensures(*old(f), (o, v0, v1, v2, v3), changed) ==> behind(o) == *o);
        Some(changed)
    }
}

impl<O0, O1, O2, O3, O4> Inputs for (Anchor<O0>, Anchor<O1>, Anchor<O2>, Anchor<O3>, Anchor<O4>) {
    open spec fn tokens(&self) -> Seq<AnchorToken> {
        seq![self.0.token, self.1.token, self.2.token, self.3.token, self.4.token]
    }

    proof fn some(&self) {
    }

    fn list(&self) -> (list: Vec<AnchorToken>) {
        let list: Vec<AnchorToken> = vec![self.0.token, self.1.token, self.2.token, self.3.token, self.4.token];
        assert(list@ =~= self.tokens());
        list
    }
}

impl<O0, O1, O2, O3, O4, F: FnMut(&O0, &O1, &O2, &O3, &O4) -> R, R> Takes<F, R> for (Anchor<O0>, Anchor<O1>, Anchor<O2>, Anchor<O3>, Anchor<O4>) {
    open spec fn callable(&self, f: F) -> bool {
        forall|v0: O0, v1: O1, v2: O2, v3: O3, v4: O4| call_requires(f, (&v0, &v1, &v2, &v3, &v4))
    }
}

impl<O0, O1, O2, O3, O4, G: Reads<O0> + Reads<O1> + Reads<O2> + Reads<O3> + Reads<O4>, F: FnMut(&O0, &O1, &O2, &O3, &O4) -> R, R> Applies<G, F, R> for (Anchor<O0>, Anchor<O1>, Anchor<O2>, Anchor<O3>, Anchor<O4>) {
    open spec fn gives(&self, f: F, outs: Map<AnchorToken, G::V>, r: R) -> bool {
        call_ensures(f, (&<G as Reads<O0>>::cast(outs[self.0.token]), &<G as Reads<O1>>::cast(outs[self.1.token]), &<G as Reads<O2>>::cast(outs[self.2.token]), &<G as Reads<O3>>::cast(outs[self.3.token]), &<G as Reads<O4>>::cast(outs[self.4.token])), r)
    }

    open spec fn gives_read(&self, f: F, ctx: &G, r: R) -> bool {
        call_ensures(f, (&<G as Reads<O0>>::reading(ctx, self.0.token)->0, &<G as Reads<O1>>::reading(ctx, self.1.token)->0, &<G as Reads<O2>>::reading(ctx, self.2.token)->0, &<G as Reads<O3>>::reading(ctx, self.3.token)->0, &<G as Reads<O4>>::reading(ctx, self.4.token)->0), r)
    }

    open spec fn readable(&self, ctx: &G) -> bool {
        &&& <G as Reads<O0>>::reading(ctx, self.0.token) is Some
        &&& <G as Reads<O1>>::reading(ctx, self.1.token) is Some
        &&& <G as Reads<O2>>::reading(ctx, self.2.token) is Some
        &&& <G as Reads<O3>>::reading(ctx, self.3.token) is Some
        &&& <G as Reads<O4>>::reading(ctx, self.4.token) is Some
    }

    proof fn depends(&self, f: F, a: Map<AnchorToken, G::V>, b: Map<AnchorToken, G::V>, r: R) {
        assert(a[self.tokens()[0]] == b[self.tokens()[0]]);
        assert(a[self.tokens()[1]] == b[self.tokens()[1]]);
        assert(a[self.tokens()[2]] == b[self.tokens()[2]]);
        assert(a[self.tokens()[3]] == b[self.tokens()[3]]);
        assert(a[self.tokens()[4]] == b[self.tokens()[4]]);
    }

    fn apply(&self, f: &mut F, ctx: &G) -> (r: Option<R>) {
        let v0: &O0 = match <G as Reads<O0>>::get(ctx, &self.0) {
            Some(v) => v,
            None => {
                return None;
            },
        };
        let v1: &O1 = match <G as Reads<O1>>::get(ctx, &self.1) {
            Some(v) => v,
            None => {
                return None;
            },
        };
        let v2: &O2 = match <G as Reads<O2>>::get(ctx, &self.2) {
            Some(v) => v,
            None => {
                return None;
            },
        };
        let v3: &O3 = match <G as Reads<O3>>::get(ctx, &self.3) {
            Some(v) => v,
            None => {
                return None;
            },
        };
        let v4: &O4 = match <G as Reads<O4>>::get(ctx, &self.4) {
            Some(v) => v,
            None => {
                return None;
            },
        };
        proof {
            if !ctx.degraded() {
            <G as Reads<O0>>::reading_is_now(ctx, self.0.token);
            <G as Reads<O1>>::reading_is_now(ctx, self.1.token);
            <G as Reads<O2>>::reading_is_now(ctx, self.2.token);
            <G as Reads<O3>>::reading_is_now(ctx, self.3.token);
            <G as Reads<O4>>::reading_is_now(ctx, self.4.token);
            }
        }
        Some(f(v0, v1, v2, v3, v4))
    }
}

impl<O0, O1, O2, O3, O4, F: FnMut(&mut Out, &O0, &O1, &O2, &O3, &O4) -> bool, Out> TakesMut<F, Out> for (Anchor<O0>, Anchor<O1>, Anchor<O2>, Anchor<O3>, Anchor<O4>) {
    open spec fn callable_mut(&self, f: F) -> bool {
        forall|out: &mut Out, v0: O0, v1: O1, v2: O2, v3: O3, v4: O4| call_requires(f, (out, &v0, &v1, &v2, &v3, &v4))
    }
}

impl<O0, O1, O2, O3, O4, G: Reads<O0> + Reads<O1> + Reads<O2> + Reads<O3> + Reads<O4>, F: FnMut(&mut Out, &O0, &O1, &O2, &O3, &O4) -> bool, Out> AppliesMut<G, F, Out> for (Anchor<O0>, Anchor<O1>, Anchor<O2>, Anchor<O3>, Anchor<O4>) {
    open spec fn makes(&self, f: F, out: &mut Out, ctx: &G, changed: bool) -> bool {
        call_ensures(f, (out, &<G as Reads<O0>>::reading(ctx, self.0.token)->0, &<G as Reads<O1>>::reading(ctx, self.1.token)->0, &<G as Reads<O2>>::reading(ctx, self.2.token)->0, &<G as Reads<O3>>::reading(ctx, self.3.token)->0, &<G as Reads<O4>>::reading(ctx, self.4.token)->0), changed)
    }

    open spec fn readable_mut(&self, ctx: &G) -> bool {
        &&& <G as Reads<O0>>::reading(ctx, self.0.token) is Some
        &&& <G as Reads<O1>>::reading(ctx, self.1.token) is Some
        &&& <G as Reads<O2>>::reading(ctx, self.2.token) is Some
        &&& <G as Reads<O3>>::reading(ctx, self.3.token) is Some
        &&& <G as Reads<O4>>::reading(ctx, self.4.token) is Some
    }

    fn apply_mut(&self, f: &mut F, out: &mut Out, ctx: &G) -> (changed: Option<bool>) {
        let v0: &O0 = match <G as Reads<O0>>::get(ctx, &self.0) {
            Some(v) => v,
            None => {
                return None;
            },
        };
        let v1: &O1 = match <G as Reads<O1>>::get(ctx, &self.1) {
            Some(v) => v,
            None => {
                return None;
            },
        };
        let v2: &O2 = match <G as Reads<O2>>::get(ctx, &self.2) {
            Some(v) => v,
            None => {
                return None;
            },
        };
        let v3: &O3 = match <G as Reads<O3>>::get(ctx, &self.3) {
            Some(v) => v,
            None => {
                return None;
            },
        };
        let v4: &O4 = match <G as Reads<O4>>::get(ctx, &self.4) {
            Some(v) => v,
            None => {
                return None;
            },
        };
        let changed: bool = f(out, v0, v1, v2, v3, v4);
        assert(forall|o: &mut Out| #[trigger] call_ensures(*old(f), (o, v0, v1, v2, v3, v4), changed) ==> behind(o) == *o);
        Some(changed)
    }
}

impl<O0, O1, O2, O3, O4, O5> Inputs for (Anchor<O0>, Anchor<O1>, Anchor<O2>, Anchor<O3>, Anchor<O4>, Anchor<O5>) {
    open spec fn tokens(&self) -> Seq<AnchorToken> {
        seq![self.0.token, self.1.token, self.2.token, self.3.token, self.4.token, self.5.token]
    }

    proof fn some(&self) {
    }

    fn list(&self) -> (list: Vec<AnchorToken>) {
        let list: Vec<AnchorToken> = vec![self.0.token, self.1.token, self.2.token, self.3.token, self.4.token, self.5.token];
        assert(list@ =~= self.tokens());
        list
    }
}

impl<O0, O1, O2, O3, O4, O5, F: FnMut(&O0, &O1, &O2, &O3, &O4, &O5) -> R, R> Takes<F, R> for (Anchor<O0>, Anchor<O1>, Anchor<O2>, Anchor<O3>, Anchor<O4>, Anchor<O5>) {
    open spec fn callable(&self, f: F) -> bool {
        forall|v0: O0, v1: O1, v2: O2, v3: O3, v4: O4, v5: O5| call_requires(f, (&v0, &v1, &v2, &v3, &v4, &v5))
    }
}

impl<O0, O1, O2, O3, O4, O5, G: Reads<O0> + Reads<O1> + Reads<O2> + Reads<O3> + Reads<O4> + Reads<O5>, F: FnMut(&O0, &O1, &O2, &O3, &O4, &O5) -> R, R> Applies<G, F, R> for (Anchor<O0>, Anchor<O1>, Anchor<O2>, Anchor<O3>, Anchor<O4>, Anchor<O5>) {
    open spec fn gives(&self, f: F, outs: Map<AnchorToken, G::V>, r: R) -> bool {
        call_ensures(f, (&<G as Reads<O0>>::cast(outs[self.0.token]), &<G as Reads<O1>>::cast(outs[self.1.token]), &<G as Reads<O2>>::cast(outs[self.2.token]), &<G as Reads<O3>>::cast(outs[self.3.token]), &<G as Reads<O4>>::cast(outs[self.4.token]), &<G as Reads<O5>>::cast(outs[self.5.token])), r)
    }

    open spec fn gives_read(&self, f: F, ctx: &G, r: R) -> bool {
        call_ensures(f, (&<G as Reads<O0>>::reading(ctx, self.0.token)->0, &<G as Reads<O1>>::reading(ctx, self.1.token)->0, &<G as Reads<O2>>::reading(ctx, self.2.token)->0, &<G as Reads<O3>>::reading(ctx, self.3.token)->0, &<G as Reads<O4>>::reading(ctx, self.4.token)->0, &<G as Reads<O5>>::reading(ctx, self.5.token)->0), r)
    }

    open spec fn readable(&self, ctx: &G) -> bool {
        &&& <G as Reads<O0>>::reading(ctx, self.0.token) is Some
        &&& <G as Reads<O1>>::reading(ctx, self.1.token) is Some
        &&& <G as Reads<O2>>::reading(ctx, self.2.token) is Some
        &&& <G as Reads<O3>>::reading(ctx, self.3.token) is Some
        &&& <G as Reads<O4>>::reading(ctx, self.4.token) is Some
        &&& <G as Reads<O5>>::reading(ctx, self.5.token) is Some
    }

    proof fn depends(&self, f: F, a: Map<AnchorToken, G::V>, b: Map<AnchorToken, G::V>, r: R) {
        assert(a[self.tokens()[0]] == b[self.tokens()[0]]);
        assert(a[self.tokens()[1]] == b[self.tokens()[1]]);
        assert(a[self.tokens()[2]] == b[self.tokens()[2]]);
        assert(a[self.tokens()[3]] == b[self.tokens()[3]]);
        assert(a[self.tokens()[4]] == b[self.tokens()[4]]);
        assert(a[self.tokens()[5]] == b[self.tokens()[5]]);
    }

    fn apply(&self, f: &mut F, ctx: &G) -> (r: Option<R>) {
        let v0: &O0 = match <G as Reads<O0>>::get(ctx, &self.0) {
            Some(v) => v,
            None => {
                return None;
            },
        };
        let v1: &O1 = match <G as Reads<O1>>::get(ctx, &self.1) {
            Some(v) => v,
            None => {
                return None;
            },
        };
        let v2: &O2 = match <G as Reads<O2>>::get(ctx, &self.2) {
            Some(v) => v,
            None => {
                return None;
            },
        };
        let v3: &O3 = match <G as Reads<O3>>::get(ctx, &self.3) {
            Some(v) => v,
            None => {
                return None;
            },
        };
        let v4: &O4 = match <G as Reads<O4>>::get(ctx, &self.4) {
            Some(v) => v,
            None => {
                return None;
            },
        };
        let v5: &O5 = match <G as Reads<O5>>::get(ctx, &self.5) {
            Some(v) => v,
            None => {
                return None;
            },
        };
        proof {
            if !ctx.degraded() {
            <G as Reads<O0>>::reading_is_now(ctx, self.0.token);
            <G as Reads<O1>>::reading_is_now(ctx, self.1.token);
            <G as Reads<O2>>::reading_is_now(ctx, self.2.token);
            <G as Reads<O3>>::reading_is_now(ctx, self.3.token);
            <G as Reads<O4>>::reading_is_now(ctx, self.4.token);
            <G as Reads<O5>>::reading_is_now(ctx, self.5.token);
            }
        }
        Some(f(v0, v1, v2, v3, v4, v5))
    }
}

impl<O0, O1, O2, O3, O4, O5, F: FnMut(&mut Out, &O0, &O1, &O2, &O3, &O4, &O5) -> bool, Out> TakesMut<F, Out> for (Anchor<O0>, Anchor<O1>, Anchor<O2>, Anchor<O3>, Anchor<O4>, Anchor<O5>) {
    open spec fn callable_mut(&self, f: F) -> bool {
        forall|out: &mut Out, v0: O0, v1: O1, v2: O2, v3: O3, v4: O4, v5: O5| call_requires(f, (out, &v0, &v1, &v2, &v3, &v4, &v5))
    }
}

impl<O0, O1, O2, O3, O4, O5, G: Reads<O0> + Reads<O1> + Reads<O2> + Reads<O3> + Reads<O4> + Reads<O5>, F: FnMut(&mut Out, &O0, &O1, &O2, &O3, &O4, &O5) -> bool, Out> AppliesMut<G, F, Out> for (Anchor<O0>, Anchor<O1>, Anchor<O2>, Anchor<O3>, Anchor<O4>, Anchor<O5>) {
    open spec fn makes(&self, f: F, out: &mut Out, ctx: &G, changed: bool) -> bool {
        call_ensures(f, (out, &<G as Reads<O0>>::reading(ctx, self.0.token)->0, &<G as Reads<O1>>::reading(ctx, self.1.token)->0, &<G as Reads<O2>>::reading(ctx, self.2.token)->0, &<G as Reads<O3>>::reading(ctx, self.3.token)->0, &<G as Reads<O4>>::reading(ctx, self.4.token)->0, &<G as Reads<O5>>::reading(ctx, self.5.token)->0), changed)
    }

    open spec fn readable_mut(&self, ctx: &G) -> bool {
        &&& <G as Reads<O0>>::reading(ctx, self.0.token) is Some
        &&& <G as Reads<O1>>::reading(ctx, self.1.token) is Some
        &&& <G as Reads<O2>>::reading(ctx, self.2.token) is Some
        &&& <G as Reads<O3>>::reading(ctx, self.3.token) is Some
        &&& <G as Reads<O4>>::reading(ctx, self.4.token) is Some
        &&& <G as Reads<O5>>::reading(ctx, self.5.token) is Some
    }

    fn apply_mut(&self, f: &mut F, out: &mut Out, ctx: &G) -> (changed: Option<bool>) {
        let v0: &O0 = match <G as Reads<O0>>::get(ctx, &self.0) {
            Some(v) => v,
            None => {
                return None;
            },
        };
        let v1: &O1 = match <G as Reads<O1>>::get(ctx, &self.1) {
            Some(v) => v,
            None => {
                return None;
            },
        };
        let v2: &O2 = match <G as Reads<O2>>::get(ctx, &self.2) {
            Some(v) => v,
            None => {
                return None;
            },
        };
        let v3: &O3 = match <G as Reads<O3>>::get(ctx, &self.3) {
            Some(v) => v,
            None => {
                return None;
            },
        };
        let v4: &O4 = match <G as Reads<O4>>::get(ctx, &self.4) {
            Some(v) => v,
            None => {
                return None;
            },
        };
        let v5: &O5 = match <G as Reads<O5>>::get(ctx, &self.5) {
            Some(v) => v,
            None => {
                return None;
            },
        };
        let changed: bool = f(out, v0, v1, v2, v3, v4, v5);
        assert(forall|o: &mut Out| #[trigger] call_ensures(*old(f), (o, v0, v1, v2, v3, v4, v5), changed) ==> behind(o) == *o);
        Some(changed)
    }
}

impl<O0, O1, O2, O3, O4, O5, O6> Inputs for (Anchor<O0>, Anchor<O1>, Anchor<O2>, Anchor<O3>, Anchor<O4>, Anchor<O5>, Anchor<O6>) {
    open spec fn tokens(&self) -> Seq<AnchorToken> {
        seq![self.0.token, self.1.token, self.2.token, self.3.token, self.4.token, self.5.token, self.6.token]
    }

    proof fn some(&self) {
    }

    fn list(&self) -> (list: Vec<AnchorToken>) {
        let list: Vec<AnchorToken> = vec![self.0.token, self.1.token, self.2.token, self.3.token, self.4.token, self.5.token, self.6.token];
        assert(list@ =~= self.tokens());
        list
    }
}

impl<O0, O1, O2, O3, O4, O5, O6, F: FnMut(&O0, &O1, &O2, &O3, &O4, &O5, &O6) -> R, R> Takes<F, R> for (Anchor<O0>, Anchor<O1>, Anchor<O2>, Anchor<O3>, Anchor<O4>, Anchor<O5>, Anchor<O6>) {
    open spec fn callable(&self, f: F) -> bool {
        forall|v0: O0, v1: O1, v2: O2, v3: O3, v4: O4, v5: O5, v6: O6| call_requires(f, (&v0, &v1, &v2, &v3, &v4, &v5, &v6))
    }
}

impl<O0, O1, O2, O3, O4, O5, O6, G: Reads<O0> + Reads<O1> + Reads<O2> + Reads<O3> + Reads<O4> + Reads<O5> + Reads<O6>, F: FnMut(&O0, &O1, &O2, &O3, &O4, &O5, &O6) -> R, R> Applies<G, F, R> for (Anchor<O0>, Anchor<O1>, Anchor<O2>, Anchor<O3>, Anchor<O4>, Anchor<O5>, Anchor<O6>) {
    open spec fn gives(&self, f: F, outs: Map<AnchorToken, G::V>, r: R) -> bool {
        call_ensures(f, (&<G as Reads<O0>>::cast(outs[self.0.token]), &<G as Reads<O1>>::cast(outs[self.1.token]), &<G as Reads<O2>>::cast(outs[self.2.token]), &<G as Reads<O3>>::cast(outs[self.3.token]), &<G as Reads<O4>>::cast(outs[self.4.token]), &<G as Reads<O5>>::cast(outs[self.5.token]), &<G as Reads<O6>>::cast(outs[self.6.token])), r)
    }

    open spec fn gives_read(&self, f: F, ctx: &G, r: R) -> bool {
        call_ensures(f, (&<G as Reads<O0>>::reading(ctx, self.0.token)->0, &<G as Reads<O1>>::reading(ctx, self.1.token)->0, &<G as Reads<O2>>::reading(ctx, self.2.token)->0, &<G as Reads<O3>>::reading(ctx, self.3.token)->0, &<G as Reads<O4>>::reading(ctx, self.4.token)->0, &<G as Reads<O5>>::reading(ctx, self.5.token)->0, &<G as Reads<O6>>::reading(ctx, self.6.token)->0), r)
    }

    open spec fn readable(&self, ctx: &G) -> bool {
        &&& <G as Reads<O0>>::reading(ctx, self.0.token) is Some
        &&& <G as Reads<O1>>::reading(ctx, self.1.token) is Some
        &&& <G as Reads<O2>>::reading(ctx, self.2.token) is Some
        &&& <G as Reads<O3>>::reading(ctx, self.3.token) is Some
        &&& <G as Reads<O4>>::reading(ctx, self.4.token) is Some
        &&& <G as Reads<O5>>::reading(ctx, self.5.token) is Some
        &&& <G as Reads<O6>>::reading(ctx, self.6.token) is Some
    }

    proof fn depends(&self, f: F, a: Map<AnchorToken, G::V>, b: Map<AnchorToken, G::V>, r: R) {
        assert(a[self.tokens()[0]] == b[self.tokens()[0]]);
        assert(a[self.tokens()[1]] == b[self.tokens()[1]]);
        assert(a[self.tokens()[2]] == b[self.tokens()[2]]);
        assert(a[self.tokens()[3]] == b[self.tokens()[3]]);
        assert(a[self.tokens()[4]] == b[self.tokens()[4]]);
        assert(a[self.tokens()[5]] == b[self.tokens()[5]]);
        assert(a[self.tokens()[6]] == b[self.tokens()[6]]);
    }

    fn apply(&self, f: &mut F, ctx: &G) -> (r: Option<R>) {
        let v0: &O0 = match <G as Reads<O0>>::get(ctx, &self.0) {
            Some(v) => v,
            None => {
                return None;
            },
        };
        let v1: &O1 = match <G as Reads<O1>>::get(ctx, &self.1) {
            Some(v) => v,
            None => {
                return None;
            },
        };
        let v2: &O2 = match <G as Reads<O2>>::get(ctx, &self.2) {
            Some(v) => v,
            None => {
                return None;
            },
        };
        let v3: &O3 = match <G as Reads<O3>>::get(ctx, &self.3) {
            Some(v) => v,
            None => {
                return None;
            },
        };
        let v4: &O4 = match <G as Reads<O4>>::get(ctx, &self.4) {
            Some(v) => v,
            None => {
                return None;
            },
        };
        let v5: &O5 = match <G as Reads<O5>>::get(ctx, &self.5) {
            Some(v) => v,
            None => {
                return None;
            },
        };
        let v6: &O6 = match <G as Reads<O6>>::get(ctx, &self.6) {
            Some(v) => v,
            None => {
                return None;
            },
        };
        proof {
            if !ctx.degraded() {
            <G as Reads<O0>>::reading_is_now(ctx, self.0.token);
            <G as Reads<O1>>::reading_is_now(ctx, self.1.token);
            <G as Reads<O2>>::reading_is_now(ctx, self.2.token);
            <G as Reads<O3>>::reading_is_now(ctx, self.3.token);
            <G as Reads<O4>>::reading_is_now(ctx, self.4.token);
            <G as Reads<O5>>::reading_is_now(ctx, self.5.token);
            <G as Reads<O6>>::reading_is_now(ctx, self.6.token);
            }
        }
        Some(f(v0, v1, v2, v3, v4, v5, v6))
    }
}

impl<O0, O1, O2, O3, O4, O5, O6, F: FnMut(&mut Out, &O0, &O1, &O2, &O3, &O4, &O5, &O6) -> bool, Out> TakesMut<F, Out> for (Anchor<O0>, Anchor<O1>, Anchor<O2>, Anchor<O3>, Anchor<O4>, Anchor<O5>, Anchor<O6>) {
    open spec fn callable_mut(&self, f: F) -> bool {
        forall|out: &mut Out, v0: O0, v1: O1, v2: O2, v3: O3, v4: O4, v5: O5, v6: O6| call_requires(f, (out, &v0, &v1, &v2, &v3, &v4, &v5, &v6))
    }
}

impl<O0, O1, O2, O3, O4, O5, O6, G: Reads<O0> + Reads<O1> + Reads<O2> + Reads<O3> + Reads<O4> + Reads<O5> + Reads<O6>, F: FnMut(&mut Out, &O0, &O1, &O2, &O3, &O4, &O5, &O6) -> bool, Out> AppliesMut<G, F, Out> for (Anchor<O0>, Anchor<O1>, Anchor<O2>, Anchor<O3>, Anchor<O4>, Anchor<O5>, Anchor<O6>) {
    open spec fn makes(&self, f: F, out: &mut Out, ctx: &G, changed: bool) -> bool {
        call_ensures(f, (out, &<G as Reads<O0>>::reading(ctx, self.0.token)->0, &<G as Reads<O1>>::reading(ctx, self.1.token)->0, &<G as Reads<O2>>::reading(ctx, self.2.token)->0, &<G as Reads<O3>>::reading(ctx, self.3.token)->0, &<G as Reads<O4>>::reading(ctx, self.4.token)->0, &<G as Reads<O5>>::reading(ctx, self.5.token)->0, &<G as Reads<O6>>::reading(ctx, self.6.token)->0), changed)
    }

    open spec fn readable_mut(&self, ctx: &G) -> bool {
        &&& <G as Reads<O0>>::reading(ctx, self.0.token) is Some
        &&& <G as Reads<O1>>::reading(ctx, self.1.token) is Some
        &&& <G as Reads<O2>>::reading(ctx, self.2.token) is Some
        &&& <G as Reads<O3>>::reading(ctx, self.3.token) is Some
        &&& <G as Reads<O4>>::reading(ctx, self.4.token) is Some
        &&& <G as Reads<O5>>::reading(ctx, self.5.token) is Some
        &&& <G as Reads<O6>>::reading(ctx, self.6.token) is Some
    }

    fn apply_mut(&self, f: &mut F, out: &mut Out, ctx: &G) -> (changed: Option<bool>) {
        let v0: &O0 = match <G as Reads<O0>>::get(ctx, &self.0) {
            Some(v) => v,
            None => {
                return None;
            },
        };
        let v1: &O1 = match <G as Reads<O1>>::get(ctx, &self.1) {
            Some(v) => v,
            None => {
                return None;
            },
        };
        let v2: &O2 = match <G as Reads<O2>>::get(ctx, &self.2) {
            Some(v) => v,
            None => {
                return None;
            },
        };
        let v3: &O3 = match <G as Reads<O3>>::get(ctx, &self.3) {
            Some(v) => v,
            None => {
                return None;
            },
        };
        let v4: &O4 = match <G as Reads<O4>>::get(ctx, &self.4) {
            Some(v) => v,
            None => {
                return None;
            },
        };
        let v5: &O5 = match <G as Reads<O5>>::get(ctx, &self.5) {
            Some(v) => v,
            None => {
                return None;
            },
        };
        let v6: &O6 = match <G as Reads<O6>>::get(ctx, &self.6) {
            Some(v) => v,
            None => {
                return None;
            },
        };
        let changed: bool = f(out, v0, v1, v2, v3, v4, v5, v6);
        assert(forall|o: &mut Out| #[trigger] call_ensures(*old(f), (o, v0, v1, v2, v3, v4, v5, v6), changed) ==> behind(o) == *o);
        Some(changed)
    }
}

impl<O0, O1, O2, O3, O4, O5, O6, O7> Inputs for (Anchor<O0>, Anchor<O1>, Anchor<O2>, Anchor<O3>, Anchor<O4>, Anchor<O5>, Anchor<O6>, Anchor<O7>) {
    open spec fn tokens(&self) -> Seq<AnchorToken> {
        seq![self.0.token, self.1.token, self.2.token, self.3.token, self.4.token, self.5.token, self.6.token, self.7.token]
    }

    proof fn some(&self) {
    }

    fn list(&self) -> (list: Vec<AnchorToken>) {
        let list: Vec<AnchorToken> = vec![self.0.token, self.1.token, self.2.token, self.3.token, self.4.token, self.5.token, self.6.token, self.7.token];
        assert(list@ =~= self.tokens());
        list
    }
}

impl<O0, O1, O2, O3, O4, O5, O6, O7, F: FnMut(&O0, &O1, &O2, &O3, &O4, &O5, &O6, &O7) -> R, R> Takes<F, R> for (Anchor<O0>, Anchor<O1>, Anchor<O2>, Anchor<O3>, Anchor<O4>, Anchor<O5>, Anchor<O6>, Anchor<O7>) {
    open spec fn callable(&self, f: F) -> bool {
        forall|v0: O0, v1: O1, v2: O2, v3: O3, v4: O4, v5: O5, v6: O6, v7: O7| call_requires(f, (&v0, &v1, &v2, &v3, &v4, &v5, &v6, &v7))
    }
}

impl<O0, O1, O2, O3, O4, O5, O6, O7, G: Reads<O0> + Reads<O1> + Reads<O2> + Reads<O3> + Reads<O4> + Reads<O5> + Reads<O6> + Reads<O7>, F: FnMut(&O0, &O1, &O2, &O3, &O4, &O5, &O6, &O7) -> R, R> Applies<G, F, R> for (Anchor<O0>, Anchor<O1>, Anchor<O2>, Anchor<O3>, Anchor<O4>, Anchor<O5>, Anchor<O6>, Anchor<O7>) {
    open spec fn gives(&self, f: F, outs: Map<AnchorToken, G::V>, r: R) -> bool {
        call_ensures(f, (&<G as Reads<O0>>::cast(outs[self.0.token]), &<G as Reads<O1>>::cast(outs[self.1.token]), &<G as Reads<O2>>::cast(outs[self.2.token]), &<G as Reads<O3>>::cast(outs[self.3.token]), &<G as Reads<O4>>::cast(outs[self.4.token]), &<G as Reads<O5>>::cast(outs[self.5.token]), &<G as Reads<O6>>::cast(outs[self.6.token]), &<G as Reads<O7>>::cast(outs[self.7.token])), r)
    }

    open spec fn gives_read(&self, f: F, ctx: &G, r: R) -> bool {
        call_ensures(f, (&<G as Reads<O0>>::reading(ctx, self.0.token)->0, &<G as Reads<O1>>::reading(ctx, self.1.token)->0, &<G as Reads<O2>>::reading(ctx, self.2.token)->0, &<G as Reads<O3>>::reading(ctx, self.3.token)->0, &<G as Reads<O4>>::reading(ctx, self.4.token)->0, &<G as Reads<O5>>::reading(ctx, self.5.token)->0, &<G as Reads<O6>>::reading(ctx, self.6.token)->0, &<G as Reads<O7>>::reading(ctx, self.7.token)->0), r)
    }

    open spec fn readable(&self, ctx: &G) -> bool {
        &&& <G as Reads<O0>>::reading(ctx, self.0.token) is Some
        &&& <G as Reads<O1>>::reading(ctx, self.1.token) is Some
        &&& <G as Reads<O2>>::reading(ctx, self.2.token) is Some
        &&& <G as Reads<O3>>::reading(ctx, self.3.token) is Some
        &&& <G as Reads<O4>>::reading(ctx, self.4.token) is Some
        &&& <G as Reads<O5>>::reading(ctx, self.5.token) is Some
        &&& <G as Reads<O6>>::reading(ctx, self.6.token) is Some
        &&& <G as Reads<O7>>::reading(ctx, self.7.token) is Some
    }

    proof fn depends(&self, f: F, a: Map<AnchorToken, G::V>, b: Map<AnchorToken, G::V>, r: R) {
        assert(a[self.tokens()[0]] == b[self.tokens()[0]]);
        assert(a[self.tokens()[1]] == b[self.tokens()[1]]);
        assert(a[self.tokens()[2]] == b[self.tokens()[2]]);
        assert(a[self.tokens()[3]] == b[self.tokens()[3]]);
        assert(a[self.tokens()[4]] == b[self.tokens()[4]]);
        assert(a[self.tokens()[5]] == b[self.tokens()[5]]);
        assert(a[self.tokens()[6]] == b[self.tokens()[6]]);
        assert(a[self.tokens()[7]] == b[self.tokens()[7]]);
    }

    fn apply(&self, f: &mut F, ctx: &G) -> (r: Option<R>) {
        let v0: &O0 = match <G as Reads<O0>>::get(ctx, &self.0) {
            Some(v) => v,
            None => {
                return None;
            },
        };
        let v1: &O1 = match <G as Reads<O1>>::get(ctx, &self.1) {
            Some(v) => v,
            None => {
                return None;
            },
        };
        let v2: &O2 = match <G as Reads<O2>>::get(ctx, &self.2) {
            Some(v) => v,
            None => {
                return None;
            },
        };
        let v3: &O3 = match <G as Reads<O3>>::get(ctx, &self.3) {
            Some(v) => v,
            None => {
                return None;
            },
        };
        let v4: &O4 = match <G as Reads<O4>>::get(ctx, &self.4) {
            Some(v) => v,
            None => {
                return None;
            },
        };
        let v5: &O5 = match <G as Reads<O5>>::get(ctx, &self.5) {
            Some(v) => v,
            None => {
                return None;
            },
        };
        let v6: &O6 = match <G as Reads<O6>>::get(ctx, &self.6) {
            Some(v) => v,
            None => {
                return None;
            },
        };
        let v7: &O7 = match <G as Reads<O7>>::get(ctx, &self.7) {
            Some(v) => v,
            None => {
                return None;
            },
        };
        proof {
            if !ctx.degraded() {
            <G as Reads<O0>>::reading_is_now(ctx, self.0.token);
            <G as Reads<O1>>::reading_is_now(ctx, self.1.token);
            <G as Reads<O2>>::reading_is_now(ctx, self.2.token);
            <G as Reads<O3>>::reading_is_now(ctx, self.3.token);
            <G as Reads<O4>>::reading_is_now(ctx, self.4.token);
            <G as Reads<O5>>::reading_is_now(ctx, self.5.token);
            <G as Reads<O6>>::reading_is_now(ctx, self.6.token);
            <G as Reads<O7>>::reading_is_now(ctx, self.7.token);
            }
        }
        Some(f(v0, v1, v2, v3, v4, v5, v6, v7))
    }
}

impl<O0, O1, O2, O3, O4, O5, O6, O7, F: FnMut(&mut Out, &O0, &O1, &O2, &O3, &O4, &O5, &O6, &O7) -> bool, Out> TakesMut<F, Out> for (Anchor<O0>, Anchor<O1>, Anchor<O2>, Anchor<O3>, Anchor<O4>, Anchor<O5>, Anchor<O6>, Anchor<O7>) {
    open spec fn callable_mut(&self, f: F) -> bool {
        forall|out: &mut Out, v0: O0, v1: O1, v2: O2, v3: O3, v4: O4, v5: O5, v6: O6, v7: O7| call_requires(f, (out, &v0, &v1, &v2, &v3, &v4, &v5, &v6, &v7))
    }
}

impl<O0, O1, O2, O3, O4, O5, O6, O7, G: Reads<O0> + Reads<O1> + Reads<O2> + Reads<O3> + Reads<O4> + Reads<O5> + Reads<O6> + Reads<O7>, F: FnMut(&mut Out, &O0, &O1, &O2, &O3, &O4, &O5, &O6, &O7) -> bool, Out> AppliesMut<G, F, Out> for (Anchor<O0>, Anchor<O1>, Anchor<O2>, Anchor<O3>, Anchor<O4>, Anchor<O5>, Anchor<O6>, Anchor<O7>) {
    open spec fn makes(&self, f: F, out: &mut Out, ctx: &G, changed: bool) -> bool {
        call_ensures(f, (out, &<G as Reads<O0>>::reading(ctx, self.0.token)->0, &<G as Reads<O1>>::reading(ctx, self.1.token)->0, &<G as Reads<O2>>::reading(ctx, self.2.token)->0, &<G as Reads<O3>>::reading(ctx, self.3.token)->0, &<G as Reads<O4>>::reading(ctx, self.4.token)->0, &<G as Reads<O5>>::reading(ctx, self.5.token)->0, &<G as Reads<O6>>::reading(ctx, self.6.token)->0, &<G as Reads<O7>>::reading(ctx, self.7.token)->0), changed)
    }

    open spec fn readable_mut(&self, ctx: &G) -> bool {
        &&& <G as Reads<O0>>::reading(ctx, self.0.token) is Some
        &&& <G as Reads<O1>>::reading(ctx, self.1.token) is Some
        &&& <G as Reads<O2>>::reading(ctx, self.2.token) is Some
        &&& <G as Reads<O3>>::reading(ctx, self.3.token) is Some
        &&& <G as Reads<O4>>::reading(ctx, self.4.token) is Some
        &&& <G as Reads<O5>>::reading(ctx, self.5.token) is Some
        &&& <G as Reads<O6>>::reading(ctx, self.6.token) is Some
        &&& <G as Reads<O7>>::reading(ctx, self.7.token) is Some
    }

    fn apply_mut(&self, f: &mut F, out: &mut Out, ctx: &G) -> (changed: Option<bool>) {
        let v0: &O0 = match <G as Reads<O0>>::get(ctx, &self.0) {
            Some(v) => v,
            None => {
                return None;
            },
        };
        let v1: &O1 = match <G as Reads<O1>>::get(ctx, &self.1) {
            Some(v) => v,
            None => {
                return None;
            },
        };
        let v2: &O2 = match <G as Reads<O2>>::get(ctx, &self.2) {
            Some(v) => v,
            None => {
                return None;
            },
        };
        let v3: &O3 = match <G as Reads<O3>>::get(ctx, &self.3) {
            Some(v) => v,
            None => {
                return None;
            },
        };
        let v4: &O4 = match <G as Reads<O4>>::get(ctx, &self.4) {
            Some(v) => v,
            None => {
                return None;
            },
        };
        let v5: &O5 = match <G as Reads<O5>>::get(ctx, &self.5) {
            Some(v) => v,
            None => {
                return None;
            },
        };
        let v6: &O6 = match <G as Reads<O6>>::get(ctx, &self.6) {
            Some(v) => v,
            None => {
                return None;
            },
        };
        let v7: &O7 = match <G as Reads<O7>>::get(ctx, &self.7) {
            Some(v) => v,
            None => {
                return None;
            },
        };
        let changed: bool = f(out, v0, v1, v2, v3, v4, v5, v6, v7);
        assert(forall|o: &mut Out| #[trigger] call_ensures(*old(f), (o, v0, v1, v2, v3, v4, v5, v6, v7), changed) ==> behind(o) == *o);
        Some(changed)
    }
}

impl<O0, O1, O2, O3, O4, O5, O6, O7, O8> Inputs for (Anchor<O0>, Anchor<O1>, Anchor<O2>, Anchor<O3>, Anchor<O4>, Anchor<O5>, Anchor<O6>, Anchor<O7>, Anchor<O8>) {
    open spec fn tokens(&self) -> Seq<AnchorToken> {
        seq![self.0.token, self.1.token, self.2.token, self.3.token, self.4.token, self.5.token, self.6.token, self.7.token, self.8.token]
    }

    proof fn some(&self) {
    }

    fn list(&self) -> (list: Vec<AnchorToken>) {
        let list: Vec<AnchorToken> = vec![self.0.token, self.1.token, self.2.token, self.3.token, self.4.token, self.5.token, self.6.token, self.7.token, self.8.token];
        assert(list@ =~= self.tokens());
        list
    }
}

impl<O0, O1, O2, O3, O4, O5, O6, O7, O8, F: FnMut(&O0, &O1, &O2, &O3, &O4, &O5, &O6, &O7, &O8) -> R, R> Takes<F, R> for (Anchor<O0>, Anchor<O1>, Anchor<O2>, Anchor<O3>, Anchor<O4>, Anchor<O5>, Anchor<O6>, Anchor<O7>, Anchor<O8>) {
    open spec fn callable(&self, f: F) -> bool {
        forall|v0: O0, v1: O1, v2: O2, v3: O3, v4: O4, v5: O5, v6: O6, v7: O7, v8: O8| call_requires(f, (&v0, &v1, &v2, &v3, &v4, &v5, &v6, &v7, &v8))
    }
}

impl<O0, O1, O2, O3, O4, O5, O6, O7, O8, G: Reads<O0> + Reads<O1> + Reads<O2> + Reads<O3> + Reads<O4> + Reads<O5> + Reads<O6> + Reads<O7> + Reads<O8>, F: FnMut(&O0, &O1, &O2, &O3, &O4, &O5, &O6, &O7, &O8) -> R, R> Applies<G, F, R> for (Anchor<O0>, Anchor<O1>, Anchor<O2>, Anchor<O3>, Anchor<O4>, Anchor<O5>, Anchor<O6>, Anchor<O7>, Anchor<O8>) {
    open spec fn gives(&self, f: F, outs: Map<AnchorToken, G::V>, r: R) -> bool {
        call_ensures(f, (&<G as Reads<O0>>::cast(outs[self.0.token]), &<G as Reads<O1>>::cast(outs[self.1.token]), &<G as Reads<O2>>::cast(outs[self.2.token]), &<G as Reads<O3>>::cast(outs[self.3.token]), &<G as Reads<O4>>::cast(outs[self.4.token]), &<G as Reads<O5>>::cast(outs[self.5.token]), &<G as Reads<O6>>::cast(outs[self.6.token]), &<G as Reads<O7>>::cast(outs[self.7.token]), &<G as Reads<O8>>::cast(outs[self.8.token])), r)
    }

    open spec fn gives_read(&self, f: F, ctx: &G, r: R) -> bool {
        call_ensures(f, (&<G as Reads<O0>>::reading(ctx, self.0.token)->0, &<G as Reads<O1>>::reading(ctx, self.1.token)->0, &<G as Reads<O2>>::reading(ctx, self.2.token)->0, &<G as Reads<O3>>::reading(ctx, self.3.token)->0, &<G as Reads<O4>>::reading(ctx, self.4.token)->0, &<G as Reads<O5>>::reading(ctx, self.5.token)->0, &<G as Reads<O6>>::reading(ctx, self.6.token)->0, &<G as Reads<O7>>::reading(ctx, self.7.token)->0, &<G as Reads<O8>>::reading(ctx, self.8.token)->0), r)
    }

    open spec fn readable(&self, ctx: &G) -> bool {
        &&& <G as Reads<O0>>::reading(ctx, self.0.token) is Some
        &&& <G as Reads<O1>>::reading(ctx, self.1.token) is Some
        &&& <G as Reads<O2>>::reading(ctx, self.2.token) is Some
        &&& <G as Reads<O3>>::reading(ctx, self.3.token) is Some
        &&& <G as Reads<O4>>::reading(ctx, self.4.token) is Some
        &&& <G as Reads<O5>>::reading(ctx, self.5.token) is Some
        &&& <G as Reads<O6>>::reading(ctx, self.6.token) is Some
        &&& <G as Reads<O7>>::reading(ctx, self.7.token) is Some
        &&& <G as Reads<O8>>::reading(ctx, self.8.token) is Some
    }

    proof fn depends(&self, f: F, a: Map<AnchorToken, G::V>, b: Map<AnchorToken, G::V>, r: R) {
        assert(a[self.tokens()[0]] == b[self.tokens()[0]]);
        assert(a[self.tokens()[1]] == b[self.tokens()[1]]);
        assert(a[self.tokens()[2]] == b[self.tokens()[2]]);
        assert(a[self.tokens()[3]] == b[self.tokens()[3]]);
        assert(a[self.tokens()[4]] == b[self.tokens()[4]]);
        assert(a[self.tokens()[5]] == b[self.tokens()[5]]);
        assert(a[self.tokens()[6]] == b[self.tokens()[6]]);
        assert(a[self.tokens()[7]] == b[self.tokens()[7]]);
        assert(a[self.tokens()[8]] == b[self.tokens()[8]]);
    }

    fn apply(&self, f: &mut F, ctx: &G) -> (r: Option<R>) {
        let v0: &O0 = match <G as Reads<O0>>::get(ctx, &self.0) {
            Some(v) => v,
            None => {
                return None;
            },
        };
        let v1: &O1 = match <G as Reads<O1>>::get(ctx, &self.1) {
            Some(v) => v,
            None => {
                return None;
            },
        };
        let v2: &O2 = match <G as Reads<O2>>::get(ctx, &self.2) {
            Some(v) => v,
            None => {
                return None;
            },
        };
        let v3: &O3 = match <G as Reads<O3>>::get(ctx, &self.3) {
            Some(v) => v,
            None => {
                return None;
            },
        };
        let v4: &O4 = match <G as Reads<O4>>::get(ctx, &self.4) {
            Some(v) => v,
            None => {
                return None;
            },
        };
        let v5: &O5 = match <G as Reads<O5>>::get(ctx, &self.5) {
            Some(v) => v,
            None => {
                return None;
            },
        };
        let v6: &O6 = match <G as Reads<O6>>::get(ctx, &self.6) {
            Some(v) => v,
            None => {
                return None;
            },
        };
        let v7: &O7 = match <G as Reads<O7>>::get(ctx, &self.7) {
            Some(v) => v,
            None => {
                return None;
            },
        };
        let v8: &O8 = match <G as Reads<O8>>::get(ctx, &self.8) {
            Some(v) => v,
            None => {
                return None;
            },
        };
        proof {
            if !ctx.degraded() {
            <G as Reads<O0>>::reading_is_now(ctx, self.0.token);
            <G as Reads<O1>>::reading_is_now(ctx, self.1.token);
            <G as Reads<O2>>::reading_is_now(ctx, self.2.token);
            <G as Reads<O3>>::reading_is_now(ctx, self.3.token);
            <G as Reads<O4>>::reading_is_now(ctx, self.4.token);
            <G as Reads<O5>>::reading_is_now(ctx, self.5.token);
            <G as Reads<O6>>::reading_is_now(ctx, self.6.token);
            <G as Reads<O7>>::reading_is_now(ctx, self.7.token);
            <G as Reads<O8>>::reading_is_now(ctx, self.8.token);
            }
        }
        Some(f(v0, v1, v2, v3, v4, v5, v6, v7, v8))
    }
}

impl<O0, O1, O2, O3, O4, O5, O6, O7, O8, F: FnMut(&mut Out, &O0, &O1, &O2, &O3, &O4, &O5, &O6, &O7, &O8) -> bool, Out> TakesMut<F, Out> for (Anchor<O0>, Anchor<O1>, Anchor<O2>, Anchor<O3>, Anchor<O4>, Anchor<O5>, Anchor<O6>, Anchor<O7>, Anchor<O8>) {
    open spec fn callable_mut(&self, f: F) -> bool {
        forall|out: &mut Out, v0: O0, v1: O1, v2: O2, v3: O3, v4: O4, v5: O5, v6: O6, v7: O7, v8: O8| call_requires(f, (out, &v0, &v1, &v2, &v3, &v4, &v5, &v6, &v7, &v8))
    }
}

impl<O0, O1, O2, O3, O4, O5, O6, O7, O8, G: Reads<O0> + Reads<O1> + Reads<O2> + Reads<O3> + Reads<O4> + Reads<O5> + Reads<O6> + Reads<O7> + Reads<O8>, F: FnMut(&mut Out, &O0, &O1, &O2, &O3, &O4, &O5, &O6, &O7, &O8) -> bool, Out> AppliesMut<G, F, Out> for (Anchor<O0>, Anchor<O1>, Anchor<O2>, Anchor<O3>, Anchor<O4>, Anchor<O5>, Anchor<O6>, Anchor<O7>, Anchor<O8>) {
    open spec fn makes(&self, f: F, out: &mut Out, ctx: &G, changed: bool) -> bool {
        call_ensures(f, (out, &<G as Reads<O0>>::reading(ctx, self.0.token)->0, &<G as Reads<O1>>::reading(ctx, self.1.token)->0, &<G as Reads<O2>>::reading(ctx, self.2.token)->0, &<G as Reads<O3>>::reading(ctx, self.3.token)->0, &<G as Reads<O4>>::reading(ctx, self.4.token)->0, &<G as Reads<O5>>::reading(ctx, self.5.token)->0, &<G as Reads<O6>>::reading(ctx, self.6.token)->0, &<G as Reads<O7>>::reading(ctx, self.7.token)->0, &<G as Reads<O8>>::reading(ctx, self.8.token)->0), changed)
    }

    open spec fn readable_mut(&self, ctx: &G) -> bool {
        &&& <G as Reads<O0>>::reading(ctx, self.0.token) is Some
        &&& <G as Reads<O1>>::reading(ctx, self.1.token) is Some
        &&& <G as Reads<O2>>::reading(ctx, self.2.token) is Some
        &&& <G as Reads<O3>>::reading(ctx, self.3.token) is Some
        &&& <G as Reads<O4>>::reading(ctx, self.4.token) is Some
        &&& <G as Reads<O5>>::reading(ctx, self.5.token) is Some
        &&& <G as Reads<O6>>::reading(ctx, self.6.token) is Some
        &&& <G as Reads<O7>>::reading(ctx, self.7.token) is Some
        &&& <G as Reads<O8>>::reading(ctx, self.8.token) is Some
    }

    fn apply_mut(&self, f: &mut F, out: &mut Out, ctx: &G) -> (changed: Option<bool>) {
        let v0: &O0 = match <G as Reads<O0>>::get(ctx, &self.0) {
            Some(v) => v,
            None => {
                return None;
            },
        };
        let v1: &O1 = match <G as Reads<O1>>::get(ctx, &self.1) {
            Some(v) => v,
            None => {
                return None;
            },
        };
        let v2: &O2 = match <G as Reads<O2>>::get(ctx, &self.2) {
            Some(v) => v,
            None => {
                return None;
            },
        };
        let v3: &O3 = match <G as Reads<O3>>::get(ctx, &self.3) {
            Some(v) => v,
            None => {
                return None;
            },
        };
        let v4: &O4 = match <G as Reads<O4>>::get(ctx, &self.4) {
            Some(v) => v,
            None => {
                return None;
            },
        };
        let v5: &O5 = match <G as Reads<O5>>::get(ctx, &self.5) {
            Some(v) => v,
            None => {
                return None;
            },
        };
        let v6: &O6 = match <G as Reads<O6>>::get(ctx, &self.6) {
            Some(v) => v,
            None => {
                return None;
            },
        };
        let v7: &O7 = match <G as Reads<O7>>::get(ctx, &self.7) {
            Some(v) => v,
            None => {
                return None;
            },
        };
        let v8: &O8 = match <G as Reads<O8>>::get(ctx, &self.8) {
            Some(v) => v,
            None => {
                return None;
            },
        };
        let changed: bool = f(out, v0, v1, v2, v3, v4, v5, v6, v7, v8);
        assert(forall|o: &mut Out| #[trigger] call_ensures(*old(f), (o, v0, v1, v2, v3, v4, v5, v6, v7, v8), changed) ==> behind(o) == *o);
        Some(changed)
    }
}

} // verus!
