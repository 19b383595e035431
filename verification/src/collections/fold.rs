//! Anchors that follow a collection by its changes.

use crate::expert::equal::{alike, equal, unlike};
use crate::expert::ext::then_clone::asked_one;
use crate::expert::inputs::{lemma_within_less, lemma_within_more, lemma_within_removed, request_all, requested, within, Found};
use crate::expert::{Anchor, AnchorInner, AnchorOutput, AnchorToken, OutputRef, Poll, Reads};
use vstd::prelude::*;

verus! {

/// A collection that can be followed by its changes.
pub trait Followed: Sized {
    /// What a collection holds.
    type Model;

    type Change: Copy;

    spec fn model(&self) -> Self::Model;

    /// What an empty collection holds.
    spec fn none() -> Self::Model;

    spec fn size(model: Self::Model) -> nat;

    /// `changes` lead from `a` to `b`.
    spec fn changes(a: Self::Model, b: Self::Model, changes: Seq<Self::Change>) -> bool;

    fn nothing() -> (c: Self)
        ensures
            c.model() == Self::none(),
    ;

    fn count(&self) -> (n: usize)
        ensures
            n == Self::size(self.model()),
    ;

    fn copy(&self) -> (c: Self)
        ensures
            c.model() == self.model(),
    ;

    fn diff(&self, new: &Self) -> (changes: Vec<Self::Change>)
        ensures
            Self::changes(self.model(), new.model(), changes@),
    ;
}

/// A way to follow a collection: an output that is brought up to date by one change after the other.
/// Besides the change a step is given another value, and the size that the collection has in the end.
pub trait Folds<C: Followed, A, T>: Sized {
    /// A step can be made from any output.
    spec fn able(&self) -> bool;

    /// `out` is an output to begin with.
    spec fn begins(&self, out: T) -> bool;

    /// A step on `change` can make `next` of `out`, and say by `did` whether that is a change.
    spec fn stepped(&self, a: A, out: T, change: C::Change, len: usize, next: T, did: bool) -> bool;

    /// `out` is what the items of a collection come to.
    spec fn settled(&self, a: A, all: C::Model, out: T) -> bool;

    /// An empty collection comes to the output to begin with.
    proof fn begins_settled(&self, a: A, out: T)
        requires
            self.begins(out),
        ensures
            self.settled(a, C::none(), out),
    ;

    /// Steps on all changes lead from what one collection comes to, to what the other comes to.
    proof fn settles(&self, a: A, last: C::Model, all: C::Model, changes: Seq<C::Change>, len: usize, outs: Seq<T>, dids: Seq<bool>)
        requires
            C::changes(last, all, changes),
            len == C::size(all),
            outs.len() == changes.len() + 1,
            dids.len() == changes.len(),
            self.settled(a, last, outs[0]),
            forall|k: int|
                0 <= k < changes.len() ==> self.stepped(a, outs[k], #[trigger] changes[k], len, outs[k + 1], dids[k]),
        ensures
            self.settled(a, all, outs.last()),
    ;

    fn begin(&self) -> (out: T)
        ensures
            self.begins(out),
    ;

    fn step(&mut self, a: &A, out: T, change: C::Change, len: usize) -> (r: (T, bool))
        requires
            old(self).able(),
        ensures
            *final(self) == *old(self),
            old(self).stepped(*a, out, change, len, r.0, r.1),
    ;
}

/// Steps on `changes`, with `outs` the outputs before, between and after them.
pub open spec fn steps<C: Followed, A, T, S: Folds<C, A, T>>(
    s: S,
    a: A,
    changes: Seq<C::Change>,
    len: usize,
    outs: Seq<T>,
    dids: Seq<bool>,
) -> bool {
    &&& outs.len() == changes.len() + 1
    &&& dids.len() == changes.len()
    &&& forall|k: int| 0 <= k < changes.len() ==> s.stepped(a, outs[k], #[trigger] changes[k], len, outs[k + 1], dids[k])
}

/// Following the changes from `last` to `all` can make `next` of `out`, with `did` saying whether some
/// step was a change.
pub open spec fn ran<C: Followed, A, T, S: Folds<C, A, T>>(
    s: S,
    a: A,
    last: C::Model,
    all: C::Model,
    out: T,
    next: T,
    did: bool,
) -> bool {
    exists|changes: Seq<C::Change>, len: usize, outs: Seq<T>, dids: Seq<bool>|
        #![trigger steps::<C, A, T, S>(s, a, changes, len, outs, dids)]
        {
            &&& C::changes(last, all, changes)
            &&& len == C::size(all)
            &&& steps::<C, A, T, S>(s, a, changes, len, outs, dids)
            &&& outs[0] == out
            &&& outs.last() == next
            &&& did == dids.contains(true)
        }
}

/// Makes a step for every change from `last` to `this`.
pub fn run<C: Followed, A, T, S: Folds<C, A, T>>(f: &mut S, a: &A, out: T, last: &C, this: &C) -> (r: (T, bool))
    requires
        old(f).able(),
    ensures
        *final(f) == *old(f),
        ran::<C, A, T, S>(*old(f), *a, last.model(), this.model(), out, r.0, r.1),
        old(f).settled(*a, last.model(), out) ==> old(f).settled(*a, this.model(), r.0),
{
    let ghost s = *f;
    let ghost start = out;
    let len: usize = this.count();
    let changes: Vec<C::Change> = last.diff(this);
    let ghost mut outs: Seq<T> = seq![out];
    let ghost mut dids: Seq<bool> = Seq::empty();
    let mut out: T = out;
    let mut did = false;
    let mut k: usize = 0;
    while k < changes.len()
        invariant
            k <= changes@.len(),
            *f == s,
            s == *old(f),
            s.able(),
            dids.len() == k,
            outs.len() == k + 1,
            steps::<C, A, T, S>(s, *a, changes@.take(k as int), len, outs, dids),
            outs.last() == out,
            outs[0] == start,
            did == dids.contains(true),
        decreases changes@.len() - k,
    {
        let ghost so_far = outs;
        let ghost done = dids;
        let (next, changed): (T, bool) = f.step(a, out, changes[k], len);
        proof {
            outs = outs.push(next);
            dids = dids.push(changed);
            let some = changes@.take(k as int + 1);
            assert forall|m: int| 0 <= m < some.len() implies s.stepped(*a, outs[m], #[trigger] some[m], len, outs[m + 1], dids[m]) by {
                if m < k {
                    assert(changes@.take(k as int)[m] == some[m]);
                    assert(so_far[m] == outs[m] && so_far[m + 1] == outs[m + 1] && done[m] == dids[m]);
                }
            }
            assert(dids.contains(true) == (done.contains(true) || changed)) by {
                if done.contains(true) {
                    let m = choose|m: int| 0 <= m < done.len() && done[m];
                    assert(dids[m]);
                }
                if changed {
                    assert(dids[k as int]);
                }
                if dids.contains(true) {
                    let m = choose|m: int| 0 <= m < dids.len() && dids[m];
                    if m < k {
                        assert(done[m]);
                    }
                }
            }
        }
        out = next;
        if changed {
            did = true;
        }
        k = k + 1;
    }
    proof {
        assert(changes@.take(k as int) =~= changes@);
        if s.settled(*a, last.model(), start) {
            s.settles(*a, last.model(), this.model(), changes@, len, outs, dids);
        }
    }
    (out, did)
}

/// An anchor that follows the output of `input` by its changes.
pub struct UnorderedFold<C, S, T> {
    pub input: Anchor<C>,
    /// The collection that `output` was last brought up to date with.
    pub last_observation: C,
    pub f: S,
    pub output: Option<T>,
    /// The input has changed since.
    pub output_stale: bool,
    /// The input is gone: the output stays what it is.
    pub degraded_on_invalid: bool,
}

impl<C: Followed, T, S: Folds<C, (), T>> UnorderedFold<C, S, T> {
    pub fn new(input: Anchor<C>, f: S) -> (fold: Self)
        requires
            f.able(),
        ensures
            fold.input == input,
            fold.f == f,
            fold.last_observation.model() == C::none(),
            fold.output is Some && f.begins(fold.output->0),
            fold.output_stale,
            !fold.degraded_on_invalid,
            fold.inv(),
    {
        let output: T = f.begin();
        proof {
            f.begins_settled((), output);
        }
        UnorderedFold {
            input,
            last_observation: C::nothing(),
            f,
            output: Some(output),
            output_stale: true,
            degraded_on_invalid: false,
        }
    }
}

/// What a poll makes of a follower: `a` becomes `b` while the context goes from `before` to `after`.
pub open spec fn fold_step<G: Reads<C>, C: Followed, T, S: Folds<C, (), T>>(
    a: UnorderedFold<C, S, T>,
    b: UnorderedFold<C, S, T>,
    before: &G,
    after: &G,
    poll: Poll,
) -> bool {
    if a.degraded_on_invalid || !a.output_stale {
        &&& b == (UnorderedFold { output_stale: false, ..a })
        &&& *after == *before
        &&& poll is Unchanged
    } else {
        exists|first: Poll| #[trigger]
            asked_one(before, after, a.input.token, first) && if first is PendingInvalidToken {
                &&& b == (UnorderedFold { output_stale: false, degraded_on_invalid: true, ..a })
                &&& poll is Unchanged
            } else if first.waiting() {
                b == a && poll is Pending
            } else if first is Unchanged {
                b == (UnorderedFold { output_stale: false, ..a }) && poll is Unchanged
            } else if after.reading(a.input.token) is None {
                b == a && poll is PendingInvalidToken
            } else {
                &&& poll.ready()
                &&& b.input == a.input
                &&& b.f == a.f
                &&& b.output is Some
                &&& !b.output_stale
                &&& !b.degraded_on_invalid
                &&& b.last_observation.model() == after.reading(a.input.token)->0.model()
                &&& ran::<C, (), T, S>(
                    a.f,
                    (),
                    a.last_observation.model(),
                    b.last_observation.model(),
                    a.output->0,
                    b.output->0,
                    poll is Updated,
                )
            }
    }
}

impl<C: Followed, T, S: Folds<C, (), T>> AnchorOutput for UnorderedFold<C, S, T> {
    type Output = T;

    type Handed = ();

    open spec fn inv(&self) -> bool {
        &&& self.f.able()
        &&& self.output is Some
        &&& self.f.settled((), self.last_observation.model(), self.output->0)
    }

    open spec fn had(&self) -> bool {
        true
    }

    open spec fn alias(&self) -> Option<AnchorToken> {
        None
    }

    open spec fn own(&self) -> T {
        self.output->0
    }

    open spec fn honest(&self) -> bool {
        false
    }

    open spec fn outside(&self) -> Option<()> {
        None
    }

    open spec fn displays(handed: (), out: T) -> bool {
        true
    }

    fn output(&self) -> (out: OutputRef<'_, T>) {
        OutputRef::Own(self.output.as_ref().unwrap())
    }
}

impl<G: Reads<C>, C: Followed, T, S: Folds<C, (), T>> AnchorInner<G> for UnorderedFold<C, S, T> {
    open spec fn current(&self) -> bool {
        true
    }

    open spec fn holds(&self, told: Map<AnchorToken, G::V>) -> bool {
        &&& !self.degraded_on_invalid
        &&& !self.output_stale ==> told.contains_key(self.input.token) && self.last_observation.model() == G::cast(
            told[self.input.token],
        ).model()
    }

    open spec fn sound(&self, told: Map<AnchorToken, G::V>) -> bool {
        told.contains_key(self.input.token)
    }

    /// The output is what the items of the collection come to.
    open spec fn right(&self, seen: Map<AnchorToken, G::V>) -> bool {
        &&& seen.contains_key(self.input.token)
        &&& self.last_observation.model() == G::cast(seen[self.input.token]).model()
        &&& self.f.settled((), G::cast(seen[self.input.token]).model(), self.output->0)
    }

    open spec fn hears(&self, later: &Self, edge: AnchorToken) -> bool {
        *later == (UnorderedFold {
            output_stale: self.output_stale || (!self.degraded_on_invalid && edge == self.input.token),
            ..*self
        })
    }

    open spec fn polls(&self, later: &Self, before: &G, after: &G, poll: Poll) -> bool {
        fold_step(*self, *later, before, after, poll)
    }

    open spec fn leans_on(&self, told: Map<AnchorToken, G::V>, d: AnchorToken) -> bool {
        d == self.input.token
    }

    proof fn less_told(&self, told: Map<AnchorToken, G::V>, less: Map<AnchorToken, G::V>) {
        assert(told.contains_key(self.input.token));
        assert(less.contains_key(self.input.token));
        assert(less.dom().contains(self.input.token));
    }

    proof fn more_told(&self, told: Map<AnchorToken, G::V>, more: Map<AnchorToken, G::V>) {
        if told.contains_key(self.input.token) {
            assert(told.dom().contains(self.input.token));
            assert(more.dom().contains(self.input.token));
        }
    }

    proof fn shows_outside(&self) {
    }

    fn dirty(&mut self, edge: AnchorToken) {
        if !self.degraded_on_invalid && edge == self.input.token {
            self.output_stale = true;
        }
    }

    fn poll_updated(&mut self, ctx: &mut G) -> (poll: Poll) {
        let ghost a = *self;
        let ghost before = *ctx;
        proof {
            before.evolves_reflexive();
        }
        if self.degraded_on_invalid || !self.output_stale {
            self.output_stale = false;
            return Poll::Unchanged;
        }
        let first: Poll = ctx.request(self.input.token, true);
        proof {
            before.evolves_keeps(ctx);
            assert(asked_one(&before, ctx, a.input.token, first));
        }
        if first.is_invalid_token() {
            self.output_stale = false;
            self.degraded_on_invalid = true;
            return Poll::Unchanged;
        }
        if first.is_waiting() {
            return Poll::Pending;
        }
        if first != Poll::Updated {
            self.output_stale = false;
            return Poll::Unchanged;
        }
        let this: &C = match ctx.get(&self.input) {
            Some(this) => this,
            None => {
                return Poll::PendingInvalidToken;
            },
        };
        let mut out: Option<T> = None;
        std::mem::swap(&mut self.output, &mut out);
        let (next, did): (T, bool) = run::<C, (), T, S>(&mut self.f, &(), out.unwrap(), &self.last_observation, this);
        self.output = Some(next);
        self.last_observation = this.copy();
        self.output_stale = false;
        proof {
            if !ctx.degraded() {
                ctx.reading_is_now(a.input.token);
                assert(ctx.told().dom().contains(a.input.token));
                assert(ctx.now().dom().contains(a.input.token));
            }
        }
        if did {
            Poll::Updated
        } else {
            Poll::Unchanged
        }
    }
}

/// An anchor that follows the output of `input` by its changes, with the output of `anchor` given to
/// every step. When that changes, the collection is followed from the start again.
pub struct UnorderedFoldWithAnchor<C, A, S, T> {
    pub anchor: Anchor<A>,
    pub input: Anchor<C>,
    /// The collection that `output` was last brought up to date with.
    pub last_observation: C,
    /// What the steps were last given.
    pub last_observation_a: Option<A>,
    pub f: S,
    pub output: Option<T>,
    /// Some input has changed since.
    pub output_stale: bool,
    /// Some input is gone: the output stays what it is.
    pub degraded_on_invalid: bool,
}

/// `==` and `clone` go by the value itself.
pub open spec fn faithful<A: PartialEq + Clone>() -> bool {
    &&& forall|x: A, y: A| #[trigger] alike(x, y) ==> x == y
    &&& forall|x: A, y: A| #[trigger] cloned(x, y) ==> x == y
}

impl<C: Followed, A: PartialEq + Clone, T, S: Folds<C, A, T>> UnorderedFoldWithAnchor<C, A, S, T> {
    pub fn new(input: Anchor<C>, anchor: Anchor<A>, f: S) -> (fold: Self)
        requires
            f.able(),
        ensures
            fold.input == input,
            fold.anchor == anchor,
            fold.f == f,
            fold.last_observation.model() == C::none(),
            fold.last_observation_a is None,
            fold.output is Some && f.begins(fold.output->0),
            fold.output_stale,
            !fold.degraded_on_invalid,
            fold.inv(),
    {
        let output: T = f.begin();
        UnorderedFoldWithAnchor {
            anchor,
            input,
            last_observation: C::nothing(),
            last_observation_a: None,
            f,
            output: Some(output),
            output_stale: true,
            degraded_on_invalid: false,
        }
    }

    /// Its inputs, in the order in which they are asked for.
    pub open spec fn tokens(&self) -> Seq<AnchorToken> {
        seq![self.anchor.token, self.input.token]
    }

    /// Brings the output up to date with what was read.
    fn follow(&mut self, a: &A, this: &C) -> (did: bool)
        requires
            old(self).inv(),
        ensures
            final(self).inv(),
            followed(*old(self), *final(self), *a, this.model(), did),
            faithful::<A>() ==> final(self).last_observation_a == Some(*a) && final(self).f.settled(
                *a,
                this.model(),
                final(self).output->0,
            ),
    {
        let ghost was = *self;
        let same: bool = match &self.last_observation_a {
            Some(last) => equal(last, a),
            None => false,
        };
        let mut out: Option<T> = None;
        std::mem::swap(&mut self.output, &mut out);
        let mut from: T = out.unwrap();
        if !same {
            self.last_observation = C::nothing();
            from = self.f.begin();
            proof {
                self.f.begins_settled(*a, from);
            }
        }
        let ghost mid = *self;
        let ghost start = from;
        let again: bool = !same && self.last_observation_a.is_some();
        let (next, stepped): (T, bool) = run::<C, A, T, S>(&mut self.f, a, from, &self.last_observation, this);
        self.output = Some(next);
        self.last_observation = this.copy();
        self.last_observation_a = Some(a.clone());
        proof {
            if faithful::<A>() {
                assert(cloned(*a, self.last_observation_a->0));
                if same {
                    assert(alike(was.last_observation_a->0, *a));
                }
            }
            assert(followed(was, *self, *a, this.model(), stepped || again)) by {
                assert(ran::<C, A, T, S>(was.f, *a, mid.last_observation.model(), this.model(), start, next, stepped));
                if !same {
                    assert(ran::<C, A, T, S>(was.f, *a, C::none(), this.model(), start, self.output->0, stepped));
                }
            }
        }
        stepped || again
    }
}

/// What following a collection with `x` given to every step makes of a follower. An output that was there before and
/// has been begun again counts as a change, whatever the steps from there say.
pub open spec fn followed<C: Followed, A: PartialEq + Clone, T, S: Folds<C, A, T>>(
    a: UnorderedFoldWithAnchor<C, A, S, T>,
    b: UnorderedFoldWithAnchor<C, A, S, T>,
    x: A,
    all: C::Model,
    did: bool,
) -> bool {
    &&& b.anchor == a.anchor
    &&& b.input == a.input
    &&& b.f == a.f
    &&& b.output is Some
    &&& b.output_stale == a.output_stale
    &&& b.degraded_on_invalid == a.degraded_on_invalid
    &&& b.last_observation.model() == all
    &&& b.last_observation_a is Some && cloned(x, b.last_observation_a->0)
    &&& {
        ||| {
            &&& a.last_observation_a is Some && alike(a.last_observation_a->0, x)
            &&& ran::<C, A, T, S>(a.f, x, a.last_observation.model(), all, a.output->0, b.output->0, did)
        }
        ||| {
            &&& a.last_observation_a is Some ==> unlike(a.last_observation_a->0, x)
            &&& exists|from: T, stepped: bool| #![trigger ran::<C, A, T, S>(a.f, x, C::none(), all, from, b.output->0, stepped)]
                {
                    &&& a.f.begins(from)
                    &&& ran::<C, A, T, S>(a.f, x, C::none(), all, from, b.output->0, stepped)
                    &&& did == (stepped || a.last_observation_a is Some)
                }
        }
    }
}

/// What a poll makes of a follower: `a` becomes `b` while the context goes from `before` to `after`.
pub open spec fn fold_with_step<G: Reads<C> + Reads<A>, C: Followed, A: PartialEq + Clone, T, S: Folds<C, A, T>>(
    a: UnorderedFoldWithAnchor<C, A, S, T>,
    b: UnorderedFoldWithAnchor<C, A, S, T>,
    before: &G,
    after: &G,
    poll: Poll,
) -> bool {
    if a.degraded_on_invalid || !a.output_stale {
        &&& b == (UnorderedFoldWithAnchor { output_stale: false, ..a })
        &&& *after == *before
        &&& poll is Unchanged
    } else {
        exists|outcome: Found| #[trigger]
            requested(before, after, a.tokens(), true, outcome) && if outcome.invalid {
                &&& b == (UnorderedFoldWithAnchor { output_stale: false, degraded_on_invalid: true, ..a })
                &&& poll is Unchanged
            } else if outcome.pending {
                b == a && poll is Pending
            } else if !outcome.updated {
                b == (UnorderedFoldWithAnchor { output_stale: false, ..a }) && poll is Unchanged
            } else if <G as Reads<A>>::reading(after, a.anchor.token) is None || <G as Reads<C>>::reading(after, a.input.token) is None {
                b == a && poll is PendingInvalidToken
            } else {
                &&& poll.ready()
                &&& !b.output_stale
                &&& followed(
                    UnorderedFoldWithAnchor { output_stale: false, ..a },
                    b,
                    <G as Reads<A>>::reading(after, a.anchor.token)->0,
                    <G as Reads<C>>::reading(after, a.input.token)->0.model(),
                    poll is Updated,
                )
            }
    }
}

/// The follower is up to date with the outputs that `outs` holds.
pub open spec fn abreast<G: Reads<C> + Reads<A>, C: Followed, A: PartialEq + Clone, T, S: Folds<C, A, T>>(
    fold: UnorderedFoldWithAnchor<C, A, S, T>,
    outs: Map<AnchorToken, G::V>,
) -> bool {
    &&& within(fold.tokens(), outs)
    &&& fold.last_observation.model() == <G as Reads<C>>::cast(outs[fold.input.token]).model()
    &&& fold.last_observation_a is Some
    &&& faithful::<A>() ==> fold.last_observation_a == Some(<G as Reads<A>>::cast(outs[fold.anchor.token]))
}

impl<C: Followed, A: PartialEq + Clone, T, S: Folds<C, A, T>> AnchorOutput for UnorderedFoldWithAnchor<C, A, S, T> {
    type Output = T;

    type Handed = ();

    open spec fn inv(&self) -> bool {
        &&& self.f.able()
        &&& self.output is Some
        &&& match self.last_observation_a {
            Some(a) => faithful::<A>() ==> self.f.settled(a, self.last_observation.model(), self.output->0),
            None => self.last_observation.model() == C::none() && self.f.begins(self.output->0),
        }
    }

    open spec fn had(&self) -> bool {
        true
    }

    open spec fn alias(&self) -> Option<AnchorToken> {
        None
    }

    open spec fn own(&self) -> T {
        self.output->0
    }

    open spec fn honest(&self) -> bool {
        false
    }

    open spec fn outside(&self) -> Option<()> {
        None
    }

    open spec fn displays(handed: (), out: T) -> bool {
        true
    }

    fn output(&self) -> (out: OutputRef<'_, T>) {
        OutputRef::Own(self.output.as_ref().unwrap())
    }
}

impl<G: Reads<C> + Reads<A>, C: Followed, A: PartialEq + Clone, T, S: Folds<C, A, T>> AnchorInner<G> for UnorderedFoldWithAnchor<C, A, S, T> {
    open spec fn current(&self) -> bool {
        true
    }

    open spec fn holds(&self, told: Map<AnchorToken, G::V>) -> bool {
        &&& !self.degraded_on_invalid
        &&& !self.output_stale ==> abreast::<G, C, A, T, S>(*self, told)
    }

    open spec fn sound(&self, told: Map<AnchorToken, G::V>) -> bool {
        within(self.tokens(), told)
    }

    /// The output is what the items of the collection come to.
    open spec fn right(&self, seen: Map<AnchorToken, G::V>) -> bool {
        &&& abreast::<G, C, A, T, S>(*self, seen)
        &&& faithful::<A>() ==> self.f.settled(
            <G as Reads<A>>::cast(seen[self.anchor.token]),
            <G as Reads<C>>::cast(seen[self.input.token]).model(),
            self.output->0,
        )
    }

    open spec fn hears(&self, later: &Self, edge: AnchorToken) -> bool {
        *later == (UnorderedFoldWithAnchor {
            output_stale: self.output_stale || (!self.degraded_on_invalid && self.tokens().contains(edge)),
            ..*self
        })
    }

    open spec fn polls(&self, later: &Self, before: &G, after: &G, poll: Poll) -> bool {
        fold_with_step(*self, *later, before, after, poll)
    }

    open spec fn leans_on(&self, told: Map<AnchorToken, G::V>, d: AnchorToken) -> bool {
        self.tokens().contains(d)
    }

    proof fn less_told(&self, told: Map<AnchorToken, G::V>, less: Map<AnchorToken, G::V>) {
        lemma_within_less(self.tokens(), told, less);
        assert(self.tokens()[0] == self.anchor.token);
        assert(self.tokens()[1] == self.input.token);
    }

    proof fn more_told(&self, told: Map<AnchorToken, G::V>, more: Map<AnchorToken, G::V>) {
        if within(self.tokens(), told) {
            lemma_within_more(self.tokens(), told, more);
            assert(self.tokens()[0] == self.anchor.token);
            assert(self.tokens()[1] == self.input.token);
        }
    }

    proof fn shows_outside(&self) {
    }

    fn dirty(&mut self, edge: AnchorToken) {
        let ghost a = *self;
        if !self.degraded_on_invalid && (edge == self.anchor.token || edge == self.input.token) {
            self.output_stale = true;
        }
        proof {
            let b = *self;
            assert(a.tokens()[0] == a.anchor.token && a.tokens()[1] == a.input.token);
            assert forall|told: Map<AnchorToken, G::V>|
                #![auto]
                AnchorInner::<G>::holds(&a, told) implies AnchorInner::<G>::holds(&b, told) && AnchorInner::<G>::holds(&b, told.remove(edge)) by {
                if !b.output_stale {
                    lemma_within_removed(b.tokens(), told, edge);
                }
            }
        }
    }

    fn poll_updated(&mut self, ctx: &mut G) -> (poll: Poll) {
        let ghost a = *self;
        let ghost before = *ctx;
        proof {
            before.evolves_reflexive();
        }
        if self.degraded_on_invalid || !self.output_stale {
            self.output_stale = false;
            return Poll::Unchanged;
        }
        let list: Vec<AnchorToken> = vec![self.anchor.token, self.input.token];
        assert(list@ =~= self.tokens());
        let outcome = request_all(ctx, &list, true);
        let ghost tokens = self.tokens();
        proof {
            before.evolves_keeps(ctx);
            assert(tokens[0] == a.anchor.token && tokens[1] == a.input.token);
        }
        if outcome.invalid {
            self.output_stale = false;
            self.degraded_on_invalid = true;
            return Poll::Unchanged;
        }
        if outcome.pending {
            return Poll::Pending;
        }
        if !outcome.updated {
            self.output_stale = false;
            proof {
                if !ctx.degraded() {
                    lemma_within_more(tokens, ctx.told(), ctx.now());
                    assert(before.seen().contains_key(tokens[0]) && before.seen().contains_key(tokens[1]));
                }
            }
            return Poll::Unchanged;
        }
        let x: &A = match <G as Reads<A>>::get(ctx, &self.anchor) {
            Some(x) => x,
            None => {
                return Poll::PendingInvalidToken;
            },
        };
        let this: &C = match <G as Reads<C>>::get(ctx, &self.input) {
            Some(this) => this,
            None => {
                return Poll::PendingInvalidToken;
            },
        };
        self.output_stale = false;
        let did: bool = self.follow(x, this);
        proof {
            if !ctx.degraded() {
                <G as Reads<A>>::reading_is_now(ctx, a.anchor.token);
                <G as Reads<C>>::reading_is_now(ctx, a.input.token);
                lemma_within_more(tokens, ctx.told(), ctx.now());
            }
        }
        if did {
            Poll::Updated
        } else {
            Poll::Unchanged
        }
    }
}

} // verus!
