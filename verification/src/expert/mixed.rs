//! Anchors of different kinds in one graph.

use crate::expert::{AnchorInner, AnchorOutput, AnchorToken, AsVar, Holds, OutputRef, Poll, UpdateContext, VarInner};
use vstd::prelude::*;

verus! {

/// An anchor of one of two kinds.
pub enum OneOf<A, B> {
    First(A),
    Second(B),
}

impl<A: AnchorOutput, B: AnchorOutput<Output = A::Output>> AnchorOutput for OneOf<A, B> {
    type Output = A::Output;

    type Handed = OneOf<A::Handed, B::Handed>;

    open spec fn inv(&self) -> bool {
        match self {
            OneOf::First(a) => a.inv(),
            OneOf::Second(b) => b.inv(),
        }
    }

    open spec fn had(&self) -> bool {
        match self {
            OneOf::First(a) => a.had(),
            OneOf::Second(b) => b.had(),
        }
    }

    open spec fn alias(&self) -> Option<AnchorToken> {
        match self {
            OneOf::First(a) => a.alias(),
            OneOf::Second(b) => b.alias(),
        }
    }

    open spec fn own(&self) -> A::Output {
        match self {
            OneOf::First(a) => a.own(),
            OneOf::Second(b) => b.own(),
        }
    }

    open spec fn honest(&self) -> bool {
        match self {
            OneOf::First(a) => a.honest(),
            OneOf::Second(b) => b.honest(),
        }
    }

    open spec fn outside(&self) -> Option<OneOf<A::Handed, B::Handed>> {
        match self {
            OneOf::First(a) => match a.outside() {
                Some(handed) => Some(OneOf::First(handed)),
                None => None,
            },
            OneOf::Second(b) => match b.outside() {
                Some(handed) => Some(OneOf::Second(handed)),
                None => None,
            },
        }
    }

    open spec fn displays(handed: OneOf<A::Handed, B::Handed>, out: A::Output) -> bool {
        match handed {
            OneOf::First(handed) => A::displays(handed, out),
            OneOf::Second(handed) => B::displays(handed, out),
        }
    }

    fn output(&self) -> (out: OutputRef<'_, A::Output>) {
        match self {
            OneOf::First(a) => a.output(),
            OneOf::Second(b) => b.output(),
        }
    }
}

impl<G: UpdateContext, A: AnchorInner<G>, B: AnchorInner<G, Output = A::Output>> AnchorInner<G> for OneOf<A, B> {
    open spec fn current(&self) -> bool {
        match self {
            OneOf::First(a) => a.current(),
            OneOf::Second(b) => b.current(),
        }
    }

    open spec fn holds(&self, told: Map<AnchorToken, G::V>) -> bool {
        match self {
            OneOf::First(a) => a.holds(told),
            OneOf::Second(b) => b.holds(told),
        }
    }

    open spec fn sound(&self, told: Map<AnchorToken, G::V>) -> bool {
        match self {
            OneOf::First(a) => a.sound(told),
            OneOf::Second(b) => b.sound(told),
        }
    }

    open spec fn right(&self, seen: Map<AnchorToken, G::V>) -> bool {
        match self {
            OneOf::First(a) => a.right(seen),
            OneOf::Second(b) => b.right(seen),
        }
    }

    open spec fn hears(&self, later: &Self, edge: AnchorToken) -> bool {
        match (self, later) {
            (OneOf::First(a), OneOf::First(b)) => AnchorInner::<G>::hears(a, b, edge),
            (OneOf::Second(a), OneOf::Second(b)) => AnchorInner::<G>::hears(a, b, edge),
            _ => false,
        }
    }

    open spec fn polls(&self, later: &Self, before: &G, after: &G, poll: Poll) -> bool {
        match (self, later) {
            (OneOf::First(a), OneOf::First(b)) => a.polls(b, before, after, poll),
            (OneOf::Second(a), OneOf::Second(b)) => a.polls(b, before, after, poll),
            _ => false,
        }
    }

    open spec fn leans_on(&self, told: Map<AnchorToken, G::V>, d: AnchorToken) -> bool {
        match self {
            OneOf::First(a) => a.leans_on(told, d),
            OneOf::Second(b) => b.leans_on(told, d),
        }
    }

    proof fn less_told(&self, told: Map<AnchorToken, G::V>, less: Map<AnchorToken, G::V>) {
        match self {
            OneOf::First(a) => a.less_told(told, less),
            OneOf::Second(b) => b.less_told(told, less),
        }
    }

    proof fn more_told(&self, told: Map<AnchorToken, G::V>, more: Map<AnchorToken, G::V>) {
        match self {
            OneOf::First(a) => a.more_told(told, more),
            OneOf::Second(b) => b.more_told(told, more),
        }
    }

    proof fn shows_outside(&self) {
        match self {
            OneOf::First(a) => a.shows_outside(),
            OneOf::Second(b) => b.shows_outside(),
        }
    }

    fn dirty(&mut self, edge: AnchorToken) {
        match self {
            OneOf::First(a) => a.dirty(edge),
            OneOf::Second(b) => b.dirty(edge),
        }
    }

    fn poll_updated(&mut self, ctx: &mut G) -> (poll: Poll) {
        match self {
            OneOf::First(a) => a.poll_updated(ctx),
            OneOf::Second(b) => b.poll_updated(ctx),
        }
    }
}

/// Variables among anchors of other kinds.
impl<T, A: AsVar<T>, B: AnchorOutput<Output = A::Output>> AsVar<T> for OneOf<A, B> {
    open spec fn is_var(&self) -> bool {
        self is First && self->First_0.is_var()
    }

    open spec fn last_set(&self) -> T {
        self->First_0.last_set()
    }

    open spec fn handing(&self, val: T) -> Option<OneOf<A::Handed, B::Handed>> {
        match self->First_0.handing(val) {
            Some(handed) => Some(OneOf::First(handed)),
            None => None,
        }
    }

    open spec fn set_to(&self, later: &Self, val: T, marks: bool) -> bool {
        &&& self is First
        &&& later is First
        &&& self->First_0.set_to(&later->First_0, val, marks)
    }

    fn is_settable(&self) -> (b: bool) {
        match self {
            OneOf::First(var) => var.is_settable(),
            OneOf::Second(_) => false,
        }
    }

    fn set_value(&mut self, val: T) -> (marks: bool) {
        match self {
            OneOf::First(var) => var.set_value(val),
            OneOf::Second(_) => false,
        }
    }
}

impl<G: UpdateContext, T, A: VarInner<G, T>, B: AnchorInner<G, Output = A::Output>> VarInner<G, T> for OneOf<A, B> {
    proof fn set_keeps(&self, later: &Self, val: T, marks: bool) {
        VarInner::<G, T>::set_keeps(&self->First_0, &later->First_0, val, marks);
    }
}

/// Values that can hold any value of type `O`.
pub trait Houses<O>: Holds<O> {
    /// `v` holds `o`, or what is as good as `o`.
    spec fn housed(o: O, v: Self) -> bool;

    fn house(o: &O) -> (v: Self)
        ensures
            Self::housed(*o, v),
    ;
}

/// An anchor among others whose outputs are of type `V`: an output of the anchor inside is put into such a
/// value whenever it changes. An output that is passed on is of that type already.
pub struct Housed<M, V> {
    pub inner: M,
    pub shown: Option<V>,
}

impl<M: AnchorOutput, V: Houses<M::Output>> Housed<M, V> {
    pub fn new(inner: M) -> (housed: Self)
        requires
            inner.inv(),
        ensures
            housed == (Housed { inner, shown: None::<V> }),
            housed.inv(),
    {
        Housed { inner, shown: None }
    }

    /// What is shown is what the anchor inside shows.
    pub open spec fn abreast(self) -> bool {
        self.shown is Some && self.inner.alias() is None ==> V::housed(self.inner.own(), self.shown->0)
    }
}

impl<M: AnchorOutput, V: Houses<M::Output>> AnchorOutput for Housed<M, V> {
    type Output = V;

    type Handed = M::Handed;

    open spec fn inv(&self) -> bool {
        &&& self.inner.inv()
        &&& self.shown is Some ==> self.inner.had()
        &&& self.inner.honest() ==> self.abreast()
    }

    open spec fn had(&self) -> bool {
        self.inner.had() && (self.inner.alias() is Some || self.shown is Some)
    }

    open spec fn alias(&self) -> Option<AnchorToken> {
        self.inner.alias()
    }

    open spec fn own(&self) -> V {
        self.shown->0
    }

    open spec fn honest(&self) -> bool {
        self.inner.honest()
    }

    open spec fn outside(&self) -> Option<M::Handed> {
        if self.inner.honest() {
            self.inner.outside()
        } else {
            None
        }
    }

    open spec fn displays(handed: M::Handed, out: V) -> bool {
        exists|o: M::Output| M::displays(handed, o) && #[trigger] V::housed(o, out)
    }

    fn output(&self) -> (out: OutputRef<'_, V>) {
        match self.inner.output() {
            OutputRef::Own(_) => OutputRef::Own(self.shown.as_ref().unwrap()),
            OutputRef::Of(token) => OutputRef::Of(token),
        }
    }
}

impl<G: UpdateContext, M: AnchorInner<G>, V: Houses<M::Output>> AnchorInner<G> for Housed<M, V> {
    open spec fn current(&self) -> bool {
        self.inner.current()
    }

    open spec fn holds(&self, told: Map<AnchorToken, G::V>) -> bool {
        self.inner.holds(told)
    }

    open spec fn sound(&self, told: Map<AnchorToken, G::V>) -> bool {
        self.inner.sound(told)
    }

    open spec fn right(&self, seen: Map<AnchorToken, G::V>) -> bool {
        self.inner.right(seen)
    }

    open spec fn hears(&self, later: &Self, edge: AnchorToken) -> bool {
        &&& AnchorInner::<G>::hears(&self.inner, &later.inner, edge)
        &&& later.shown == self.shown
    }

    /// The anchor inside is polled, and its output is shown.
    open spec fn polls(&self, later: &Self, before: &G, after: &G, poll: Poll) -> bool {
        &&& self.inner.polls(&later.inner, before, after, poll)
        &&& if !poll.ready() {
            later.shown == self.shown
        } else if later.inner.alias() is Some {
            later.shown is None
        } else if poll is Unchanged && self.shown is Some {
            later.shown == self.shown
        } else {
            later.shown is Some && V::housed(later.inner.own(), later.shown->0)
        }
    }

    open spec fn leans_on(&self, told: Map<AnchorToken, G::V>, d: AnchorToken) -> bool {
        self.inner.leans_on(told, d)
    }

    proof fn less_told(&self, told: Map<AnchorToken, G::V>, less: Map<AnchorToken, G::V>) {
        self.inner.less_told(told, less);
    }

    proof fn more_told(&self, told: Map<AnchorToken, G::V>, more: Map<AnchorToken, G::V>) {
        self.inner.more_told(told, more);
    }

    proof fn shows_outside(&self) {
        if self.inner.honest() {
            self.inner.shows_outside();
            assert(V::housed(self.inner.own(), self.own()) || self.outside() is None);
        }
    }

    fn dirty(&mut self, edge: AnchorToken) {
        self.inner.dirty(edge);
    }

    fn poll_updated(&mut self, ctx: &mut G) -> (poll: Poll) {
        let ghost before = *ctx;
        let poll: Poll = self.inner.poll_updated(ctx);
        proof {
            before.evolves_keeps(ctx);
        }
        if poll == Poll::Updated || poll == Poll::Unchanged {
            match self.inner.output() {
                OutputRef::Own(v) => {
                    if poll == Poll::Updated || self.shown.is_none() {
                        self.shown = Some(V::house(v));
                    }
                },
                OutputRef::Of(_) => {
                    self.shown = None;
                },
            }
        }
        poll
    }
}

/// Variables whose values are housed.
impl<T, M: AsVar<T>, V: Houses<M::Output>> AsVar<T> for Housed<M, V> {
    open spec fn is_var(&self) -> bool {
        self.inner.is_var()
    }

    open spec fn last_set(&self) -> T {
        self.inner.last_set()
    }

    open spec fn handing(&self, val: T) -> Option<M::Handed> {
        if self.inner.honest() {
            self.inner.handing(val)
        } else {
            None
        }
    }

    open spec fn set_to(&self, later: &Self, val: T, marks: bool) -> bool {
        &&& self.inner.set_to(&later.inner, val, marks)
        &&& later.shown == self.shown
        &&& later.inner.alias() == self.inner.alias()
        &&& later.inner.own() == self.inner.own()
    }

    fn is_settable(&self) -> (b: bool) {
        self.inner.is_settable()
    }

    fn set_value(&mut self, val: T) -> (marks: bool) {
        self.inner.set_value(val)
    }
}

impl<G: UpdateContext, T, M: VarInner<G, T>, V: Houses<M::Output>> VarInner<G, T> for Housed<M, V> {
    proof fn set_keeps(&self, later: &Self, val: T, marks: bool) {
        VarInner::<G, T>::set_keeps(&self.inner, &later.inner, val, marks);
    }
}

/// Once the anchor inside has announced a change, what is shown is its output, or the anchor is passed on that it passes on. What is
/// shown stays until it announces another.
pub proof fn housed_anchors_show_what_is_announced<G: UpdateContext, M: AnchorInner<G>, V: Houses<M::Output>>(
    a: Housed<M, V>,
    b: Housed<M, V>,
    before: &G,
    after: &G,
    poll: Poll,
)
    requires
        AnchorInner::<G>::polls(&a, &b, before, after, poll),
    ensures
        b.alias() == b.inner.alias(),
        poll is Updated && b.inner.alias() is None ==> b.shown is Some && V::housed(b.inner.own(), b.own()),
        poll is Unchanged && b.inner.alias() is None && a.shown is None ==> b.shown is Some && V::housed(b.inner.own(), b.own()),
        !(poll is Updated) && a.shown is Some && b.inner.alias() is None ==> b.own() == a.own(),
        a.inner.polls(&b.inner, before, after, poll),
{
}

} // verus!
