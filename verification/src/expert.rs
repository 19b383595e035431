//! The vocabulary that anchors and engines share: handles, answers to a request, and the two
//! sides of a poll, the anchor's and the context's.

pub mod announcing;
pub mod asking_laws;
pub mod equal;
pub mod ext;
pub mod inputs;
pub mod mixed;
pub mod var;
pub mod var_either_anchor;
pub mod var_val_or_anchor;
pub mod voa_laws;

use std::marker::PhantomData;
use vstd::prelude::*;
use vstd::std_specs::cmp::PartialEqSpecImpl;

verus! {

/// What a request, or a poll, comes back with.
#[derive(Clone, Copy, Debug, PartialEq, Eq, Structural)]
pub enum Poll {
    /// Ready, and its output has changed.
    Updated,
    /// Ready, and its output has not changed.
    Unchanged,
    /// Not ready yet.
    Pending,
    /// Not ready yet; the request has been put down and will be tried again.
    PendingDefer,
    /// Its anchor is gone and will never become ready.
    PendingInvalidToken,
}

impl Poll {
    /// Ready to be read.
    pub open spec fn ready(self) -> bool {
        self is Updated || self is Unchanged
    }

    /// Not ready, but may become so.
    pub open spec fn waiting(self) -> bool {
        self is Pending || self is PendingDefer
    }

    pub fn is_waiting(&self) -> (b: bool)
        ensures
            b == self.waiting(),
    {
        matches!(self, Poll::Pending | Poll::PendingDefer)
    }

    pub fn is_invalid_token(&self) -> (b: bool)
        ensures
            b == (*self is PendingInvalidToken),
    {
        matches!(self, Poll::PendingInvalidToken)
    }
}

/// Identifies an anchor. Tokens are handed out in increasing order and never used twice.
pub type AnchorToken = usize;

/// A handle on a value of type `T` in a recomputation graph.
pub struct Anchor<T> {
    pub token: AnchorToken,
    pub phantom: PhantomData<T>,
}

impl<T> Anchor<T> {
    /// A handle on the anchor that `token` identifies.
    pub fn new_from_expert(token: AnchorToken) -> (anchor: Self)
        ensures
            anchor.token == token,
    {
        Anchor { token, phantom: PhantomData }
    }

    pub fn token(&self) -> (token: AnchorToken)
        ensures
            token == self.token,
    {
        self.token
    }

    /// Whether two handles are handles on one anchor.
    pub fn same(&self, other: &Self) -> (b: bool)
        ensures
            b == (self.token == other.token),
    {
        self.token == other.token
    }
}

impl<T> PartialEq for Anchor<T> {
    fn eq(&self, other: &Self) -> (b: bool) {
        self.token == other.token
    }
}

impl<T> PartialEqSpecImpl for Anchor<T> {
    open spec fn obeys_eq_spec() -> bool {
        true
    }

    open spec fn eq_spec(&self, other: &Self) -> bool {
        self.token == other.token
    }
}

impl<T> Eq for Anchor<T> {

}

impl<T> Clone for Anchor<T> {
    fn clone(&self) -> (anchor: Self)
        ensures
            anchor == *self,
    {
        Anchor { token: self.token, phantom: PhantomData }
    }
}

/// Lets an anchor with inputs from outside the graph ask to be polled again.
#[derive(Clone, Copy, Debug, PartialEq, Eq, Structural)]
pub struct DirtyHandle {
    pub num: AnchorToken,
}

impl DirtyHandle {
    /// Puts the anchor down among those that have to be polled again.
    pub fn mark_dirty(&self, dirty_marks: &mut Vec<AnchorToken>)
        ensures
            final(dirty_marks)@ == old(dirty_marks)@.push(self.num),
    {
        dirty_marks.push(self.num);
    }
}

/// Something an anchor asked of its context while it was polled.
pub ghost enum Call {
    Request { token: AnchorToken, necessary: bool, poll: Poll },
    Unrequest { token: AnchorToken },
    DirtyHandle,
}

/// What was asked of a context, in order.
pub type Calls = Seq<Call>;

/// Some request among `calls`, but for the first `from` of them, was not answered by an output that is ready.
pub open spec fn unready_since(calls: Calls, from: int) -> bool {
    exists|k: int| from <= k < calls.len() && #[trigger] unready(calls[k])
}

/// A request that was not answered by an output that is ready.
pub open spec fn unready(call: Call) -> bool {
    match call {
        Call::Request { token, necessary, poll } => !poll.ready(),
        _ => false,
    }
}

/// The outputs of some anchors.
pub type Outputs<V> = Map<AnchorToken, V>;

/// What a context offers to an anchor that is being polled.
///
/// `now` holds what is to be read of every anchor. `told` holds the outputs that the polled anchor
/// has been given, of anchors that have announced no change since; `seen` is what `told` was, as
/// far as the output was calculated from it, when the anchor last completed a poll. An anchor that
/// is in `told` reports its changes to the polled anchor.
pub trait UpdateContext: Sized {
    /// The values that outputs are taken from.
    type V;

    spec fn valid(&self) -> bool;

    /// Everything that was asked of this context, in order.
    spec fn calls(&self) -> Calls;

    spec fn now(&self) -> Outputs<Self::V>;

    spec fn told(&self) -> Outputs<Self::V>;

    spec fn seen(&self) -> Outputs<Self::V>;

    /// The polled anchor has completed a poll before.
    spec fn completed(&self) -> bool;

    /// The polled anchor cannot rely on what it was given: it has asked for an anchor that is gone, or
    /// for one that depends on it, or it has not been told of a change.
    spec fn degraded(&self) -> bool;

    /// What a series of calls can make of this context.
    spec fn evolves(&self, later: &Self) -> bool;

    proof fn evolves_reflexive(&self)
        ensures
            self.evolves(self),
    ;

    proof fn evolves_transitive(&self, mid: &Self, later: &Self)
        requires
            self.evolves(mid),
            mid.evolves(later),
        ensures
            self.evolves(later),
    ;

    proof fn evolves_keeps(&self, later: &Self)
        requires
            self.evolves(later),
            self.valid(),
        ensures
            later.valid(),
            later.now() == self.now(),
            later.seen() == self.seen(),
            later.completed() == self.completed(),
            self.degraded() ==> later.degraded(),
            !later.degraded() ==> self.told().submap_of(later.told()) && later.told().submap_of(
                later.now(),
            ),
    ;

    /// Asks for an anchor to be ready and to report its changes from now on.
    fn request(&mut self, token: AnchorToken, necessary: bool) -> (poll: Poll)
        requires
            old(self).valid(),
        ensures
            old(self).evolves(final(self)),
            final(self).calls() == old(self).calls().push(Call::Request { token, necessary, poll }),
            poll is PendingInvalidToken ==> final(self).degraded(),
            !final(self).degraded() ==> final(self).told() == (if poll.ready() {
                old(self).told().insert(token, old(self).now()[token])
            } else {
                old(self).told()
            }),
            !final(self).degraded() && poll is Unchanged ==> old(self).completed() && (old(self).seen().contains_key(token) ==> old(self).seen()[token] == old(self).now()[token]),
    ;

    /// Gives up a request.
    fn unrequest(&mut self, token: AnchorToken)
        requires
            old(self).valid(),
        ensures
            old(self).evolves(final(self)),
            final(self).calls() == old(self).calls().push(Call::Unrequest { token }),
            final(self).degraded() == old(self).degraded(),
            final(self).told() == old(self).told(),
    ;

    /// A handle by which the polled anchor can later ask to be polled again.
    fn dirty_handle(&mut self) -> (handle: DirtyHandle)
        requires
            old(self).valid(),
        ensures
            old(self).evolves(final(self)),
            final(self).calls() == old(self).calls().push(Call::DirtyHandle),
            final(self).degraded() == old(self).degraded(),
            final(self).told() == old(self).told(),
    ;
}

/// A context that outputs of type `O` can be read from.
pub trait Reads<O>: UpdateContext {
    /// The output of type `O` that a value is.
    spec fn cast(v: Self::V) -> O;

    /// What can be read of an anchor; nothing where it is not ready.
    spec fn reading(&self, token: AnchorToken) -> Option<O>;

    proof fn reading_kept(&self, later: &Self, token: AnchorToken)
        requires
            self.evolves(later),
        ensures
            later.reading(token) == self.reading(token),
    ;

    proof fn reading_is_now(&self, token: AnchorToken)
        requires
            self.valid(),
            !self.degraded(),
            self.reading(token) is Some,
        ensures
            self.reading(token)->0 == Self::cast(self.now()[token]),
    ;

    fn get(&self, anchor: &Anchor<O>) -> (out: Option<&O>)
        requires
            self.valid(),
        ensures
            out is Some <==> self.reading(anchor.token) is Some,
            out is Some ==> *out->0 == self.reading(anchor.token)->0,
    ;
}

/// Values that may hold a value of type `O`.
pub trait Holds<O>: Sized {
    spec fn held(self) -> Option<O>;

    fn hold(&self) -> (o: Option<&O>)
        ensures
            o is Some <==> <Self as Holds<O>>::held(*self) is Some,
            o is Some ==> *o->0 == <Self as Holds<O>>::held(*self)->0,
    ;
}

impl<T> Holds<T> for T {
    open spec fn held(self) -> Option<T> {
        Some(self)
    }

    fn hold(&self) -> (o: Option<&T>) {
        Some(self)
    }
}

/// Where an anchor's output is found.
pub enum OutputRef<'a, T> {
    /// In the anchor itself.
    Own(&'a T),
    /// It is the output of another anchor.
    Of(AnchorToken),
}

/// What an anchor shows of itself.
pub trait AnchorOutput: Sized {
    type Output;

    /// What can be handed to it from outside the graph.
    type Handed;

    spec fn inv(&self) -> bool;

    /// It has completed a poll.
    spec fn had(&self) -> bool;

    /// The anchor whose output is passed on, if the output is not the anchor's own.
    spec fn alias(&self) -> Option<AnchorToken>;

    spec fn own(&self) -> Self::Output;

    /// It answers `Unchanged` only where its output is the one it had.
    spec fn honest(&self) -> bool;

    /// What was last handed to it from outside the graph, if it takes its output from there.
    spec fn outside(&self) -> Option<Self::Handed>;

    /// `out` is an output that shows what was handed to it.
    spec fn displays(handed: Self::Handed, out: Self::Output) -> bool;

    /// Where the output is found.
    fn output(&self) -> (out: OutputRef<'_, Self::Output>)
        requires
            self.inv(),
            self.had(),
        ensures
            match out {
                OutputRef::Own(v) => self.alias() is None && *v == self.own(),
                OutputRef::Of(token) => self.alias() == Some(token),
            },
    ;
}

/// The behaviour of an anchor.
///
/// The spec functions are the anchor's side of the bargain that makes outputs right. `holds` is
/// what stays true between polls of the values in `told`, `sound` is what a completed poll
/// establishes, and `right` says that the output is the one that belongs to given values.
pub trait AnchorInner<G: UpdateContext>: AnchorOutput {
    /// It has taken up everything that was handed to it from outside the graph.
    spec fn current(&self) -> bool;

    spec fn holds(&self, told: Outputs<G::V>) -> bool;

    spec fn sound(&self, told: Outputs<G::V>) -> bool;

    spec fn right(&self, seen: Outputs<G::V>) -> bool;

    /// What it makes of the report that `edge` has changed.
    spec fn hears(&self, later: &Self, edge: AnchorToken) -> bool;

    /// What a poll, for which the context goes from `before` to `after`, makes of it, and what it answers.
    spec fn polls(&self, later: &Self, before: &G, after: &G, poll: Poll) -> bool;

    /// Where it was told `told`, its output was calculated from that of `d`.
    spec fn leans_on(&self, told: Outputs<G::V>, d: AnchorToken) -> bool;

    /// What its output was not calculated from it need not be told.
    proof fn less_told(&self, told: Outputs<G::V>, less: Outputs<G::V>)
        requires
            self.holds(told),
            self.sound(told),
            self.right(told),
            less.submap_of(told),
            forall|d: AnchorToken| told.contains_key(d) && self.leans_on(told, d) ==> #[trigger] less.contains_key(d),
        ensures
            self.holds(less),
            self.sound(less),
            self.right(less),
            self.alias() is Some ==> self.leans_on(told, self.alias()->0),
    ;

    /// To be told more does no harm.
    proof fn more_told(&self, told: Outputs<G::V>, more: Outputs<G::V>)
        requires
            told.submap_of(more),
        ensures
            self.holds(told) ==> self.holds(more),
            self.sound(told) ==> self.sound(more),
    ;

    /// What was handed to it from outside is shown by its output once it has taken that up.
    proof fn shows_outside(&self)
        requires
            self.inv(),
            self.had(),
            self.current(),
        ensures
            self.outside() is Some ==> self.alias() is None && Self::displays(self.outside()->0, self.own()),
    ;

    /// Hears that an anchor which reports its changes has changed.
    fn dirty(&mut self, edge: AnchorToken)
        requires
            old(self).inv(),
        ensures
            final(self).inv(),
            old(self).hears(final(self), edge),
            final(self).had() == old(self).had(),
            final(self).current() == old(self).current(),
            final(self).honest() == old(self).honest(),
            final(self).alias() == old(self).alias(),
            final(self).own() == old(self).own(),
            final(self).outside() == old(self).outside(),
            forall|told: Outputs<G::V>|
                #![auto]
                old(self).holds(told) ==> final(self).holds(told) && final(self).holds(
                    told.remove(edge),
                ),
            forall|seen: Outputs<G::V>|
                #![auto]
                old(self).right(seen) ==> final(self).right(seen),
    ;

    /// Brings the output up to date.
    fn poll_updated(&mut self, ctx: &mut G) -> (poll: Poll)
        requires
            old(self).inv(),
            old(ctx).valid(),
            !old(ctx).degraded() ==> {
                &&& old(self).holds(old(ctx).told())
                &&& old(ctx).completed() ==> old(self).had() && old(self).right(old(ctx).seen())
            },
        ensures
            final(self).inv(),
            old(self).polls(final(self), old(ctx), final(ctx), poll),
            old(ctx).evolves(final(ctx)),
            final(self).honest() == old(self).honest(),
            final(self).outside() == old(self).outside(),
            old(self).had() ==> final(self).had(),
            poll.ready() ==> final(self).had() && final(self).current(),
            !final(ctx).degraded() ==> final(self).holds(final(ctx).told()),
            !final(ctx).degraded() && poll.ready() ==> final(self).sound(final(ctx).told())
                && final(self).right(final(ctx).told()),
            !final(ctx).degraded() && poll.ready() && final(self).alias() is Some ==> final(ctx).told().contains_key(final(self).alias()->0),
            !poll.ready() && old(ctx).completed() && !final(ctx).degraded() ==> final(self).right(old(ctx).seen()),
            !poll.ready() && old(self).had() && final(self).alias() is None ==> old(self).alias() is None
                && final(self).own() == old(self).own(),
            old(self).outside() is Some ==> poll.ready(),
            poll is Unchanged && old(self).had() && old(self).honest() ==> {
                &&& final(self).alias() is None
                &&& old(self).alias() is None
                &&& final(self).own() == old(self).own()
            },
    ;
}

/// An anchor that may be a variable: a value of type `T` can be set from outside the graph.
pub trait AsVar<T>: AnchorOutput {
    /// It is a variable.
    spec fn is_var(&self) -> bool;

    /// The value that was last set.
    spec fn last_set(&self) -> T;

    /// What is handed to it by setting a value, if it then takes its output from there.
    spec fn handing(&self, val: T) -> Option<Self::Handed>;

    /// What setting `val` makes of it; `marks` says whether it now has to be polled again.
    spec fn set_to(&self, later: &Self, val: T, marks: bool) -> bool;

    /// Whether it is a variable.
    fn is_settable(&self) -> (b: bool)
        ensures
            b == self.is_var(),
    ;

    /// Sets the value, and says whether the anchor now has to be polled again.
    fn set_value(&mut self, val: T) -> (marks: bool)
        requires
            old(self).inv(),
            old(self).is_var(),
        ensures
            final(self).inv(),
            final(self).is_var(),
            final(self).last_set() == val,
            final(self).outside() == old(self).handing(val),
            old(self).set_to(final(self), val, marks),
            final(self).honest() == old(self).honest(),
            final(self).had() == old(self).had(),
            final(self).alias() == old(self).alias(),
            final(self).own() == old(self).own(),
    ;
}

/// A variable in a graph: what is set changes nothing until it is polled.
pub trait VarInner<G: UpdateContext, T>: AnchorInner<G> + AsVar<T> {
    proof fn set_keeps(&self, later: &Self, val: T, marks: bool)
        requires
            self.inv(),
            self.is_var(),
            self.set_to(later, val, marks),
        ensures
            later.honest() == self.honest(),
            forall|told: Outputs<G::V>| self.holds(told) ==> #[trigger] later.holds(told),
            forall|told: Outputs<G::V>| self.sound(told) ==> #[trigger] later.sound(told),
            forall|seen: Outputs<G::V>| self.right(seen) ==> #[trigger] later.right(seen),
            !marks ==> !later.had() || later.current(),
    ;
}

} // verus!
