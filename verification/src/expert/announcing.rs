//! What an anchor says of its output: a poll that answers `Unchanged` leaves what is read as it was.

use crate::expert::equal::{alike, unlike};
use crate::expert::ext::dirty_observer::DirtyObserverAnchor;
use crate::expert::ext::either::Either;
use crate::expert::ext::map::MapAnchor;
use crate::expert::ext::then_clone::ThenClone1;
use crate::expert::ext::then_dedupe::ThenDedupe;
use crate::expert::ext::thens::Then;
use crate::expert::ext::update_observer::UpdateObserverAnchor;
use crate::expert::inputs::{Applies, Inputs, Snapshots, Takes};
use crate::expert::var::{Constant, VarAnchor};
use crate::expert::var_val_or_anchor::{ValOrAnchor, VarEitherAnchor};
use crate::expert::{Anchor, AnchorInner, AnchorOutput, AnchorToken, AsVar, Call, Poll, Reads, UpdateContext};
use vstd::prelude::*;

verus! {

/// Something that happens to an anchor.
pub ghost enum Event<G, X> {
    /// It is polled, and the context goes from `before` to `after`.
    Polled { before: G, after: G, poll: Poll },
    /// It hears that an anchor has changed.
    Heard { edge: AnchorToken },
    /// A value is set from outside the graph.
    Given { val: X },
}

/// A request for `token` that was answered `Unchanged`.
pub open spec fn says_unchanged(call: Call, token: AnchorToken) -> bool {
    match call {
        Call::Request { token: asked, poll, .. } => asked == token && poll is Unchanged,
        _ => false,
    }
}

/// Between the two contexts, `token` was asked for and answered `Unchanged`.
pub open spec fn found_unchanged<G: UpdateContext>(before: &G, after: &G, token: AnchorToken) -> bool {
    exists|m: int| before.calls().len() <= m < after.calls().len() && #[trigger] says_unchanged(after.calls()[m], token)
}

/// What answers `Unchanged` between the two contexts has the output that it had in `earlier`.
pub open spec fn truthful<G: UpdateContext>(earlier: &G, before: &G, after: &G) -> bool {
    forall|token: AnchorToken| #[trigger] found_unchanged(before, after, token) ==> after.now()[token] == earlier.now()[token]
}

/// An anchor whose answers can be held against what is read of it.
pub trait Announces<G: UpdateContext, X>: AnchorInner<G> {
    /// Its output is not the one that it had when it last completed a poll.
    spec fn moved(&self) -> bool;

    /// Two outputs of its own between which it makes no difference.
    spec fn like(a: Self::Output, b: Self::Output) -> bool;

    /// What setting a value makes of it.
    spec fn takes(&self, later: &Self, val: X) -> bool;

    proof fn hearing_changes_nothing(&self, later: &Self, edge: AnchorToken)
        requires
            self.hears(later, edge),
        ensures
            later.had() == self.had(),
            later.moved() == self.moved(),
            keeps_output(*self, *later),
    ;

    proof fn setting_changes_nothing(&self, later: &Self, val: X)
        requires
            self.takes(later, val),
        ensures
            later.had() == self.had(),
            later.moved() == self.moved(),
            keeps_output(*self, *later),
    ;

    /// A poll that is completed leaves nothing to be announced. One that is not keeps in mind that the output is another
    /// one. And one that answers `Unchanged` has nothing to announce.
    proof fn polling_announces(&self, later: &Self, before: &G, after: &G, poll: Poll)
        requires
            self.inv(),
            before.valid(),
            self.holds(before.told()),
            self.polls(later, before, after, poll),
            !after.degraded(),
        ensures
            poll.ready() ==> later.had() && !later.moved(),
            self.had() ==> later.had(),
            !poll.ready() && self.had() ==> later.moved() || (!self.moved() && keeps_output(*self, *later)),
            poll is Unchanged && self.had() ==> {
                &&& !self.moved()
                &&& later.alias() == self.alias()
                &&& self.alias() is None ==> Self::like(self.own(), later.own())
                &&& self.alias() is Some ==> found_unchanged(before, after, self.alias()->0)
            },
    ;
}

/// The output is found where it was, and is the same if it is the anchor's own.
pub open spec fn keeps_output<N: AnchorOutput>(a: N, b: N) -> bool {
    &&& b.alias() == a.alias()
    &&& a.alias() is None ==> b.own() == a.own()
}

/// `event` makes `b` of `a`.
pub open spec fn happened<G: UpdateContext, X, N: Announces<G, X>>(a: N, b: N, event: Event<G, X>) -> bool {
    match event {
        Event::Polled { before, after, poll } => {
            &&& a.inv()
            &&& before.valid()
            &&& !after.degraded() ==> a.holds(before.told())
            &&& a.polls(&b, &before, &after, poll)
        },
        Event::Heard { edge } => a.hears(&b, edge),
        Event::Given { val } => a.takes(&b, val),
    }
}

/// `states` are what an anchor is before, between and after `events`.
pub open spec fn history<G: UpdateContext, X, N: Announces<G, X>>(states: Seq<N>, events: Seq<Event<G, X>>) -> bool {
    &&& states.len() == events.len() + 1
    &&& forall|m: int| 0 <= m < events.len() ==> happened::<G, X, N>(states[m], states[m + 1], #[trigger] events[m])
}

/// A poll that was completed.
pub open spec fn completes<G, X>(event: Event<G, X>) -> bool {
    match event {
        Event::Polled { poll, .. } => poll.ready(),
        _ => false,
    }
}

/// No poll has found that something it asked for is gone.
pub open spec fn unharmed<G: UpdateContext, X>(event: Event<G, X>) -> bool {
    match event {
        Event::Polled { after, .. } => !after.degraded(),
        _ => true,
    }
}

/// Event `k` is the first poll after poll `i` to be completed, and answers `Unchanged`. What answers `Unchanged` to it has
/// not changed since poll `i`.
pub open spec fn unchanged_since<G: UpdateContext, X>(events: Seq<Event<G, X>>, i: int, k: int) -> bool {
    &&& 0 <= i < k < events.len()
    &&& completes(events[i])
    &&& events[k] is Polled
    &&& events[k]->poll is Unchanged
    &&& forall|m: int| i < m < k ==> !completes(#[trigger] events[m])
    &&& forall|m: int| i <= m <= k ==> unharmed(#[trigger] events[m])
    &&& truthful(&events[i]->after, &events[k]->before, &events[k]->after)
}

/// What is read of `b` in the context `is` is what was read of `a` in `was`, through the anchor whose output is passed on if
/// the output is not the anchor's own.
pub open spec fn shows_the_same<G: UpdateContext, X, N: Announces<G, X>>(a: N, b: N, was: &G, is: &G) -> bool {
    &&& b.alias() == a.alias()
    &&& a.alias() is Some ==> is.now()[a.alias()->0] == was.now()[a.alias()->0]
    &&& a.alias() is None ==> N::like(a.own(), b.own())
}

/// Whatever happens to an anchor between two polls that it completes, what is read of it after the second is what was read
/// of it after the first if the second answers `Unchanged`.
pub proof fn unchanged_is_unchanged<G: UpdateContext, X, N: Announces<G, X>>(
    states: Seq<N>,
    events: Seq<Event<G, X>>,
    i: int,
    k: int,
)
    requires
        history::<G, X, N>(states, events),
        unchanged_since(events, i, k),
    ensures
        shows_the_same::<G, X, N>(states[i + 1], states[k + 1], &events[i]->after, &events[k]->after),
{
    assert(happened::<G, X, N>(states[i], states[i + 1], events[i]));
    assert(unharmed(events[i]));
    states[i].polling_announces(&states[i + 1], &events[i]->before, &events[i]->after, events[i]->poll);
    lemma_carried::<G, X, N>(states, events, i, k, k);
    assert(happened::<G, X, N>(states[k], states[k + 1], events[k]));
    assert(unharmed(events[k]));
    states[k].polling_announces(&states[k + 1], &events[k]->before, &events[k]->after, events[k]->poll);
}

/// Until the next poll is completed the output stays the same, or it is kept in mind that it is another one.
proof fn lemma_carried<G: UpdateContext, X, N: Announces<G, X>>(states: Seq<N>, events: Seq<Event<G, X>>, i: int, k: int, m: int)
    requires
        history::<G, X, N>(states, events),
        unchanged_since(events, i, k),
        i < m <= k,
        states[i + 1].had(),
        !states[i + 1].moved(),
    ensures
        states[m].had(),
        states[m].moved() || keeps_output(states[i + 1], states[m]),
    decreases m - i,
{
    if m > i + 1 {
        let e = m - 1;
        lemma_carried::<G, X, N>(states, events, i, k, e);
        assert(happened::<G, X, N>(states[e], states[e + 1], events[e]));
        match events[e] {
            Event::Polled { before, after, poll } => {
                assert(unharmed(events[e]));
                assert(!completes(events[e]));
                states[e].polling_announces(&states[m], &before, &after, poll);
            },
            Event::Heard { edge } => {
                states[e].hearing_changes_nothing(&states[m], edge);
            },
            Event::Given { val } => {
                states[e].setting_changes_nothing(&states[m], val);
            },
        }
    }
}

impl<G: UpdateContext, A: Applies<G, F, ValOrAnchor<Out>>, Out: PartialEq, F> Announces<G, ()> for Either<A, Out, F> {
    open spec fn moved(&self) -> bool {
        self.switched
    }

    open spec fn like(a: Out, b: Out) -> bool {
        alike(a, b)
    }

    open spec fn takes(&self, later: &Self, val: ()) -> bool {
        false
    }

    proof fn hearing_changes_nothing(&self, later: &Self, edge: AnchorToken) {
    }

    proof fn setting_changes_nothing(&self, later: &Self, val: ()) {
    }

    proof fn polling_announces(&self, later: &Self, before: &G, after: &G, poll: Poll) {
        if poll is Unchanged && self.alias() is Some {
            assert(says_unchanged(after.calls()[after.calls().len() - 1], self.alias()->0));
        }
    }
}

impl<G: UpdateContext, A: Applies<G, F, Anchor<Out>>, Out, F> Announces<G, ()> for Then<A, Out, F> {
    open spec fn moved(&self) -> bool {
        self.switched
    }

    open spec fn like(a: Out, b: Out) -> bool {
        a == b
    }

    open spec fn takes(&self, later: &Self, val: ()) -> bool {
        false
    }

    proof fn hearing_changes_nothing(&self, later: &Self, edge: AnchorToken) {
    }

    proof fn setting_changes_nothing(&self, later: &Self, val: ()) {
    }

    proof fn polling_announces(&self, later: &Self, before: &G, after: &G, poll: Poll) {
        if poll is Unchanged && self.alias() is Some {
            assert(says_unchanged(after.calls()[after.calls().len() - 1], self.alias()->0));
        }
    }
}

impl<G: UpdateContext, A: Applies<G, F, Anchor<Out>> + Snapshots<G, Values = Vals>, Vals, Out, F> Announces<G, ()> for ThenDedupe<
    A,
    Vals,
    Out,
    F,
> {
    open spec fn moved(&self) -> bool {
        self.switched
    }

    open spec fn like(a: Out, b: Out) -> bool {
        a == b
    }

    open spec fn takes(&self, later: &Self, val: ()) -> bool {
        false
    }

    proof fn hearing_changes_nothing(&self, later: &Self, edge: AnchorToken) {
    }

    proof fn setting_changes_nothing(&self, later: &Self, val: ()) {
    }

    proof fn polling_announces(&self, later: &Self, before: &G, after: &G, poll: Poll) {
        if poll is Unchanged && self.alias() is Some {
            assert(says_unchanged(after.calls()[after.calls().len() - 1], self.alias()->0));
        }
    }
}

impl<G: UpdateContext, T> Announces<G, ValOrAnchor<T>> for VarEitherAnchor<T> {
    /// It takes up what was set only where it completes a poll.
    open spec fn moved(&self) -> bool {
        false
    }

    open spec fn like(a: T, b: T) -> bool {
        a == b
    }

    open spec fn takes(&self, later: &Self, val: ValOrAnchor<T>) -> bool {
        exists|marks: bool| #[trigger] self.set_to(later, val, marks)
    }

    proof fn hearing_changes_nothing(&self, later: &Self, edge: AnchorToken) {
    }

    proof fn setting_changes_nothing(&self, later: &Self, val: ValOrAnchor<T>) {
    }

    proof fn polling_announces(&self, later: &Self, before: &G, after: &G, poll: Poll) {
        if poll is Unchanged && self.alias() is Some {
            assert(says_unchanged(after.calls()[after.calls().len() - 1], self.alias()->0));
        }
    }
}

impl<G: UpdateContext, A: Applies<G, F, Out>, F, Out: PartialEq> Announces<G, ()> for MapAnchor<A, F, Out> {
    open spec fn moved(&self) -> bool {
        false
    }

    open spec fn like(a: Self::Output, b: Self::Output) -> bool {
        a == b
    }

    open spec fn takes(&self, later: &Self, val: ()) -> bool {
        false
    }

    proof fn hearing_changes_nothing(&self, later: &Self, edge: AnchorToken) {
    }

    proof fn setting_changes_nothing(&self, later: &Self, val: ()) {
    }

    proof fn polling_announces(&self, later: &Self, before: &G, after: &G, poll: Poll) {
    }
}

impl<G: UpdateContext + Reads<O1> + Reads<Out>, O1, Out: Clone, F: FnMut(&O1) -> Anchor<Out>> Announces<G, ()> for ThenClone1<O1, Out, F> {
    open spec fn moved(&self) -> bool {
        false
    }

    open spec fn like(a: Self::Output, b: Self::Output) -> bool {
        a == b
    }

    open spec fn takes(&self, later: &Self, val: ()) -> bool {
        false
    }

    proof fn hearing_changes_nothing(&self, later: &Self, edge: AnchorToken) {
    }

    proof fn setting_changes_nothing(&self, later: &Self, val: ()) {
    }

    proof fn polling_announces(&self, later: &Self, before: &G, after: &G, poll: Poll) {
    }
}

impl<G: UpdateContext, T> Announces<G, T> for VarAnchor<T> {
    open spec fn moved(&self) -> bool {
        false
    }

    open spec fn like(a: Self::Output, b: Self::Output) -> bool {
        a == b
    }

    open spec fn takes(&self, later: &Self, val: T) -> bool {
        exists|marks: bool| #[trigger] self.set_to(later, val, marks)
    }

    proof fn hearing_changes_nothing(&self, later: &Self, edge: AnchorToken) {
    }

    proof fn setting_changes_nothing(&self, later: &Self, val: T) {
    }

    proof fn polling_announces(&self, later: &Self, before: &G, after: &G, poll: Poll) {
    }
}

impl<G: UpdateContext, T> Announces<G, ()> for Constant<T> {
    open spec fn moved(&self) -> bool {
        false
    }

    open spec fn like(a: Self::Output, b: Self::Output) -> bool {
        a == b
    }

    open spec fn takes(&self, later: &Self, val: ()) -> bool {
        false
    }

    proof fn hearing_changes_nothing(&self, later: &Self, edge: AnchorToken) {
    }

    proof fn setting_changes_nothing(&self, later: &Self, val: ()) {
    }

    proof fn polling_announces(&self, later: &Self, before: &G, after: &G, poll: Poll) {
    }
}

impl<G: UpdateContext, A: Inputs> Announces<G, ()> for DirtyObserverAnchor<A> {
    open spec fn moved(&self) -> bool {
        false
    }

    open spec fn like(a: Self::Output, b: Self::Output) -> bool {
        a == b
    }

    open spec fn takes(&self, later: &Self, val: ()) -> bool {
        false
    }

    proof fn hearing_changes_nothing(&self, later: &Self, edge: AnchorToken) {
    }

    proof fn setting_changes_nothing(&self, later: &Self, val: ()) {
    }

    proof fn polling_announces(&self, later: &Self, before: &G, after: &G, poll: Poll) {
    }
}

impl<G: UpdateContext, A: Inputs> Announces<G, ()> for UpdateObserverAnchor<A> {
    open spec fn moved(&self) -> bool {
        false
    }

    open spec fn like(a: Self::Output, b: Self::Output) -> bool {
        a == b
    }

    open spec fn takes(&self, later: &Self, val: ()) -> bool {
        false
    }

    proof fn hearing_changes_nothing(&self, later: &Self, edge: AnchorToken) {
    }

    proof fn setting_changes_nothing(&self, later: &Self, val: ()) {
    }

    proof fn polling_announces(&self, later: &Self, before: &G, after: &G, poll: Poll) {
    }
}

/// Whatever an either heard and found between two polls that it completed: if the second answers `Unchanged`, it shows the same
/// anchor as after the first, and that anchor's output is the same; or it shows a value of its own as it did after the first, and
/// `==` finds no difference between the two.
pub proof fn eithers_announce_their_changes<G: UpdateContext, A: Applies<G, F, ValOrAnchor<Out>>, Out: PartialEq, F>(
    states: Seq<Either<A, Out, F>>,
    events: Seq<Event<G, ()>>,
    i: int,
    k: int,
)
    requires
        history::<G, (), Either<A, Out, F>>(states, events),
        unchanged_since(events, i, k),
    ensures
        states[i + 1].either_anchor is Some,
        states[k + 1].either_anchor is Some,
        match (states[i + 1].either_anchor->0, states[k + 1].either_anchor->0) {
            (ValOrAnchor::Anchor(x), ValOrAnchor::Anchor(y)) => x.token == y.token && events[k]->after.now()[y.token]
                == events[i]->after.now()[x.token],
            (ValOrAnchor::Val(x), ValOrAnchor::Val(y)) => alike(x, y),
            _ => false,
        },
{
    unchanged_is_unchanged::<G, (), Either<A, Out, F>>(states, events, i, k);
    assert(happened::<G, (), Either<A, Out, F>>(states[i], states[i + 1], events[i]));
    assert(unharmed(events[i]));
    states[i].polling_announces(&states[i + 1], &events[i]->before, &events[i]->after, events[i]->poll);
    assert(happened::<G, (), Either<A, Out, F>>(states[k], states[k + 1], events[k]));
    assert(unharmed(events[k]));
    states[k].polling_announces(&states[k + 1], &events[k]->before, &events[k]->after, events[k]->poll);
}

/// Whatever a chooser heard and found between two polls that it completed: if the second answers `Unchanged`, it shows the same
/// anchor as after the first, and that anchor's output is the same.
pub proof fn choosers_announce_their_changes<G: UpdateContext, A: Applies<G, F, Anchor<Out>>, Out, F>(
    states: Seq<Then<A, Out, F>>,
    events: Seq<Event<G, ()>>,
    i: int,
    k: int,
)
    requires
        history::<G, (), Then<A, Out, F>>(states, events),
        unchanged_since(events, i, k),
    ensures
        states[i + 1].f_anchor is Some,
        states[k + 1].f_anchor is Some,
        states[k + 1].f_anchor->0.token == states[i + 1].f_anchor->0.token,
        events[k]->after.now()[states[k + 1].f_anchor->0.token] == events[i]->after.now()[states[i + 1].f_anchor->0.token],
{
    unchanged_is_unchanged::<G, (), Then<A, Out, F>>(states, events, i, k);
    assert(happened::<G, (), Then<A, Out, F>>(states[i], states[i + 1], events[i]));
    assert(unharmed(events[i]));
    states[i].polling_announces(&states[i + 1], &events[i]->before, &events[i]->after, events[i]->poll);
}

/// The same holds of a chooser that compares its inputs first.
pub proof fn comparing_choosers_announce_their_changes<
    G: UpdateContext,
    A: Applies<G, F, Anchor<Out>> + Snapshots<G, Values = Vals>,
    Vals,
    Out,
    F,
>(states: Seq<ThenDedupe<A, Vals, Out, F>>, events: Seq<Event<G, ()>>, i: int, k: int)
    requires
        history::<G, (), ThenDedupe<A, Vals, Out, F>>(states, events),
        unchanged_since(events, i, k),
    ensures
        states[i + 1].f_anchor is Some,
        states[k + 1].f_anchor is Some,
        states[k + 1].f_anchor->0.token == states[i + 1].f_anchor->0.token,
        events[k]->after.now()[states[k + 1].f_anchor->0.token] == events[i]->after.now()[states[i + 1].f_anchor->0.token],
{
    unchanged_is_unchanged::<G, (), ThenDedupe<A, Vals, Out, F>>(states, events, i, k);
    assert(happened::<G, (), ThenDedupe<A, Vals, Out, F>>(states[i], states[i + 1], events[i]));
    assert(unharmed(events[i]));
    states[i].polling_announces(&states[i + 1], &events[i]->before, &events[i]->after, events[i]->poll);
}

/// Whatever was set and heard between two polls that a variable of values and anchors completed: if the second answers
/// `Unchanged`, the variable shows the same anchor as after the first, and that anchor's output is the same; or it shows the same
/// value.
pub proof fn variables_of_anchors_announce_their_changes<G: UpdateContext, T>(
    states: Seq<VarEitherAnchor<T>>,
    events: Seq<Event<G, ValOrAnchor<T>>>,
    i: int,
    k: int,
)
    requires
        history::<G, ValOrAnchor<T>, VarEitherAnchor<T>>(states, events),
        unchanged_since(events, i, k),
    ensures
        match (states[i + 1].val, states[k + 1].val) {
            (ValOrAnchor::Anchor(x), ValOrAnchor::Anchor(y)) => x.token == y.token && events[k]->after.now()[y.token]
                == events[i]->after.now()[x.token],
            (ValOrAnchor::Val(x), ValOrAnchor::Val(y)) => x == y,
            _ => false,
        },
{
    unchanged_is_unchanged::<G, ValOrAnchor<T>, VarEitherAnchor<T>>(states, events, i, k);
}

/// A variable of values and anchors that completes a poll shows what was last set: that value, or the output of that anchor. It
/// answers `Unchanged` only if there was nothing to take up, or the anchor that was set is the one it showed before and says that
/// it has not changed.
pub proof fn variables_show_the_anchor_that_was_set<G: UpdateContext, T>(
    a: VarEitherAnchor<T>,
    b: VarEitherAnchor<T>,
    before: &G,
    after: &G,
    poll: Poll,
)
    requires
        a.inv(),
        AnchorInner::<G>::polls(&a, &b, before, after, poll),
        !after.degraded(),
    ensures
        poll.ready() ==> match a.last_set() {
            ValOrAnchor::Val(v) => b.alias() is None && b.own() == v,
            ValOrAnchor::Anchor(anchor) => b.alias() == Some(anchor.token),
        },
        poll is Unchanged ==> b.alias() == a.alias(),
        poll is Unchanged && a.alias() is Some ==> found_unchanged(before, after, a.alias()->0),
        !poll.ready() ==> b.alias() == a.alias() && (a.alias() is None ==> b.own() == a.own()),
        match b.last_set() {
            ValOrAnchor::Val(v) => a.last_set() == ValOrAnchor::Val(v),
            ValOrAnchor::Anchor(anchor) => a.last_set().target() == Some(anchor.token),
        },
{
    if poll is Unchanged && a.alias() is Some {
        assert(says_unchanged(after.calls()[after.calls().len() - 1], a.alias()->0));
    }
}

/// A request for `token` that was answered `Updated`.
pub open spec fn says_updated(call: Call, token: AnchorToken) -> bool {
    match call {
        Call::Request { token: asked, poll, .. } => asked == token && poll is Updated,
        _ => false,
    }
}

/// Between the two contexts, `token` was asked for and answered `Updated`.
pub open spec fn found_updated<G: UpdateContext>(before: &G, after: &G, token: AnchorToken) -> bool {
    exists|m: int| before.calls().len() <= m < after.calls().len() && #[trigger] says_updated(after.calls()[m], token)
}

/// A poll of an either that has nothing left to announce answers `Updated` only if it shows another anchor than before, shows a
/// value instead of an anchor or an anchor instead of a value, or another value as far as `==` goes, or if the anchor that it shows
/// says that it has changed.
pub proof fn eithers_announce_only_changes<G: UpdateContext, A: Applies<G, F, ValOrAnchor<Out>>, Out: PartialEq, F>(
    a: Either<A, Out, F>,
    b: Either<A, Out, F>,
    before: &G,
    after: &G,
    poll: Poll,
)
    requires
        AnchorInner::<G>::polls(&a, &b, before, after, poll),
        a.either_anchor is Some,
        !a.switched,
        poll is Updated,
    ensures
        match (a.either_anchor->0, b.either_anchor->0) {
            (ValOrAnchor::Anchor(x), ValOrAnchor::Anchor(y)) => x.token != y.token || found_updated(before, after, y.token),
            (ValOrAnchor::Val(x), ValOrAnchor::Val(y)) => unlike(x, y),
            _ => true,
        },
{
    if b.alias() is Some && b.alias() == a.alias() {
        assert(says_updated(after.calls()[after.calls().len() - 1], b.alias()->0));
    }
}

/// A poll of a chooser that has nothing left to announce answers `Updated` only if it shows another anchor than before, or if that
/// anchor says that it has changed.
pub proof fn choosers_announce_only_changes<G: UpdateContext, A: Applies<G, F, Anchor<Out>>, Out, F>(
    a: Then<A, Out, F>,
    b: Then<A, Out, F>,
    before: &G,
    after: &G,
    poll: Poll,
)
    requires
        AnchorInner::<G>::polls(&a, &b, before, after, poll),
        a.f_anchor is Some,
        !a.switched,
        poll is Updated,
    ensures
        b.alias() != a.alias() || found_updated(before, after, b.alias()->0),
{
    if b.alias() == a.alias() {
        assert(says_updated(after.calls()[after.calls().len() - 1], b.alias()->0));
    }
}

/// The same holds of a chooser that compares its inputs first.
pub proof fn comparing_choosers_announce_only_changes<
    G: UpdateContext,
    A: Applies<G, F, Anchor<Out>> + Snapshots<G, Values = Vals>,
    Vals,
    Out,
    F,
>(a: ThenDedupe<A, Vals, Out, F>, b: ThenDedupe<A, Vals, Out, F>, before: &G, after: &G, poll: Poll)
    requires
        AnchorInner::<G>::polls(&a, &b, before, after, poll),
        a.f_anchor is Some,
        !a.switched,
        poll is Updated,
    ensures
        b.alias() != a.alias() || found_updated(before, after, b.alias()->0),
{
    if b.alias() == a.alias() {
        assert(says_updated(after.calls()[after.calls().len() - 1], b.alias()->0));
    }
}

/// A poll of a map that has an output leaves it as it is unless it answers `Updated`; and it answers `Updated` only if `==` finds a
/// difference between the new output and the one before.
pub proof fn maps_announce_just_their_changes<G: UpdateContext, A: Applies<G, F, Out>, F, Out: PartialEq>(
    a: MapAnchor<A, F, Out>,
    b: MapAnchor<A, F, Out>,
    before: &G,
    after: &G,
    poll: Poll,
)
    requires
        AnchorInner::<G>::polls(&a, &b, before, after, poll),
        a.output is Some,
    ensures
        b.output is Some,
        !(poll is Updated) ==> b.output == a.output,
        poll is Updated ==> unlike(b.output->0, a.output->0),
{
}

/// A poll of an anchor that clones a chosen output leaves its own as it is unless it answers `Updated`.
pub proof fn cloners_announce_their_changes<G: Reads<O1> + Reads<Out>, O1, Out: Clone, F: FnMut(&O1) -> Anchor<Out>>(
    a: ThenClone1<O1, Out, F>,
    b: ThenClone1<O1, Out, F>,
    before: &G,
    after: &G,
    poll: Poll,
)
    requires
        AnchorInner::<G>::polls(&a, &b, before, after, poll),
        !(poll is Updated),
    ensures
        b.cached_output == a.cached_output,
{
}

/// A poll of a variable leaves what it shows as it is unless it answers `Updated`, and a completed one shows what was last set.
pub proof fn variables_announce_their_changes<G: UpdateContext, T>(
    a: VarAnchor<T>,
    b: VarAnchor<T>,
    before: &G,
    after: &G,
    poll: Poll,
)
    requires
        a.inv(),
        AnchorInner::<G>::polls(&a, &b, before, after, poll),
    ensures
        !(poll is Updated) && a.had() ==> b.own() == a.own(),
        poll.ready() ==> b.own() == a.last_set(),
        b.last_set() == a.last_set(),
{
}

/// A poll of a variable answers `Updated` if and only if a value was set that had not been taken up; and then that value is shown.
pub proof fn variables_announce_just_what_was_set<G: UpdateContext, T>(
    fresh: VarAnchor<T>,
    a: VarAnchor<T>,
    b: VarAnchor<T>,
    c: VarAnchor<T>,
    val: T,
    marks: bool,
    before: &G,
    after: &G,
    poll: Poll,
    then: &G,
    again: Poll,
)
    requires
        fresh.inv(),
        fresh.set_to(&a, val, marks),
        AnchorInner::<G>::polls(&a, &b, before, after, poll),
        AnchorInner::<G>::polls(&b, &c, after, then, again),
    ensures
        poll is Updated,
        b.own() == val,
        again is Unchanged,
        c.own() == val,
{
}

/// A constant shows the same value after every poll. It answers `Updated` to the first, and `Unchanged` from then on.
pub proof fn constants_never_change<G: UpdateContext, T>(
    a: Constant<T>,
    b: Constant<T>,
    c: Constant<T>,
    before: &G,
    after: &G,
    poll: Poll,
    then: &G,
    again: Poll,
)
    requires
        a.first_poll,
        AnchorInner::<G>::polls(&a, &b, before, after, poll),
        AnchorInner::<G>::polls(&b, &c, after, then, again),
    ensures
        b.own() == a.own(),
        c.own() == a.own(),
        poll is Updated,
        again is Unchanged,
{
}

/// A variable of values and anchors answers `Updated` only if something was set that it had not taken up, or the anchor that it shows
/// says that it has changed.
pub proof fn variables_of_anchors_announce_only_changes<G: UpdateContext, T>(
    a: VarEitherAnchor<T>,
    b: VarEitherAnchor<T>,
    before: &G,
    after: &G,
    poll: Poll,
)
    requires
        a.inv(),
        AnchorInner::<G>::polls(&a, &b, before, after, poll),
        poll is Updated,
        a.next is None,
        !after.degraded(),
    ensures
        b.alias() is Some,
        found_updated(before, after, b.alias()->0) || gone(after.calls()[after.calls().len() - 1]),
{
    let n = after.calls().len();
    if !gone(after.calls()[n - 1]) {
        assert(says_updated(after.calls()[n - 1], b.alias()->0));
    }
}

/// A request for something that is gone.
pub open spec fn gone(call: Call) -> bool {
    match call {
        Call::Request { poll, .. } => poll is PendingInvalidToken,
        _ => false,
    }
}

/// An anchor that clones a chosen output answers `Updated` only if it has chosen another anchor, now or since it last announced one, or if
/// the anchor that it has chosen has reported a change or says that it has changed. Its output is then a clone of what is read of that anchor.
pub proof fn cloners_announce_only_changes<G: Reads<O1> + Reads<Out>, O1, Out: Clone, F: FnMut(&O1) -> Anchor<Out>>(
    a: ThenClone1<O1, Out, F>,
    b: ThenClone1<O1, Out, F>,
    before: &G,
    after: &G,
    poll: Poll,
)
    requires
        AnchorInner::<G>::polls(&a, &b, before, after, poll),
        poll is Updated,
    ensures
        b.f_anchor is Some,
        a.switched || a.output_dirty || b.choice() != a.choice() || found_updated(before, after, b.f_anchor->0.token),
        <G as Reads<Out>>::reading(after, b.f_anchor->0.token) is Some,
        cloned(<G as Reads<Out>>::reading(after, b.f_anchor->0.token)->0, b.own()),
{
    let n = after.calls().len();
    if says_updated(after.calls()[n - 1], b.f_anchor->0.token) {
        assert(found_updated(before, after, b.f_anchor->0.token));
    }
}

/// The first output of a map, and the first value of an either, is announced.
pub proof fn first_outputs_are_announced<
    G: UpdateContext,
    A: Applies<G, F, Out>,
    F,
    B: Applies<G, H, ValOrAnchor<Out>>,
    H,
    Out: PartialEq,
>(
    a: MapAnchor<A, F, Out>,
    b: MapAnchor<A, F, Out>,
    c: Either<B, Out, H>,
    d: Either<B, Out, H>,
    before: &G,
    after: &G,
    poll: Poll,
    other: Poll,
)
    requires
        AnchorInner::<G>::polls(&a, &b, before, after, poll),
        AnchorInner::<G>::polls(&c, &d, before, after, other),
    ensures
        a.output is None && b.output is Some ==> poll is Updated,
        a.output is None && poll.ready() ==> b.output is Some,
        c.either_anchor is None && d.either_anchor is Some && d.either_anchor->0 is Val ==> other is Updated,
{
}

} // verus!
