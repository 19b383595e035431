//! What anchors ask for as necessary, and what they give up.

use crate::collections::asking::turn_calls;
use crate::collections::collect::{targets, Collect, Source};
use crate::collections::fold::{Folds, Followed, UnorderedFold, UnorderedFoldWithAnchor};
use crate::collections::sequence::Sequence;
use crate::expert::ext::cutoff::{Cutoff, Debounce};
use crate::expert::ext::dirty_observer::DirtyObserverAnchor;
use crate::expert::ext::either::Either;
use crate::expert::ext::map::MapAnchor;
use crate::expert::ext::map_mut::MapMut;
use crate::expert::ext::then_clone::ThenClone1;
use crate::expert::ext::then_dedupe::ThenDedupe;
use crate::expert::ext::thens::Then;
use crate::expert::ext::update_observer::UpdateObserverAnchor;
use crate::expert::inputs::{requests, Applies, AppliesMut, Inputs, Snapshots};
use crate::expert::var_val_or_anchor::{ValOrAnchor, VarEitherAnchor};
use crate::expert::{Anchor, AnchorInner, AnchorOutput, AnchorToken, Call, Poll, Reads, UpdateContext};
use vstd::prelude::*;

verus! {

/// A request for something that is not needed.
pub open spec fn in_passing(call: Call) -> bool {
    match call {
        Call::Request { necessary, .. } => !necessary,
        _ => false,
    }
}

/// A request for something that is needed.
pub open spec fn in_earnest(call: Call) -> bool {
    match call {
        Call::Request { necessary, .. } => necessary,
        _ => false,
    }
}

/// Everything that was asked for between the two contexts is needed.
pub open spec fn needs_what_it_asks_for<G: UpdateContext>(before: &G, after: &G) -> bool {
    forall|m: int| before.calls().len() <= m < after.calls().len() ==> !in_passing(#[trigger] after.calls()[m])
}

/// Between the two contexts, `token` was given up.
pub open spec fn gave_up<G: UpdateContext>(before: &G, after: &G, token: AnchorToken) -> bool {
    exists|m: int| before.calls().len() <= m < after.calls().len() && #[trigger] after.calls()[m] == (Call::Unrequest { token })
}

/// A map needs its inputs.
pub proof fn maps_need_their_inputs<G: UpdateContext, A: Applies<G, F, Out>, F, Out: PartialEq>(
    a: MapAnchor<A, F, Out>,
    b: MapAnchor<A, F, Out>,
    before: &G,
    after: &G,
    poll: Poll,
)
    requires
        AnchorInner::<G>::polls(&a, &b, before, after, poll),
    ensures
        needs_what_it_asks_for(before, after),
{
}

/// A map that works on its output in place needs its inputs.
pub proof fn maps_in_place_need_their_inputs<G: UpdateContext, A: AppliesMut<G, F, Out>, F, Out>(
    a: MapMut<A, F, Out>,
    b: MapMut<A, F, Out>,
    before: &G,
    after: &G,
    poll: Poll,
)
    requires
        AnchorInner::<G>::polls(&a, &b, before, after, poll),
    ensures
        needs_what_it_asks_for(before, after),
{
}

/// A cutoff needs its input.
pub proof fn cutoffs_need_their_input<G: Reads<O>, O, F: FnMut(&O) -> bool>(
    a: Cutoff<O, F>,
    b: Cutoff<O, F>,
    before: &G,
    after: &G,
    poll: Poll,
)
    requires
        AnchorInner::<G>::polls(&a, &b, before, after, poll),
    ensures
        needs_what_it_asks_for(before, after),
{
}

/// A debounce needs its input.
pub proof fn debounces_need_their_input<G: Reads<O>, O: Clone + PartialEq>(
    a: Debounce<O>,
    b: Debounce<O>,
    before: &G,
    after: &G,
    poll: Poll,
)
    requires
        AnchorInner::<G>::polls(&a, &b, before, after, poll),
    ensures
        needs_what_it_asks_for(before, after),
{
}

/// An update observer needs what it watches.
pub proof fn update_observers_need_what_they_watch<G: UpdateContext, A: Inputs>(
    a: UpdateObserverAnchor<A>,
    b: UpdateObserverAnchor<A>,
    before: &G,
    after: &G,
    poll: Poll,
)
    requires
        AnchorInner::<G>::polls(&a, &b, before, after, poll),
    ensures
        needs_what_it_asks_for(before, after),
{
}

/// An anchor that clones a chosen output needs its input and its choice.
pub proof fn cloners_need_what_they_ask_for<G: Reads<O1> + Reads<Out>, O1, Out: Clone, F: FnMut(&O1) -> Anchor<Out>>(
    a: ThenClone1<O1, Out, F>,
    b: ThenClone1<O1, Out, F>,
    before: &G,
    after: &G,
    poll: Poll,
)
    requires
        AnchorInner::<G>::polls(&a, &b, before, after, poll),
    ensures
        needs_what_it_asks_for(before, after),
{
}

/// A follower needs its input.
pub proof fn followers_need_their_input<G: Reads<C>, C: Followed, T, S: Folds<C, (), T>>(
    a: UnorderedFold<C, S, T>,
    b: UnorderedFold<C, S, T>,
    before: &G,
    after: &G,
    poll: Poll,
)
    requires
        AnchorInner::<G>::polls(&a, &b, before, after, poll),
    ensures
        needs_what_it_asks_for(before, after),
{
}

/// A follower that goes by the output of another anchor needs that anchor too.
pub proof fn followers_with_an_anchor_need_their_inputs<G: Reads<C> + Reads<A>, C: Followed, A: PartialEq + Clone, T, S: Folds<C, A, T>>(
    a: UnorderedFoldWithAnchor<C, A, S, T>,
    b: UnorderedFoldWithAnchor<C, A, S, T>,
    before: &G,
    after: &G,
    poll: Poll,
)
    requires
        AnchorInner::<G>::polls(&a, &b, before, after, poll),
    ensures
        needs_what_it_asks_for(before, after),
{
}

/// A dirty observer watches its inputs without needing them.
pub proof fn dirty_observers_need_nothing<G: UpdateContext, A: Inputs>(
    a: DirtyObserverAnchor<A>,
    b: DirtyObserverAnchor<A>,
    before: &G,
    after: &G,
    poll: Poll,
    m: int,
)
    requires
        AnchorInner::<G>::polls(&a, &b, before, after, poll),
        before.calls().len() <= m < after.calls().len(),
    ensures
        !in_earnest(after.calls()[m]),
{
}

proof fn lemma_turn_calls(wanted: Seq<Option<AnchorToken>>, polls: Seq<Poll>, m: int)
    requires
        0 <= m < turn_calls(wanted, polls).len(),
    ensures
        !in_passing(turn_calls(wanted, polls)[m]),
    decreases polls.len(),
{
    if polls.len() > 0 {
        let before = turn_calls(wanted, polls.drop_last());
        if m < before.len() {
            lemma_turn_calls(wanted, polls.drop_last(), m);
        }
    }
}

/// A gathering in a sequence needs what it gathers.
pub proof fn sequences_need_what_they_gather<G: Reads<T>, C: Sequence<T>, T: Clone, I: Source<T>>(
    a: Collect<C, T, I>,
    b: Collect<C, T, I>,
    before: &G,
    after: &G,
    poll: Poll,
)
    requires
        AnchorInner::<G>::polls(&a, &b, before, after, poll),
    ensures
        needs_what_it_asks_for(before, after),
{
    assert forall|m: int| before.calls().len() <= m < after.calls().len() implies !in_passing(#[trigger] after.calls()[m]) by {
        let wanted = targets::<T, I>(a.anchors@);
        let polls = choose|polls: Seq<Poll>| after.calls() == before.calls() + #[trigger] turn_calls(wanted, polls);
        lemma_turn_calls(wanted, polls, m - before.calls().len());
    }
}

/// A chooser needs its inputs and its choice, and gives up what it chose before, and nothing else, where it chooses another anchor.
pub proof fn choosers_give_up_what_they_leave<G: UpdateContext, A: Applies<G, F, Anchor<Out>>, Out, F>(
    a: Then<A, Out, F>,
    b: Then<A, Out, F>,
    before: &G,
    after: &G,
    poll: Poll,
)
    requires
        AnchorInner::<G>::polls(&a, &b, before, after, poll),
    ensures
        needs_what_it_asks_for(before, after),
        a.alias() is Some && b.alias() != a.alias() ==> gave_up(before, after, a.alias()->0),
        forall|token: AnchorToken| #[trigger] gave_up(before, after, token) ==> a.alias() == Some(token) && b.alias() != a.alias(),
{
    let n = after.calls().len();
    if a.alias() is Some && b.alias() != a.alias() {
        let call = Call::Unrequest { token: a.alias()->0 };
        assert(after.calls()[n - 1] == call || after.calls()[n - 2] == call);
    }
}

/// A chooser that compares its inputs first needs them and its choice, and gives up what it chose before where it chooses another
/// anchor.
pub proof fn comparing_choosers_give_up_what_they_leave<G: UpdateContext, A: Applies<G, F, Anchor<Out>> + Snapshots<G, Values = Vals>, Vals, Out, F>(
    a: ThenDedupe<A, Vals, Out, F>,
    b: ThenDedupe<A, Vals, Out, F>,
    before: &G,
    after: &G,
    poll: Poll,
)
    requires
        AnchorInner::<G>::polls(&a, &b, before, after, poll),
    ensures
        needs_what_it_asks_for(before, after),
        a.alias() is Some && b.alias() != a.alias() ==> gave_up(before, after, a.alias()->0),
{
    let n = after.calls().len();
    if a.alias() is Some && b.alias() != a.alias() {
        let call = Call::Unrequest { token: a.alias()->0 };
        assert(after.calls()[n - 1] == call || after.calls()[n - 2] == call);
    }
}

/// An either needs its inputs and the anchor that it shows, and gives up the anchor that it showed before, and nothing else, where it
/// shows something else.
pub proof fn eithers_give_up_what_they_leave<G: UpdateContext, A: Applies<G, F, ValOrAnchor<Out>>, Out: PartialEq, F>(
    a: Either<A, Out, F>,
    b: Either<A, Out, F>,
    before: &G,
    after: &G,
    poll: Poll,
)
    requires
        AnchorInner::<G>::polls(&a, &b, before, after, poll),
    ensures
        needs_what_it_asks_for(before, after),
        a.alias() is Some && b.alias() != a.alias() ==> gave_up(before, after, a.alias()->0),
        forall|token: AnchorToken| #[trigger] gave_up(before, after, token) ==> a.alias() == Some(token) && b.alias() != a.alias(),
{
    let n = after.calls().len();
    if a.alias() is Some && b.alias() != a.alias() {
        let call = Call::Unrequest { token: a.alias()->0 };
        assert(after.calls()[n - 1] == call || after.calls()[n - 2] == call);
    }
}

/// A variable of values and anchors needs the anchor that it shows, and gives up the one that it showed before where it shows something
/// else.
pub proof fn variables_give_up_what_they_leave<G: UpdateContext, T>(
    a: VarEitherAnchor<T>,
    b: VarEitherAnchor<T>,
    before: &G,
    after: &G,
    poll: Poll,
)
    requires
        AnchorInner::<G>::polls(&a, &b, before, after, poll),
    ensures
        needs_what_it_asks_for(before, after),
        a.alias() is Some && b.alias() != a.alias() ==> gave_up(before, after, a.alias()->0),
{
    let n = after.calls().len();
    if a.alias() is Some && b.alias() != a.alias() {
        let call = Call::Unrequest { token: a.alias()->0 };
        assert(after.calls()[n - 1] == call || after.calls()[n - 2] == call);
    }
}

} // verus!
