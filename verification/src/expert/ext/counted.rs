//! What anchors count, and what becomes of an output that is worked on in place.

use crate::expert::announcing::{found_updated, says_updated};
use crate::expert::ext::dirty_observer::DirtyObserverAnchor;
use crate::expert::ext::map_mut::MapMut;
use crate::expert::ext::update_observer::UpdateObserverAnchor;
use crate::expert::inputs::{behind, found, requested, requests, AppliesMut, Found, Inputs};
use crate::expert::{Anchor, AnchorInner, AnchorOutput, AnchorToken, Call, Poll, Reads, UpdateContext};
use vstd::prelude::*;

verus! {

/// Some of `tokens` was asked for between the two contexts and answered `Updated`.
pub open spec fn some_updated<G: UpdateContext>(before: &G, after: &G, tokens: Seq<AnchorToken>) -> bool {
    exists|k: int| 0 <= k < tokens.len() && found_updated(before, after, #[trigger] tokens[k])
}

/// What requests find is what the answers are.
proof fn lemma_found<G: UpdateContext>(before: &G, after: &G, tokens: Seq<AnchorToken>, necessary: bool, outcome: Found)
    requires
        requested(before, after, tokens, necessary, outcome),
    ensures
        outcome.updated <==> some_updated(before, after, tokens),
{
    let polls = choose|polls: Seq<Poll>|
        polls.len() == tokens.len() && after.calls() == before.calls() + #[trigger] requests(tokens, necessary, polls) && outcome == found(
            polls,
        );
    let n = before.calls().len() as int;
    assert forall|k: int| 0 <= k < tokens.len() implies #[trigger] after.calls()[n + k] == (Call::Request {
        token: tokens[k],
        necessary,
        poll: polls[k],
    }) by {
        assert(requests(tokens, necessary, polls)[k] == (Call::Request { token: tokens[k], necessary, poll: polls[k] }));
    }
    if outcome.updated {
        let k = choose|k: int| 0 <= k < polls.len() && (#[trigger] polls[k]) is Updated;
        assert(after.calls()[n + k] == (Call::Request { token: tokens[k], necessary, poll: polls[k] }));
        assert(says_updated(after.calls()[n + k], tokens[k]));
        assert(found_updated(before, after, tokens[k]));
    }
    if some_updated(before, after, tokens) {
        let k = choose|k: int| 0 <= k < tokens.len() && found_updated(before, after, #[trigger] tokens[k]);
        let m = choose|m: int| before.calls().len() <= m < after.calls().len() && #[trigger] says_updated(after.calls()[m], tokens[k]);
        assert(after.calls()[n + (m - n)] == (Call::Request { token: tokens[m - n], necessary, poll: polls[m - n] }));
        assert(polls[m - n] is Updated);
    }
}

/// A completed poll of an update observer goes up by one, as far as the type goes, if it is the first or if some input says that it
/// has changed; otherwise it stays what it is. It answers `Updated` if and only if it goes up.
pub proof fn update_observers_count_updates<G: UpdateContext, A: Inputs>(
    a: UpdateObserverAnchor<A>,
    b: UpdateObserverAnchor<A>,
    before: &G,
    after: &G,
    poll: Poll,
)
    requires
        a.inv(),
        AnchorInner::<G>::polls(&a, &b, before, after, poll),
        AnchorInner::<G>::holds(&a, before.told()),
        !after.degraded(),
    ensures
        poll is Updated <==> poll.ready() && (a.own() == 0 || some_updated(before, after, a.anchors.tokens())),
        poll is Updated && a.own() < u64::MAX ==> b.own() == a.own() + 1,
        !(poll is Updated) || a.own() == u64::MAX ==> b.own() == a.own(),
        !poll.ready() ==> a.output_stale,
{
    if a.output_stale {
        let outcome = choose|outcome: Found| #[trigger]
            requested(before, after, a.anchors.tokens(), true, outcome) && a.answered(b, outcome, poll);
        lemma_found(before, after, a.anchors.tokens(), true, outcome);
    } else if some_updated(before, after, a.anchors.tokens()) {
        let k = choose|k: int| 0 <= k < a.anchors.tokens().len() && found_updated(before, after, #[trigger] a.anchors.tokens()[k]);
        let m = choose|m: int|
            before.calls().len() <= m < after.calls().len() && #[trigger] says_updated(after.calls()[m], a.anchors.tokens()[k]);
        assert(false);
    }
}

/// A dirty observer that hears of a change of one of its inputs goes up by one, as far as the type goes, with the next poll that it
/// completes, whatever the input then says; and so does a new one. Without a report it stays what it is.
pub proof fn dirty_observers_count_reports<G: UpdateContext, A: Inputs>(
    a: DirtyObserverAnchor<A>,
    heard: DirtyObserverAnchor<A>,
    b: DirtyObserverAnchor<A>,
    edge: AnchorToken,
    before: &G,
    after: &G,
    poll: Poll,
)
    requires
        AnchorInner::<G>::hears(&a, &heard, edge),
        AnchorInner::<G>::polls(&heard, &b, before, after, poll),
        a.own() > 0,
        !a.output_stale,
    ensures
        heard.own() == a.own(),
        a.anchors.tokens().contains(edge) ==> !(poll is Unchanged),
        poll is Updated ==> a.anchors.tokens().contains(edge),
        poll is Updated && a.own() < u64::MAX ==> b.own() == a.own() + 1,
        !(poll is Updated) || a.own() == u64::MAX ==> b.own() == a.own(),
        poll.ready() ==> !b.output_stale,
{
}

/// A new dirty observer shows one once it has completed a poll.
pub proof fn dirty_observers_begin_with_one<G: UpdateContext, A: Inputs>(
    a: DirtyObserverAnchor<A>,
    b: DirtyObserverAnchor<A>,
    before: &G,
    after: &G,
    poll: Poll,
)
    requires
        AnchorInner::<G>::polls(&a, &b, before, after, poll),
        a.own() == 0,
    ensures
        poll is Updated || poll is Pending,
        poll is Updated ==> b.own() == 1,
        poll is Pending ==> b.own() == 0,
{
}

/// A poll of a map that works on its output in place calls its function if and only if its input says that it has changed: on the
/// output that there is and on what is read of the input. It answers `Updated` if and only if the function says so, and if it does
/// not call the function it leaves the output as it is.
pub proof fn outputs_are_worked_on_for_updates<G: Reads<O>, O, F: FnMut(&mut Out, &O) -> bool, Out>(
    a: MapMut<(Anchor<O>,), F, Out>,
    b: MapMut<(Anchor<O>,), F, Out>,
    before: &G,
    after: &G,
    poll: Poll,
)
    requires
        AnchorInner::<G>::polls(&a, &b, before, after, poll),
    ensures
        poll is Updated ==> found_updated(before, after, a.anchors.0.token),
        poll.ready() && found_updated(before, after, a.anchors.0.token) ==> {
            &&& <G as Reads<O>>::reading(after, a.anchors.0.token) is Some
            &&& exists|o: &mut Out|
                #[trigger] behind(o) == a.own() && call_ensures(
                    a.f,
                    (o, &<G as Reads<O>>::reading(after, a.anchors.0.token)->0),
                    poll is Updated,
                )
        } || after.degraded(),
        !poll.ready() || !found_updated(before, after, a.anchors.0.token) ==> b.own() == a.own(),
{
    let tokens = a.anchors.tokens();
    if !a.degraded_on_invalid && a.output_stale {
        let outcome = choose|outcome: Found|
            #[trigger] requested(before, after, tokens, true, outcome) && if !outcome.invalid && !outcome.pending && outcome.updated {
                if AppliesMut::<G, F, Out>::readable_mut(&a.anchors, after) {
                    &&& poll.ready()
                    &&& exists|o: &mut Out| #[trigger] behind(o) == a.output && AppliesMut::<G, F, Out>::makes(&a.anchors, a.f, o, after, poll is Updated)
                } else {
                    b == a && poll is PendingInvalidToken
                }
            } else {
                &&& !(poll is Updated)
                &&& b.output == a.output
                &&& outcome.pending && !outcome.invalid ==> poll is Pending
            };
        lemma_found(before, after, tokens, true, outcome);
        assert(tokens[0] == a.anchors.0.token);
        assert(some_updated(before, after, tokens) <==> found_updated(before, after, tokens[0]));
    } else {
        assert(!found_updated(before, after, a.anchors.0.token));
    }
}

} // verus!
