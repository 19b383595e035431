//! Requests for a number of anchors, one after the other.

use crate::expert::inputs::requests;
use crate::expert::{Anchor, AnchorToken, Call, Poll, UpdateContext};
use vstd::prelude::*;

verus! {

/// The requests for `targets` that were answered by `polls`. Where there is no anchor nothing is asked.
pub open spec fn turn_calls(targets: Seq<Option<AnchorToken>>, polls: Seq<Poll>) -> Seq<Call>
    decreases polls.len(),
{
    if polls.len() == 0 {
        Seq::empty()
    } else {
        let before = turn_calls(targets, polls.drop_last());
        match targets[polls.len() - 1] {
            Some(token) => before.push(Call::Request { token, necessary: true, poll: polls.last() }),
            None => before,
        }
    }
}

/// The last answer was that an anchor has to be waited for.
pub open spec fn stopped(polls: Seq<Poll>) -> bool {
    polls.len() > 0 && polls.last().waiting()
}

/// Some anchor is gone.
pub open spec fn lost(polls: Seq<Poll>) -> bool {
    exists|k: int| 0 <= k < polls.len() && (#[trigger] polls[k]) is PendingInvalidToken
}

/// Some anchor has changed.
pub open spec fn stirred(polls: Seq<Poll>) -> bool {
    exists|k: int| 0 <= k < polls.len() && (#[trigger] polls[k]) is Updated
}

/// `targets` were requested in turn between two contexts, up to the first that has to be waited for.
pub open spec fn asked_in_turn<G: UpdateContext>(
    before: &G,
    after: &G,
    targets: Seq<Option<AnchorToken>>,
    polls: Seq<Poll>,
) -> bool {
    &&& before.evolves(after)
    &&& polls.len() <= targets.len()
    &&& after.calls() == before.calls() + turn_calls(targets, polls)
    &&& forall|k: int| 0 <= k < polls.len() && (#[trigger] polls[k]).waiting() ==> k == polls.len() - 1
    &&& polls.len() < targets.len() ==> stopped(polls)
    &&& forall|k: int| 0 <= k < polls.len() && targets[k] is None ==> (#[trigger] polls[k]) is Unchanged
    &&& lost(polls) ==> after.degraded()
    &&& !after.degraded() ==> forall|k: int|
        0 <= k < polls.len() && targets[k] is Some && (#[trigger] polls[k]).ready() ==> after.told().contains_key(targets[k]->0)
    &&& !after.degraded() ==> forall|k: int|
        0 <= k < polls.len() && targets[k] is Some && (#[trigger] polls[k]) is Unchanged ==> before.completed()
            && (before.seen().contains_key(targets[k]->0) ==> before.seen()[targets[k]->0] == before.now()[targets[k]->0])
}

/// Requests `targets` in turn, up to the first that has to be waited for.
pub fn ask_in_turn<G: UpdateContext>(ctx: &mut G, targets: &Vec<Option<AnchorToken>>) -> (polls: Vec<Poll>)
    requires
        old(ctx).valid(),
    ensures
        asked_in_turn(old(ctx), final(ctx), targets@, polls@),
{
    let ghost was = *ctx;
    let mut polls: Vec<Poll> = Vec::new();
    proof {
        was.evolves_reflexive();
        was.evolves_keeps(ctx);
        assert(was.calls() + turn_calls(targets@, polls@) =~= was.calls());
    }
    let mut k: usize = 0;
    while k < targets.len()
        invariant
            k <= targets@.len(),
            polls@.len() == k,
            was == *old(ctx),
            was.valid(),
            ctx.valid(),
            asked_in_turn(&was, ctx, targets@.take(k as int), polls@),
            ctx.calls() == was.calls() + turn_calls(targets@, polls@),
            !stopped(polls@),
        decreases targets@.len() - k,
    {
        let ghost before = *ctx;
        let ghost given = polls@;
        let poll: Poll = match targets[k] {
            Some(token) => ctx.request(token, true),
            None => Poll::Unchanged,
        };
        polls.push(poll);
        proof {
            if targets@[k as int] is None {
                before.evolves_reflexive();
            }
            was.evolves_keeps(&before);
            before.evolves_keeps(ctx);
            was.evolves_transitive(&before, ctx);
            assert(polls@.drop_last() =~= given);
            assert(ctx.calls() =~= was.calls() + turn_calls(targets@, polls@));
            let more = targets@.take(k as int + 1);
            assert(turn_calls(more, polls@) == turn_calls(targets@, polls@)) by {
                lemma_calls_of_prefix(targets@, polls@, k as int + 1);
            }
            assert forall|m: int| 0 <= m < polls@.len() && more[m] is None implies (#[trigger] polls@[m]) is Unchanged by {
                if m < k {
                    assert(targets@.take(k as int)[m] is None);
                    assert(given[m] is Unchanged);
                }
            }
            assert forall|m: int| 0 <= m < polls@.len() && (#[trigger] polls@[m]).waiting() implies m == polls@.len() - 1 by {
                if m < k {
                    assert(given[m].waiting());
                    assert(stopped(given));
                }
            }
            if lost(polls@) {
                let m = choose|m: int| 0 <= m < polls@.len() && (#[trigger] polls@[m]) is PendingInvalidToken;
                if m < k {
                    assert(given[m] is PendingInvalidToken);
                    assert(lost(given));
                }
            }
            if !ctx.degraded() {
                assert forall|m: int| 0 <= m < polls@.len() && more[m] is Some && (#[trigger] polls@[m]).ready() implies ctx.told().contains_key(more[m]->0) by {
                    if m < k {
                        assert(given[m].ready());
                        assert(targets@.take(k as int)[m] == more[m]);
                        assert(before.told().dom().contains(more[m]->0));
                        assert(ctx.told().dom().contains(more[m]->0));
                    }
                }
                assert forall|m: int| 0 <= m < polls@.len() && more[m] is Some && (#[trigger] polls@[m]) is Unchanged implies was.completed() && (was.seen().contains_key(more[m]->0) ==> was.seen()[more[m]->0] == was.now()[more[m]->0]) by {
                    if m < k {
                        assert(given[m] is Unchanged);
                        assert(targets@.take(k as int)[m] == more[m]);
                    }
                }
            }
        }
        k = k + 1;
        if poll.is_waiting() {
            proof {
                lemma_more_targets(&was, ctx, targets@, polls@, k as int);
            }
            return polls;
        }
    }
    proof {
        assert(targets@.take(k as int) =~= targets@);
    }
    polls
}

proof fn lemma_calls_of_prefix(targets: Seq<Option<AnchorToken>>, polls: Seq<Poll>, n: int)
    requires
        polls.len() <= n <= targets.len(),
    ensures
        turn_calls(targets.take(n), polls) == turn_calls(targets, polls),
    decreases polls.len(),
{
    if polls.len() > 0 {
        lemma_calls_of_prefix(targets, polls.drop_last(), n);
        assert(targets.take(n)[polls.len() - 1] == targets[polls.len() - 1]);
    }
}

/// Targets that come after one that has to be waited for are left alone.
proof fn lemma_more_targets<G: UpdateContext>(
    before: &G,
    after: &G,
    targets: Seq<Option<AnchorToken>>,
    polls: Seq<Poll>,
    n: int,
)
    requires
        n == polls.len() <= targets.len(),
        stopped(polls),
        asked_in_turn(before, after, targets.take(n), polls),
    ensures
        asked_in_turn(before, after, targets, polls),
{
    lemma_calls_of_prefix(targets, polls, n);
    let some = targets.take(n);
    assert forall|k: int| 0 <= k < n implies #[trigger] some[k] == targets[k] by {
    }
    assert forall|k: int| 0 <= k < polls.len() && targets[k] is None implies (#[trigger] polls[k]) is Unchanged by {
        assert(some[k] is None);
    }
    if !after.degraded() {
        assert forall|k: int| 0 <= k < polls.len() && targets[k] is Some && (#[trigger] polls[k]).ready() implies after.told().contains_key(targets[k]->0) by {
            assert(some[k] is Some);
        }
        assert forall|k: int| 0 <= k < polls.len() && targets[k] is Some && (#[trigger] polls[k]) is Unchanged implies before.completed() && (before.seen().contains_key(targets[k]->0) ==> before.seen()[targets[k]->0] == before.now()[targets[k]->0]) by {
            assert(some[k] is Some);
        }
    }
}

/// Whether some anchor is gone.
pub fn any_lost(polls: &Vec<Poll>) -> (b: bool)
    ensures
        b == lost(polls@),
{
    let mut k: usize = 0;
    while k < polls.len()
        invariant
            k <= polls@.len(),
            forall|m: int| 0 <= m < k ==> !((#[trigger] polls@[m]) is PendingInvalidToken),
        decreases polls@.len() - k,
    {
        if polls[k].is_invalid_token() {
            return true;
        }
        k = k + 1;
    }
    false
}

/// Whether some anchor has to be waited for.
pub fn has_stopped(polls: &Vec<Poll>) -> (b: bool)
    ensures
        b == stopped(polls@),
{
    polls.len() > 0 && polls[polls.len() - 1].is_waiting()
}

/// The tokens of `anchors`.
pub open spec fn tokens_of<T>(anchors: Seq<Anchor<T>>) -> Seq<AnchorToken> {
    Seq::new(anchors.len(), |k: int| anchors[k].token)
}

/// Some anchor has to be waited for.
pub open spec fn awaiting(polls: Seq<Poll>) -> bool {
    exists|k: int| 0 <= k < polls.len() && (#[trigger] polls[k]).waiting()
}

/// Every one of `tokens` was requested between two contexts.
pub open spec fn asked_every<G: UpdateContext>(before: &G, after: &G, tokens: Seq<AnchorToken>, polls: Seq<Poll>) -> bool {
    &&& before.evolves(after)
    &&& polls.len() == tokens.len()
    &&& after.calls() == before.calls() + requests(tokens, true, polls)
    &&& lost(polls) ==> after.degraded()
    &&& !after.degraded() ==> forall|k: int| 0 <= k < polls.len() && (#[trigger] polls[k]).ready() ==> after.told().contains_key(tokens[k])
    &&& !after.degraded() ==> forall|k: int|
        0 <= k < polls.len() && (#[trigger] polls[k]) is Unchanged ==> before.completed() && (before.seen().contains_key(tokens[k])
            ==> before.seen()[tokens[k]] == before.now()[tokens[k]])
}

/// Requests every one of `anchors`.
pub fn ask_every<G: UpdateContext, T>(ctx: &mut G, anchors: &Vec<Anchor<T>>) -> (polls: Vec<Poll>)
    requires
        old(ctx).valid(),
    ensures
        asked_every(old(ctx), final(ctx), tokens_of(anchors@), polls@),
{
    let ghost was = *ctx;
    let ghost tokens = tokens_of(anchors@);
    let mut polls: Vec<Poll> = Vec::new();
    proof {
        was.evolves_reflexive();
        was.evolves_keeps(ctx);
        assert(was.calls() + requests(tokens.take(0), true, polls@) =~= was.calls());
    }
    let mut k: usize = 0;
    while k < anchors.len()
        invariant
            k <= anchors@.len(),
            tokens == tokens_of(anchors@),
            was == *old(ctx),
            was.valid(),
            ctx.valid(),
            polls@.len() == k,
            asked_every(&was, ctx, tokens.take(k as int), polls@),
        decreases anchors@.len() - k,
    {
        let ghost before = *ctx;
        let ghost given = polls@;
        let poll: Poll = ctx.request(anchors[k].token, true);
        polls.push(poll);
        proof {
            was.evolves_keeps(&before);
            before.evolves_keeps(ctx);
            was.evolves_transitive(&before, ctx);
            let less = tokens.take(k as int);
            let more = tokens.take(k as int + 1);
            assert(requests(more, true, polls@) =~= requests(less, true, given).push(
                Call::Request { token: tokens[k as int], necessary: true, poll },
            ));
            assert(ctx.calls() =~= was.calls() + requests(more, true, polls@));
            if lost(polls@) {
                let m = choose|m: int| 0 <= m < polls@.len() && (#[trigger] polls@[m]) is PendingInvalidToken;
                if m < k {
                    assert(given[m] is PendingInvalidToken);
                    assert(lost(given));
                }
            }
            if !ctx.degraded() {
                assert forall|m: int| 0 <= m < polls@.len() && (#[trigger] polls@[m]).ready() implies ctx.told().contains_key(more[m]) by {
                    if m < k {
                        assert(given[m].ready());
                        assert(less[m] == more[m]);
                        assert(before.told().dom().contains(more[m]));
                        assert(ctx.told().dom().contains(more[m]));
                    }
                }
                assert forall|m: int| 0 <= m < polls@.len() && (#[trigger] polls@[m]) is Unchanged implies was.completed() && (was.seen().contains_key(more[m]) ==> was.seen()[more[m]] == was.now()[more[m]]) by {
                    if m < k {
                        assert(given[m] is Unchanged);
                        assert(less[m] == more[m]);
                    }
                }
            }
        }
        k = k + 1;
    }
    proof {
        assert(tokens.take(k as int) =~= tokens);
    }
    polls
}

/// Whether some anchor has to be waited for.
pub fn any_awaiting(polls: &Vec<Poll>) -> (b: bool)
    ensures
        b == awaiting(polls@),
{
    let mut k: usize = 0;
    while k < polls.len()
        invariant
            k <= polls@.len(),
            forall|m: int| 0 <= m < k ==> !(#[trigger] polls@[m]).waiting(),
        decreases polls@.len() - k,
    {
        if polls[k].is_waiting() {
            return true;
        }
        k = k + 1;
    }
    false
}

} // verus!
