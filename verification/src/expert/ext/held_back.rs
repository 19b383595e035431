//! Which changes are passed on by anchors that hold some of them back.

use crate::collections::fold::faithful;
use crate::expert::equal::{alike, unlike};
use crate::expert::ext::cutoff::{Cutoff, Debounce};
use crate::expert::{AnchorInner, AnchorOutput, AnchorToken, Call, Poll, Reads};
use vstd::prelude::*;

verus! {

/// The last call was a request for `token`, answered by `poll`.
pub open spec fn last_asked(calls: Seq<Call>, token: AnchorToken, poll: Poll) -> bool {
    &&& calls.len() > 0
    &&& match calls.last() {
        Call::Request { token: asked, poll: given, .. } => asked == token && given == poll,
        _ => false,
    }
}

/// A cutoff asks for its input just once. It passes on a change of the input if and only if its function says yes to what is
/// read of the input now, and answers as the input does if that has not changed or is not ready. It shows what the input
/// shows.
pub proof fn cutoffs_pass_on_what_matters<G: Reads<O>, O, F: FnMut(&O) -> bool>(
    a: Cutoff<O, F>,
    b: Cutoff<O, F>,
    before: &G,
    after: &G,
    poll: Poll,
    matters: spec_fn(O) -> bool,
) -> (upstream: Poll)
    requires
        AnchorInner::<G>::polls(&a, &b, before, after, poll),
        forall|v: O, yes: bool| #[trigger] call_ensures(a.f, (&v,), yes) ==> yes == matters(v),
    ensures
        b.alias() == Some(a.anchor.token),
        after.calls().len() == before.calls().len() + 1,
        last_asked(after.calls(), a.anchor.token, upstream),
        !(upstream is Updated) ==> poll == upstream,
        upstream is Updated && <G as Reads<O>>::reading(after, a.anchor.token) is Some ==> (poll is Updated <==> matters(
            <G as Reads<O>>::reading(after, a.anchor.token)->0,
        )),
        upstream is Updated && <G as Reads<O>>::reading(after, a.anchor.token) is Some ==> poll.ready(),
        upstream is Updated && <G as Reads<O>>::reading(after, a.anchor.token) is None ==> poll is PendingInvalidToken,
{
    after.calls().last()->poll
}

/// A poll of a debounce.
pub ghost struct DebouncePoll<G, O> {
    pub a: Debounce<O>,
    pub b: Debounce<O>,
    pub before: G,
    pub after: G,
    pub poll: Poll,
}

impl<G: Reads<O>, O: Clone + PartialEq> DebouncePoll<G, O> {
    /// What could be read of the input in this poll.
    pub open spec fn input(self) -> Option<O> {
        <G as Reads<O>>::reading(&self.after, self.a.anchor.token)
    }

    /// What the input answered.
    pub open spec fn upstream(self, poll: Poll) -> bool {
        last_asked(self.after.calls(), self.a.anchor.token, poll)
    }
}

/// The last poll before poll `k` that was completed, or -1.
pub open spec fn last_completed<G, O>(run: Seq<DebouncePoll<G, O>>, k: int) -> int
    decreases k,
{
    if k <= 0 {
        -1
    } else if run[k - 1].poll.ready() {
        k - 1
    } else {
        last_completed(run, k - 1)
    }
}

/// Poll `k` of a series: the debounce is as the poll before left it. An input that answers `Unchanged` shows what it showed in
/// the last poll that was completed.
pub open spec fn debounce_turn<G: Reads<O>, O: Clone + PartialEq>(run: Seq<DebouncePoll<G, O>>, k: int) -> bool {
    let j = last_completed(run, k);
    &&& AnchorInner::<G>::polls(&run[k].a, &run[k].b, &run[k].before, &run[k].after, run[k].poll)
    &&& k == 0 ==> run[k].a.old_v is None
    &&& k > 0 ==> run[k].a == run[k - 1].b
    &&& run[k].upstream(Poll::Unchanged) ==> j >= 0 && run[k].input() == run[j].input()
}

/// A series of polls of a debounce that begins with a new one.
pub open spec fn debounce_series<G: Reads<O>, O: Clone + PartialEq>(run: Seq<DebouncePoll<G, O>>) -> bool {
    forall|k: int| 0 <= k < run.len() ==> #[trigger] debounce_turn(run, k)
}

/// The last poll before poll `k` that answered `Updated`, or -1.
pub open spec fn last_reported<G, O>(run: Seq<DebouncePoll<G, O>>, k: int) -> int
    decreases k,
{
    if k <= 0 {
        -1
    } else if run[k - 1].poll is Updated {
        k - 1
    } else {
        last_reported(run, k - 1)
    }
}

/// `==` finds no difference between a clone of `reported` and `v`, or they are the same.
pub open spec fn no_news<O: Clone + PartialEq>(reported: O, v: O) -> bool {
    v == reported || exists|kept: O| #[trigger] cloned(reported, kept) && alike(kept, v)
}

/// `==` finds a difference between a clone of `reported` and `v`.
pub open spec fn news<O: Clone + PartialEq>(reported: O, v: O) -> bool {
    exists|kept: O| #[trigger] cloned(reported, kept) && unlike(kept, v)
}

/// What holds between polls.
spec fn debounced<G: Reads<O>, O: Clone + PartialEq>(run: Seq<DebouncePoll<G, O>>, k: int, x: Debounce<O>) -> bool {
    let r = last_reported(run, k);
    let c = last_completed(run, k);
    &&& r <= c < k
    &&& r >= -1 && c >= -1
    &&& (r >= 0) == (c >= 0)
    &&& (r >= 0) == (x.old_v is Some)
    &&& r >= 0 ==> {
        &&& run[r].input() is Some
        &&& cloned(run[r].input()->0, x.old_v->0)
        &&& run[c].input() is Some
        &&& no_news(run[r].input()->0, run[c].input()->0)
        &&& run[r].a.anchor == x.anchor
        &&& run[c].a.anchor == x.anchor
    }
}

proof fn lemma_debounced<G: Reads<O>, O: Clone + PartialEq>(run: Seq<DebouncePoll<G, O>>, k: int)
    requires
        debounce_series(run),
        0 <= k <= run.len(),
        run.len() > 0,
    ensures
        k < run.len() ==> debounced(run, k, run[k].a),
        k > 0 ==> debounced(run, k, run[k - 1].b),
    decreases k,
{
    if k > 0 {
        lemma_debounced(run, k - 1);
        assert(debounce_turn(run, k - 1));
        if k < run.len() {
            assert(debounce_turn(run, k));
        }
        let p = run[k - 1];
        assert(p.b.anchor == p.a.anchor);
        if p.poll.ready() {
            if p.upstream(Poll::Unchanged) {
            } else {
                assert(p.upstream(Poll::Updated));
            }
        }
    } else {
        assert(debounce_turn(run, 0));
    }
}

/// Over any series of polls, a debounce that completes a poll without a report shows what it last reported, as far as `==`
/// goes; and it has reported something.
pub proof fn debounces_show_what_they_reported<G: Reads<O>, O: Clone + PartialEq>(run: Seq<DebouncePoll<G, O>>, k: int) -> (j: int)
    requires
        debounce_series(run),
        0 <= k < run.len(),
        run[k].poll is Unchanged,
    ensures
        0 <= j < k,
        run[j].poll is Updated,
        forall|m: int| j < m <= k ==> !((#[trigger] run[m]).poll is Updated),
        run[j].input() is Some,
        run[k].input() is Some,
        no_news(run[j].input()->0, run[k].input()->0),
        faithful::<O>() ==> run[k].input() == run[j].input(),
{
    lemma_debounced(run, k + 1);
    lemma_debounced(run, k);
    lemma_last_reported(run, k);
    last_reported(run, k)
}

/// Over any series of polls, a debounce reports a change only where `==` finds a difference to what it reported last, and
/// only where its input has reported one.
pub proof fn debounces_report_what_differs<G: Reads<O>, O: Clone + PartialEq>(run: Seq<DebouncePoll<G, O>>, j: int, k: int)
    requires
        debounce_series(run),
        0 <= j < k < run.len(),
        run[j].poll is Updated,
        run[k].poll is Updated,
        forall|m: int| j < m < k ==> !((#[trigger] run[m]).poll is Updated),
    ensures
        run[k].upstream(Poll::Updated),
        run[j].input() is Some,
        run[k].input() is Some,
        news(run[j].input()->0, run[k].input()->0),
{
    lemma_debounced(run, k);
    lemma_last_reported(run, k);
    assert(debounce_turn(run, k));
    let r = last_reported(run, k);
    if r < j {
        assert(!(run[j].poll is Updated));
    } else if j < r {
        assert(run[r].poll is Updated);
    }
}

/// A debounce answers as its input does if that has not changed or is not ready, and shows what the input shows.
pub proof fn debounces_follow_their_input<G: Reads<O>, O: Clone + PartialEq>(
    a: Debounce<O>,
    b: Debounce<O>,
    before: &G,
    after: &G,
    poll: Poll,
) -> (upstream: Poll)
    requires
        AnchorInner::<G>::polls(&a, &b, before, after, poll),
    ensures
        b.alias() == Some(a.anchor.token),
        after.calls().len() == before.calls().len() + 1,
        last_asked(after.calls(), a.anchor.token, upstream),
        !(upstream is Updated) ==> poll == upstream,
        upstream is Updated && a.old_v is None && <G as Reads<O>>::reading(after, a.anchor.token) is Some ==> poll is Updated,
        upstream is Updated ==> (poll.ready() <==> <G as Reads<O>>::reading(after, a.anchor.token) is Some),
{
    after.calls().last()->poll
}

proof fn lemma_last_reported<G, O>(run: Seq<DebouncePoll<G, O>>, k: int)
    requires
        0 <= k <= run.len(),
    ensures
        -1 <= last_reported(run, k) < k || k == 0 && last_reported(run, k) == -1,
        last_reported(run, k) >= 0 ==> run[last_reported(run, k)].poll is Updated,
        forall|m: int| last_reported(run, k) < m < k ==> !((#[trigger] run[m]).poll is Updated),
    decreases k,
{
    if k > 0 {
        lemma_last_reported(run, k - 1);
    }
}

} // verus!
