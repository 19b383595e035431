//! What anchors that follow a dictionary or a set do with every entry that differs, and when they say so.

use crate::collections::fold::{faithful, fold_step, followed, ran, steps, Folds, Followed, UnorderedFold, UnorderedFoldWithAnchor};
use crate::collections::ord_map_methods::{
    found_at, fresh_fold, selected, Chosen, ChosenWith, Increment, Kept, KeptWith, Mapped, MappedWith, Reduction, SelectFold, Selects,
    Stepwise, StepwiseWith,
};
use crate::collections::ord_set_methods::sifted_at;
use crate::collections::persistent::{dict_changes, dict_view, set_changes, set_view, Dict, DictChange, SetChange};
use crate::expert::equal::{alike, unlike};
use crate::expert::ext::held_back::last_asked;
use crate::expert::inputs::{found, requested, requests, Found};
use crate::expert::{Anchor, AnchorInner, AnchorOutput, Call, Poll, Reads};
use im_rc::OrdSet;
use vstd::prelude::*;

verus! {

/// `keys` are the keys at which the two dictionaries differ, in ascending order.
pub open spec fn differing(last: Map<usize, usize>, all: Map<usize, usize>, keys: Seq<usize>) -> bool {
    &&& forall|m: int, n: int| 0 <= m < n < keys.len() ==> #[trigger] keys[m] < #[trigger] keys[n]
    &&& forall|key: usize| #[trigger] keys.contains(key) <==> found_at(last, key) != found_at(all, key)
}

/// `keys` are the items that only one of the two sets holds, in ascending order.
pub open spec fn differing_items(last: Set<usize>, all: Set<usize>, keys: Seq<usize>) -> bool {
    &&& forall|m: int, n: int| 0 <= m < n < keys.len() ==> #[trigger] keys[m] < #[trigger] keys[n]
    &&& forall|key: usize| #[trigger] keys.contains(key) <==> last.contains(key) != all.contains(key)
}

/// `outs` are the outputs before, between and after the calls for `keys`, and `dids` says of each call whether it was a change.
pub open spec fn calls_for<T>(keys: Seq<usize>, outs: Seq<T>, dids: Seq<bool>, first: T, last: T) -> bool {
    &&& outs.len() == keys.len() + 1
    &&& dids.len() == keys.len()
    &&& outs[0] == first
    &&& outs.last() == last
}

/// What has become of the entry at `key`.
pub open spec fn dict_change(last: Map<usize, usize>, all: Map<usize, usize>, key: usize) -> DictChange {
    if !last.contains_key(key) {
        DictChange::Add { key, value: all[key] }
    } else if all.contains_key(key) {
        DictChange::Update { key, old: last[key], new: all[key] }
    } else {
        DictChange::Remove { key, value: last[key] }
    }
}

/// What has become of an item.
pub open spec fn set_change(last: Set<usize>, all: Set<usize>, key: usize) -> SetChange {
    if all.contains(key) {
        SetChange::Add { key }
    } else {
        SetChange::Remove { key }
    }
}

/// The keys of some changes.
spec fn dict_keys(changes: Seq<DictChange>) -> Seq<usize> {
    Seq::new(changes.len(), |m: int| changes[m].at())
}

spec fn set_keys(changes: Seq<SetChange>) -> Seq<usize> {
    Seq::new(changes.len(), |m: int| changes[m].at())
}

proof fn lemma_dict_keys(last: Map<usize, usize>, all: Map<usize, usize>, changes: Seq<DictChange>)
    requires
        dict_changes(last, all, changes),
    ensures
        differing(last, all, dict_keys(changes)),
        forall|m: int| 0 <= m < changes.len() ==> (#[trigger] changes[m]) == dict_change(last, all, changes[m].at()),
{
    let keys = dict_keys(changes);
    assert forall|key: usize| #[trigger] keys.contains(key) <==> found_at(last, key) != found_at(all, key) by {
        if keys.contains(key) {
            let m = choose|m: int| 0 <= m < keys.len() && keys[m] == key;
            assert(changes[m].between(last, all));
        }
        if found_at(last, key) != found_at(all, key) {
            assert(last.contains_key(key) || !last.contains_key(key));
            let m = choose|m: int| 0 <= m < changes.len() && (#[trigger] changes[m]).at() == key;
            assert(keys[m] == key);
        }
    }
    assert forall|m: int| 0 <= m < changes.len() implies (#[trigger] changes[m]) == dict_change(last, all, changes[m].at()) by {
        assert(changes[m].between(last, all));
    }
    assert forall|m: int, n: int| 0 <= m < n < keys.len() implies #[trigger] keys[m] < #[trigger] keys[n] by {
        assert(changes[m].at() < changes[n].at());
    }
}

proof fn lemma_set_keys(last: Set<usize>, all: Set<usize>, changes: Seq<SetChange>)
    requires
        set_changes(last, all, changes),
    ensures
        differing_items(last, all, set_keys(changes)),
        forall|m: int| 0 <= m < changes.len() ==> (#[trigger] changes[m]) == set_change(last, all, changes[m].at()),
{
    let keys = set_keys(changes);
    assert forall|key: usize| #[trigger] keys.contains(key) <==> last.contains(key) != all.contains(key) by {
        if keys.contains(key) {
            let m = choose|m: int| 0 <= m < keys.len() && keys[m] == key;
            assert(changes[m].between(last, all));
        }
        if last.contains(key) != all.contains(key) {
            let m = choose|m: int| 0 <= m < changes.len() && (#[trigger] changes[m]).at() == key;
            assert(keys[m] == key);
        }
    }
    assert forall|m: int| 0 <= m < changes.len() implies (#[trigger] changes[m]) == set_change(last, all, changes[m].at()) by {
        assert(changes[m].between(last, all));
    }
    assert forall|m: int, n: int| 0 <= m < n < keys.len() implies #[trigger] keys[m] < #[trigger] keys[n] by {
        assert(changes[m].at() < changes[n].at());
    }
}

/// The steps of a run.
proof fn run_of<C: Followed, A, T, S: Folds<C, A, T>>(s: S, a: A, last: C::Model, all: C::Model, out: T, next: T, did: bool) -> (r: (
    Seq<C::Change>,
    usize,
    Seq<T>,
    Seq<bool>,
))
    requires
        ran::<C, A, T, S>(s, a, last, all, out, next, did),
    ensures
        C::changes(last, all, r.0),
        r.1 == C::size(all),
        steps::<C, A, T, S>(s, a, r.0, r.1, r.2, r.3),
        r.2[0] == out,
        r.2.last() == next,
        did == r.3.contains(true),
{
    choose|changes: Seq<C::Change>, len: usize, outs: Seq<T>, dids: Seq<bool>|
        #![trigger steps::<C, A, T, S>(s, a, changes, len, outs, dids)]
        {
            &&& C::changes(last, all, changes)
            &&& len == C::size(all)
            &&& steps::<C, A, T, S>(s, a, changes, len, outs, dids)
            &&& outs[0] == out
            &&& outs.last() == next
            &&& did == dids.contains(true)
        }
}

/// A poll of a follower: the dictionary that it followed before, or the one that is read now; and the steps from one to the
/// other, none if the input has not changed.
proof fn steps_of<G: Reads<C>, C: Followed, T, S: Folds<C, (), T>>(
    a: UnorderedFold<C, S, T>,
    b: UnorderedFold<C, S, T>,
    before: &G,
    after: &G,
    poll: Poll,
) -> (r: Option<(Seq<C::Change>, usize, Seq<T>, Seq<bool>)>)
    requires
        a.inv(),
        fold_step(a, b, before, after, poll),
    ensures
        b.f == a.f,
        b.input == a.input,
        match r {
            Some(r) => {
                &&& C::changes(a.last_observation.model(), b.last_observation.model(), r.0)
                &&& r.1 == C::size(b.last_observation.model())
                &&& steps::<C, (), T, S>(a.f, (), r.0, r.1, r.2, r.3)
                &&& r.2[0] == a.own()
                &&& r.2.last() == b.own()
                &&& poll.ready()
                &&& (poll is Updated) == r.3.contains(true)
            },
            None => {
                &&& b.last_observation == a.last_observation
                &&& b.output == a.output
                &&& !(poll is Updated)
            },
        },
        a.output_stale && !a.degraded_on_invalid && last_asked(after.calls(), a.input.token, Poll::Updated) && after.reading(
            a.input.token,
        ) is Some ==> b.last_observation.model() == after.reading(a.input.token)->0.model() && r is Some,
{
    if ran::<C, (), T, S>(a.f, (), a.last_observation.model(), b.last_observation.model(), a.own(), b.own(), poll is Updated)
        && poll.ready() {
        Some(
            run_of::<C, (), T, S>(
                a.f,
                (),
                a.last_observation.model(),
                b.last_observation.model(),
                a.own(),
                b.own(),
                poll is Updated,
            ),
        )
    } else {
        None
    }
}

/// The dictionary that a poll of a follower brings it up to date with: the one that is read of the input if the input reports
/// a change, and otherwise the one that the follower was up to date with.
pub proof fn followers_take_up_what_is_read<G: Reads<C>, C: Followed, T, S: Folds<C, (), T>>(
    a: UnorderedFold<C, S, T>,
    b: UnorderedFold<C, S, T>,
    before: &G,
    after: &G,
    poll: Poll,
)
    requires
        a.inv(),
        AnchorInner::<G>::polls(&a, &b, before, after, poll),
        a.output_stale,
        !a.degraded_on_invalid,
    ensures
        after.calls().len() == before.calls().len() + 1,
        b.input == a.input,
        last_asked(after.calls(), a.input.token, Poll::Updated) && after.reading(a.input.token) is Some ==> {
            &&& b.last_observation.model() == after.reading(a.input.token)->0.model()
            &&& poll.ready()
        },
        !last_asked(after.calls(), a.input.token, Poll::Updated) ==> b.last_observation == a.last_observation && b.output == a.output,
{
    let _ = steps_of(a, b, before, after, poll);
}

/// A poll of a follower that goes by the output of another anchor too: it asks for that anchor and then for its input, and is
/// brought up to date with what is read of both if one of them reports a change.
pub proof fn followers_with_an_anchor_take_up_what_is_read<
    G: Reads<C> + Reads<A>,
    C: Followed,
    A: PartialEq + Clone,
    T,
    S: Folds<C, A, T>,
>(
    a: UnorderedFoldWithAnchor<C, A, S, T>,
    b: UnorderedFoldWithAnchor<C, A, S, T>,
    before: &G,
    after: &G,
    poll: Poll,
) -> (r: (Poll, Poll))
    requires
        a.inv(),
        AnchorInner::<G>::polls(&a, &b, before, after, poll),
        a.output_stale,
        !a.degraded_on_invalid,
    ensures
        after.calls() == before.calls().push(Call::Request { token: a.anchor.token, necessary: true, poll: r.0 }).push(
            Call::Request { token: a.input.token, necessary: true, poll: r.1 },
        ),
        r.0.ready() && r.1.ready() && (r.0 is Updated || r.1 is Updated) && <G as Reads<A>>::reading(after, a.anchor.token) is Some
            && <G as Reads<C>>::reading(after, a.input.token) is Some ==> {
            &&& poll.ready()
            &&& b.last_observation.model() == <G as Reads<C>>::reading(after, a.input.token)->0.model()
            &&& b.last_observation_a is Some
            &&& cloned(<G as Reads<A>>::reading(after, a.anchor.token)->0, b.last_observation_a->0)
        },
        r.0.waiting() || r.1.waiting() ==> !(poll is Updated) && b.output == a.output && b.last_observation == a.last_observation,
        r.0 is Unchanged && r.1 is Unchanged ==> poll is Unchanged && b.output == a.output,
{
    let outcome = choose|outcome: Found| #[trigger] requested(before, after, a.tokens(), true, outcome) && if outcome.invalid {
        b.output == a.output && b.last_observation == a.last_observation && poll is Unchanged
    } else if outcome.pending {
        b == a && poll is Pending
    } else if !outcome.updated {
        b == (UnorderedFoldWithAnchor { output_stale: false, ..a }) && poll is Unchanged
    } else if <G as Reads<A>>::reading(after, a.anchor.token) is None || <G as Reads<C>>::reading(after, a.input.token) is None {
        b == a && poll is PendingInvalidToken
    } else {
        &&& poll.ready()
        &&& b.last_observation.model() == <G as Reads<C>>::reading(after, a.input.token)->0.model()
        &&& b.last_observation_a is Some
        &&& cloned(<G as Reads<A>>::reading(after, a.anchor.token)->0, b.last_observation_a->0)
    };
    let polls = choose|polls: Seq<Poll>|
        polls.len() == a.tokens().len() && after.calls() == before.calls() + #[trigger] requests(a.tokens(), true, polls) && outcome
            == found(polls);
    assert(after.calls() =~= before.calls().push(Call::Request { token: a.anchor.token, necessary: true, poll: polls[0] }).push(
        Call::Request { token: a.input.token, necessary: true, poll: polls[1] },
    ));
    (polls[0], polls[1])
}

/// What steps that are no change leave as it is.
proof fn lemma_selection_kept<A, S: Selects<A>>(
    fold: SelectFold<S>,
    a: A,
    changes: Seq<DictChange>,
    len: usize,
    outs: Seq<Dict>,
    dids: Seq<bool>,
    n: int,
)
    requires
        steps::<Dict, A, Dict, SelectFold<S>>(fold, a, changes, len, outs, dids),
        !dids.contains(true),
        0 <= n <= changes.len(),
    ensures
        dict_view(outs[n]) == dict_view(outs[0]),
    decreases n,
{
    if n > 0 {
        lemma_selection_kept(fold, a, changes, len, outs, dids, n - 1);
        assert(Folds::<Dict, A, Dict>::stepped(&fold, a, outs[n - 1], changes[n - 1], len, outs[n - 1 + 1], dids[n - 1]));
        assert(!dids[n - 1]);
        assert(dict_view(outs[n]) =~= dict_view(outs[n - 1]));
    }
}

/// A poll of an anchor that follows a dictionary by a choice of its entries leaves what it shows as it was, unless it answers
/// `Updated`.
pub proof fn selections_announce_their_changes<G: Reads<Dict>, S: Selects<()>>(
    a: UnorderedFold<Dict, SelectFold<S>, Dict>,
    b: UnorderedFold<Dict, SelectFold<S>, Dict>,
    before: &G,
    after: &G,
    poll: Poll,
)
    requires
        a.inv(),
        AnchorInner::<G>::polls(&a, &b, before, after, poll),
        !(poll is Updated),
    ensures
        dict_view(b.own()) == dict_view(a.own()),
{
    match steps_of(a, b, before, after, poll) {
        Some(r) => {
            lemma_selection_kept::<(), S>(a.f, (), r.0, r.1, r.2, r.3, r.0.len() as int);
        },
        None => {},
    }
}

/// The same holds where the choice goes by the output of another anchor too.
pub proof fn selections_with_an_anchor_announce_their_changes<G: Reads<Dict> + Reads<A>, A: PartialEq + Clone, S: Selects<A>>(
    a: UnorderedFoldWithAnchor<Dict, A, SelectFold<S>, Dict>,
    b: UnorderedFoldWithAnchor<Dict, A, SelectFold<S>, Dict>,
    before: &G,
    after: &G,
    poll: Poll,
)
    requires
        a.inv(),
        AnchorInner::<G>::polls(&a, &b, before, after, poll),
        !(poll is Updated),
    ensures
        dict_view(b.own()) == dict_view(a.own()),
{
    let now = UnorderedFoldWithAnchor { output_stale: false, ..a };
    let x = <G as Reads<A>>::reading(after, a.anchor.token)->0;
    let all = <G as Reads<Dict>>::reading(after, a.input.token)->0.model();
    if b.output != a.output {
        assert(followed(now, b, x, all, false));
        if a.last_observation_a is Some && ran::<Dict, A, Dict, SelectFold<S>>(
            a.f,
            x,
            a.last_observation.model(),
            all,
            a.output->0,
            b.output->0,
            false,
        ) {
            let r = run_of::<Dict, A, Dict, SelectFold<S>>(
                a.f,
                x,
                a.last_observation.model(),
                all,
                a.output->0,
                b.output->0,
                false,
            );
            lemma_selection_kept::<A, S>(a.f, x, r.0, r.1, r.2, r.3, r.0.len() as int);
        } else {
            let (from, stepped) = choose|from: Dict, stepped: bool|
                #![trigger ran::<Dict, A, Dict, SelectFold<S>>(a.f, x, <Dict as Followed>::none(), all, from, b.output->0, stepped)]
                {
                    &&& Folds::<Dict, A, Dict>::begins(&a.f, from)
                    &&& ran::<Dict, A, Dict, SelectFold<S>>(a.f, x, <Dict as Followed>::none(), all, from, b.output->0, stepped)
                    &&& false == (stepped || a.last_observation_a is Some)
                };
            let r = run_of::<Dict, A, Dict, SelectFold<S>>(a.f, x, <Dict as Followed>::none(), all, from, b.output->0, stepped);
            lemma_selection_kept::<A, S>(a.f, x, r.0, r.1, r.2, r.3, r.0.len() as int);
        }
    }
}

proof fn lemma_sifting_kept<F: FnMut(&usize) -> bool>(
    fold: Kept<F>,
    changes: Seq<SetChange>,
    len: usize,
    outs: Seq<OrdSet<usize>>,
    dids: Seq<bool>,
    n: int,
)
    requires
        steps::<OrdSet<usize>, (), OrdSet<usize>, Kept<F>>(fold, (), changes, len, outs, dids),
        !dids.contains(true),
        0 <= n <= changes.len(),
    ensures
        set_view(outs[n]) == set_view(outs[0]),
    decreases n,
{
    if n > 0 {
        lemma_sifting_kept(fold, changes, len, outs, dids, n - 1);
        assert(Folds::<OrdSet<usize>, (), OrdSet<usize>>::stepped(
            &fold,
            (),
            outs[n - 1],
            changes[n - 1],
            len,
            outs[n - 1 + 1],
            dids[n - 1],
        ));
        assert(!dids[n - 1]);
        assert(set_view(outs[n]) =~= set_view(outs[n - 1]));
    }
}

/// A poll of an anchor that follows a set by the items that its function says yes to leaves what it shows as it was, unless it
/// answers `Updated`.
pub proof fn sifted_sets_announce_their_changes<G: Reads<OrdSet<usize>>, F: FnMut(&usize) -> bool>(
    a: UnorderedFold<OrdSet<usize>, Kept<F>, OrdSet<usize>>,
    b: UnorderedFold<OrdSet<usize>, Kept<F>, OrdSet<usize>>,
    before: &G,
    after: &G,
    poll: Poll,
)
    requires
        a.inv(),
        AnchorInner::<G>::polls(&a, &b, before, after, poll),
        !(poll is Updated),
    ensures
        set_view(b.own()) == set_view(a.own()),
{
    match steps_of(a, b, before, after, poll) {
        Some(r) => {
            lemma_sifting_kept::<F>(a.f, r.0, r.1, r.2, r.3, r.0.len() as int);
        },
        None => {},
    }
}

/// A poll of a reduction of a dictionary calls one function for every key at which the dictionary differs from the one that was
/// followed before, by ascending keys: each on what the call before it made, that key, and what the two dictionaries have
/// there. The poll answers `Updated` if and only if one of the functions says that it has changed something.
pub proof fn reductions_are_given_every_difference<
    G: Reads<Dict>,
    T: Clone,
    F: FnMut(T, &usize, &usize) -> (T, bool),
    Fu: FnMut(T, (&usize, &usize), &usize, &usize) -> (T, bool),
    Fr: FnMut(T, &usize, &usize) -> (T, bool),
>(
    a: UnorderedFold<Dict, Reduction<F, Fu, Fr, T>, T>,
    b: UnorderedFold<Dict, Reduction<F, Fu, Fr, T>, T>,
    before: &G,
    after: &G,
    poll: Poll,
) -> (r: (Seq<usize>, Seq<T>, Seq<bool>))
    requires
        a.inv(),
        AnchorInner::<G>::polls(&a, &b, before, after, poll),
    ensures
        differing(dict_view(a.last_observation), dict_view(b.last_observation), r.0),
        calls_for(r.0, r.1, r.2, a.own(), b.own()),
        poll is Updated <==> r.2.contains(true),
        forall|m: int|
            0 <= m < r.0.len() ==> {
                let key = #[trigger] r.0[m];
                match (found_at(dict_view(a.last_observation), key), found_at(dict_view(b.last_observation), key)) {
                    (None, Some(value)) => call_ensures(a.f.add, (r.1[m], &key, &value), (r.1[m + 1], r.2[m])),
                    (Some(old), Some(new)) => call_ensures(a.f.update, (r.1[m], (&key, &old), &key, &new), (r.1[m + 1], r.2[m])),
                    (Some(value), None) => call_ensures(a.f.remove, (r.1[m], &key, &value), (r.1[m + 1], r.2[m])),
                    (None, None) => false,
                }
            },
{
    let last = dict_view(a.last_observation);
    let all = dict_view(b.last_observation);
    match steps_of(a, b, before, after, poll) {
        Some(r) => {
            lemma_dict_keys(last, all, r.0);
            let keys = dict_keys(r.0);
            assert forall|m: int| 0 <= m < keys.len() implies {
                let key = #[trigger] keys[m];
                match (found_at(last, key), found_at(all, key)) {
                    (None, Some(value)) => call_ensures(a.f.add, (r.2[m], &key, &value), (r.2[m + 1], r.3[m])),
                    (Some(old), Some(new)) => call_ensures(a.f.update, (r.2[m], (&key, &old), &key, &new), (r.2[m + 1], r.3[m])),
                    (Some(value), None) => call_ensures(a.f.remove, (r.2[m], &key, &value), (r.2[m + 1], r.3[m])),
                    (None, None) => false,
                }
            } by {
                assert(Folds::<Dict, (), T>::stepped(&a.f, (), r.2[m], r.0[m], r.1, r.2[m + 1], r.3[m]));
                assert(r.0[m].between(last, all));
            }
            (keys, r.2, r.3)
        },
        None => {
            let keys = Seq::<usize>::empty();
            assert(differing(last, all, keys));
            (keys, seq![a.own()], Seq::<bool>::empty())
        },
    }
}

/// The first dictionary that a reduction reads makes it call `add` just once for every key, in ascending order and with the value
/// that the dictionary has there, beginning with a clone of the initial state.
pub proof fn reductions_add_every_entry<
    G: Reads<Dict>,
    T: Clone,
    F: FnMut(T, &usize, &usize) -> (T, bool),
    Fu: FnMut(T, (&usize, &usize), &usize, &usize) -> (T, bool),
    Fr: FnMut(T, &usize, &usize) -> (T, bool),
>(
    input: Anchor<Dict>,
    f: Reduction<F, Fu, Fr, T>,
    a: UnorderedFold<Dict, Reduction<F, Fu, Fr, T>, T>,
    b: UnorderedFold<Dict, Reduction<F, Fu, Fr, T>, T>,
    before: &G,
    after: &G,
    poll: Poll,
) -> (r: (Seq<usize>, Seq<T>, Seq<bool>))
    requires
        fresh_fold(a, input, f),
        AnchorInner::<G>::polls(&a, &b, before, after, poll),
        last_asked(after.calls(), input.token, Poll::Updated),
        after.reading(input.token) is Some,
    ensures
        forall|m: int, n: int| 0 <= m < n < r.0.len() ==> #[trigger] r.0[m] < #[trigger] r.0[n],
        forall|key: usize| #[trigger] r.0.contains(key) <==> dict_view(after.reading(input.token)->0).contains_key(key),
        r.1.len() == r.0.len() + 1,
        cloned(f.initial, r.1[0]),
        r.1.last() == b.own(),
        forall|m: int|
            0 <= m < r.0.len() ==> {
                let key = #[trigger] r.0[m];
                call_ensures(f.add, (r.1[m], &key, &dict_view(after.reading(input.token)->0)[key]), (r.1[m + 1], r.2[m]))
            },
        poll is Updated <==> r.2.contains(true),
{
    let r = reductions_are_given_every_difference(a, b, before, after, poll);
    followers_take_up_what_is_read(a, b, before, after, poll);
    let all = dict_view(after.reading(input.token)->0);
    assert forall|m: int| 0 <= m < r.0.len() implies {
        let key = #[trigger] r.0[m];
        call_ensures(f.add, (r.1[m], &key, &all[key]), (r.1[m + 1], r.2[m]))
    } by {
        assert(r.0.contains(r.0[m]));
    }
    r
}

/// `last`, with what `all` has at the first `n` of `keys`.
spec fn part_way(last: Map<usize, usize>, all: Map<usize, usize>, keys: Seq<usize>, n: int) -> Map<usize, usize> {
    Map::new(
        |key: usize|
            if keys.take(n).contains(key) {
                all.contains_key(key)
            } else {
                last.contains_key(key)
            },
        |key: usize|
            if keys.take(n).contains(key) {
                all[key]
            } else {
                last[key]
            },
    )
}

proof fn lemma_part_way(last: Map<usize, usize>, all: Map<usize, usize>, keys: Seq<usize>, n: int)
    requires
        differing(last, all, keys),
        0 <= n <= keys.len(),
    ensures
        n == 0 ==> part_way(last, all, keys, n) == last,
        n == keys.len() ==> part_way(last, all, keys, n) == all,
        n < keys.len() ==> found_at(part_way(last, all, keys, n), keys[n]) == found_at(last, keys[n]),
        n < keys.len() ==> part_way(last, all, keys, n + 1) == (match found_at(all, keys[n]) {
            Some(value) => part_way(last, all, keys, n).insert(keys[n], value),
            None => part_way(last, all, keys, n).remove(keys[n]),
        }),
{
    let now = part_way(last, all, keys, n);
    if n == 0 {
        assert(keys.take(0) =~= Seq::<usize>::empty());
        assert(now =~= last);
    }
    if n == keys.len() {
        assert(keys.take(n) =~= keys);
        assert forall|key: usize| #[trigger] now.contains_key(key) == all.contains_key(key) && (all.contains_key(key) ==> now[key] == all[key]) by {
            assert(keys.contains(key) || !keys.contains(key));
        }
        assert(now =~= all);
    }
    if n < keys.len() {
        let key = keys[n];
        let next = part_way(last, all, keys, n + 1);
        assert(!keys.take(n).contains(key)) by {
            if keys.take(n).contains(key) {
                let m = choose|m: int| 0 <= m < n && keys.take(n)[m] == key;
                assert(keys[m] < keys[n]);
            }
        }
        assert forall|k: usize| #[trigger] keys.take(n + 1).contains(k) <==> keys.take(n).contains(k) || k == key by {
            if keys.take(n).contains(k) {
                let m = choose|m: int| 0 <= m < n && keys.take(n)[m] == k;
                assert(keys.take(n + 1)[m] == k);
            }
            if keys.take(n + 1).contains(k) {
                let more = keys.take(n + 1);
                let m = choose|m: int| 0 <= m < more.len() && more[m] == k;
                if m < n {
                    assert(keys.take(n)[m] == k);
                }
            }
            assert(keys.take(n + 1)[n] == key);
        }
        match found_at(all, key) {
            Some(value) => {
                assert(next =~= now.insert(key, value));
            },
            None => {
                assert(next =~= now.remove(key));
            },
        }
    }
}

/// `add`, `update` and `remove` make outputs that belong to a dictionary with an entry more, another value or an entry less of
/// those that belong to the dictionary.
pub open spec fn functions_keep<
    T: Clone,
    F: FnMut(T, &usize, &usize) -> (T, bool),
    Fu: FnMut(T, (&usize, &usize), &usize, &usize) -> (T, bool),
    Fr: FnMut(T, &usize, &usize) -> (T, bool),
>(f: Reduction<F, Fu, Fr, T>, belongs: spec_fn(Map<usize, usize>, T) -> bool) -> bool {
    &&& forall|dict: Map<usize, usize>, out: T, key: usize, value: usize, next: T, did: bool|
        #![trigger belongs(dict, out), call_ensures(f.add, (out, &key, &value), (next, did))]
        belongs(dict, out) && !dict.contains_key(key) && call_ensures(f.add, (out, &key, &value), (next, did)) ==> belongs(
            dict.insert(key, value),
            next,
        )
    &&& forall|dict: Map<usize, usize>, out: T, key: usize, old: usize, new: usize, next: T, did: bool|
        #![trigger belongs(dict, out), call_ensures(f.update, (out, (&key, &old), &key, &new), (next, did))]
        belongs(dict, out) && found_at(dict, key) == Some(old) && call_ensures(f.update, (out, (&key, &old), &key, &new), (next, did))
            ==> belongs(dict.insert(key, new), next)
    &&& forall|dict: Map<usize, usize>, out: T, key: usize, value: usize, next: T, did: bool|
        #![trigger belongs(dict, out), call_ensures(f.remove, (out, &key, &value), (next, did))]
        belongs(dict, out) && found_at(dict, key) == Some(value) && call_ensures(f.remove, (out, &key, &value), (next, did))
            ==> belongs(dict.remove(key), next)
}

/// If the functions of a reduction keep it so that an output belongs to a dictionary, then the output of the reduction belongs to
/// the dictionary that it has read, whatever it had read before.
pub proof fn reductions_keep_what_their_functions_keep<
    G: Reads<Dict>,
    T: Clone,
    F: FnMut(T, &usize, &usize) -> (T, bool),
    Fu: FnMut(T, (&usize, &usize), &usize, &usize) -> (T, bool),
    Fr: FnMut(T, &usize, &usize) -> (T, bool),
>(
    a: UnorderedFold<Dict, Reduction<F, Fu, Fr, T>, T>,
    b: UnorderedFold<Dict, Reduction<F, Fu, Fr, T>, T>,
    before: &G,
    after: &G,
    poll: Poll,
    belongs: spec_fn(Map<usize, usize>, T) -> bool,
)
    requires
        a.inv(),
        AnchorInner::<G>::polls(&a, &b, before, after, poll),
        functions_keep(a.f, belongs),
        belongs(dict_view(a.last_observation), a.own()),
    ensures
        belongs(dict_view(b.last_observation), b.own()),
{
    let last = dict_view(a.last_observation);
    let all = dict_view(b.last_observation);
    match steps_of(a, b, before, after, poll) {
        Some(r) => {
            lemma_dict_keys(last, all, r.0);
            lemma_belongs(a.f, last, all, r.0, r.1, r.2, r.3, belongs, r.0.len() as int);
            lemma_part_way(last, all, dict_keys(r.0), r.0.len() as int);
        },
        None => {},
    }
}

proof fn lemma_belongs<
    T: Clone,
    F: FnMut(T, &usize, &usize) -> (T, bool),
    Fu: FnMut(T, (&usize, &usize), &usize, &usize) -> (T, bool),
    Fr: FnMut(T, &usize, &usize) -> (T, bool),
>(
    f: Reduction<F, Fu, Fr, T>,
    last: Map<usize, usize>,
    all: Map<usize, usize>,
    changes: Seq<DictChange>,
    len: usize,
    outs: Seq<T>,
    dids: Seq<bool>,
    belongs: spec_fn(Map<usize, usize>, T) -> bool,
    n: int,
)
    requires
        functions_keep(f, belongs),
        dict_changes(last, all, changes),
        differing(last, all, dict_keys(changes)),
        steps::<Dict, (), T, Reduction<F, Fu, Fr, T>>(f, (), changes, len, outs, dids),
        belongs(last, outs[0]),
        0 <= n <= changes.len(),
    ensures
        belongs(part_way(last, all, dict_keys(changes), n), outs[n]),
    decreases n,
{
    let keys = dict_keys(changes);
    lemma_part_way(last, all, keys, n);
    if n > 0 {
        lemma_belongs(f, last, all, changes, len, outs, dids, belongs, n - 1);
        lemma_part_way(last, all, keys, n - 1);
        assert(Folds::<Dict, (), T>::stepped(&f, (), outs[n - 1], changes[n - 1], len, outs[n - 1 + 1], dids[n - 1]));
        assert(changes[n - 1].between(last, all));
        assert(keys[n - 1] == changes[n - 1].at());
    }
}

/// A poll of an incremental reduction of a dictionary calls its function for every key at which the dictionary has an entry that is
/// new or has changed, by ascending keys: each time on what the call before made, that key, and the value that is there now. What
/// is removed leaves the output as it is. The poll answers `Updated` if and only if there was such a key.
pub proof fn increments_are_given_every_new_value<
    G: Reads<Dict>,
    T: Clone,
    F: FnMut(T, &usize, &usize) -> T,
>(
    a: UnorderedFold<Dict, Increment<F, T>, T>,
    b: UnorderedFold<Dict, Increment<F, T>, T>,
    before: &G,
    after: &G,
    poll: Poll,
) -> (r: (Seq<usize>, Seq<T>, Seq<bool>))
    requires
        a.inv(),
        AnchorInner::<G>::polls(&a, &b, before, after, poll),
    ensures
        differing(dict_view(a.last_observation), dict_view(b.last_observation), r.0),
        calls_for(r.0, r.1, r.2, a.own(), b.own()),
        poll is Updated <==> r.2.contains(true),
        forall|m: int|
            0 <= m < r.0.len() ==> {
                let key = #[trigger] r.0[m];
                match found_at(dict_view(b.last_observation), key) {
                    Some(value) => r.2[m] && call_ensures(a.f.f, (r.1[m], &key, &value), r.1[m + 1]),
                    None => !r.2[m] && r.1[m + 1] == r.1[m],
                }
            },
{
    let last = dict_view(a.last_observation);
    let all = dict_view(b.last_observation);
    match steps_of(a, b, before, after, poll) {
        Some(r) => {
            lemma_dict_keys(last, all, r.0);
            let keys = dict_keys(r.0);
            assert forall|m: int| 0 <= m < keys.len() implies {
                let key = #[trigger] keys[m];
                match found_at(all, key) {
                    Some(value) => r.3[m] && call_ensures(a.f.f, (r.2[m], &key, &value), r.2[m + 1]),
                    None => !r.3[m] && r.2[m + 1] == r.2[m],
                }
            } by {
                assert(Folds::<Dict, (), T>::stepped(&a.f, (), r.2[m], r.0[m], r.1, r.2[m + 1], r.3[m]));
                assert(r.0[m].between(last, all));
            }
            assert(r.1 == 0 ==> all.dom() =~= Set::<usize>::empty());
            (keys, r.2, r.3)
        },
        None => {
            let keys = Seq::<usize>::empty();
            assert(differing(last, all, keys));
            (keys, seq![a.own()], Seq::<bool>::empty())
        },
    }
}

/// A poll of an incremental reduction of a set calls its function for every new item, in ascending order, each time on what the call
/// before made. What is removed leaves the output as it is. The poll answers `Updated` if and only if there was a new item.
pub proof fn increments_are_given_every_new_item<
    G: Reads<OrdSet<usize>>,
    T: Clone,
    F: FnMut(T, &usize) -> T,
>(
    a: UnorderedFold<OrdSet<usize>, Increment<F, T>, T>,
    b: UnorderedFold<OrdSet<usize>, Increment<F, T>, T>,
    before: &G,
    after: &G,
    poll: Poll,
) -> (r: (Seq<usize>, Seq<T>, Seq<bool>))
    requires
        a.inv(),
        AnchorInner::<G>::polls(&a, &b, before, after, poll),
    ensures
        differing_items(set_view(a.last_observation), set_view(b.last_observation), r.0),
        calls_for(r.0, r.1, r.2, a.own(), b.own()),
        poll is Updated <==> r.2.contains(true),
        forall|m: int|
            0 <= m < r.0.len() ==> {
                let key = #[trigger] r.0[m];
                if set_view(b.last_observation).contains(key) {
                    r.2[m] && call_ensures(a.f.f, (r.1[m], &key), r.1[m + 1])
                } else {
                    !r.2[m] && r.1[m + 1] == r.1[m]
                }
            },
{
    let last = set_view(a.last_observation);
    let all = set_view(b.last_observation);
    match steps_of(a, b, before, after, poll) {
        Some(r) => {
            lemma_set_keys(last, all, r.0);
            let keys = set_keys(r.0);
            assert forall|m: int| 0 <= m < keys.len() implies {
                let key = #[trigger] keys[m];
                if all.contains(key) {
                    r.3[m] && call_ensures(a.f.f, (r.2[m], &key), r.2[m + 1])
                } else {
                    !r.3[m] && r.2[m + 1] == r.2[m]
                }
            } by {
                assert(Folds::<OrdSet<usize>, (), T>::stepped(&a.f, (), r.2[m], r.0[m], r.1, r.2[m + 1], r.3[m]));
                assert(r.0[m].between(last, all));
            }
            assert(r.1 == 0 ==> all =~= Set::<usize>::empty());
            (keys, r.2, r.3)
        },
        None => {
            let keys = Seq::<usize>::empty();
            assert(differing_items(last, all, keys));
            (keys, seq![a.own()], Seq::<bool>::empty())
        },
    }
}

/// A poll of a reduction of a set calls `add` for every item that is new and `remove` for every item that is gone, in ascending
/// order, each time on what the call before made. It answers `Updated` if and only if one of them says that it has changed
/// something.
pub proof fn reductions_are_given_every_item<
    G: Reads<OrdSet<usize>>,
    T: Clone,
    F: FnMut(T, &usize) -> (T, bool),
    Fu: FnMut(T, &usize, &usize) -> (T, bool),
    Fr: FnMut(T, &usize) -> (T, bool),
>(
    a: UnorderedFold<OrdSet<usize>, Reduction<F, Fu, Fr, T>, T>,
    b: UnorderedFold<OrdSet<usize>, Reduction<F, Fu, Fr, T>, T>,
    before: &G,
    after: &G,
    poll: Poll,
) -> (r: (Seq<usize>, Seq<T>, Seq<bool>))
    requires
        a.inv(),
        AnchorInner::<G>::polls(&a, &b, before, after, poll),
    ensures
        differing_items(set_view(a.last_observation), set_view(b.last_observation), r.0),
        calls_for(r.0, r.1, r.2, a.own(), b.own()),
        poll is Updated <==> r.2.contains(true),
        forall|m: int|
            0 <= m < r.0.len() ==> {
                let key = #[trigger] r.0[m];
                if set_view(b.last_observation).contains(key) {
                    call_ensures(a.f.add, (r.1[m], &key), (r.1[m + 1], r.2[m]))
                } else {
                    call_ensures(a.f.remove, (r.1[m], &key), (r.1[m + 1], r.2[m]))
                }
            },
{
    let last = set_view(a.last_observation);
    let all = set_view(b.last_observation);
    match steps_of(a, b, before, after, poll) {
        Some(r) => {
            lemma_set_keys(last, all, r.0);
            let keys = set_keys(r.0);
            assert forall|m: int| 0 <= m < keys.len() implies {
                let key = #[trigger] keys[m];
                if all.contains(key) {
                    call_ensures(a.f.add, (r.2[m], &key), (r.2[m + 1], r.3[m]))
                } else {
                    call_ensures(a.f.remove, (r.2[m], &key), (r.2[m + 1], r.3[m]))
                }
            } by {
                assert(Folds::<OrdSet<usize>, (), T>::stepped(&a.f, (), r.2[m], r.0[m], r.1, r.2[m + 1], r.3[m]));
                assert(r.0[m].between(last, all));
            }
            (keys, r.2, r.3)
        },
        None => {
            let keys = Seq::<usize>::empty();
            assert(differing_items(last, all, keys));
            (keys, seq![a.own()], Seq::<bool>::empty())
        },
    }
}

/// A poll of a stepwise fold of a dictionary calls its function for every key at which the dictionary differs from the one that was
/// followed before, by ascending keys: each time on what the call before made, what has become of the entry, and the number
/// of entries that there are now. It answers `Updated` if and only if one of the calls says that it has changed something.
pub proof fn stepwise_folds_are_given_every_difference<
    G: Reads<Dict>,
    T: Clone,
    F: FnMut(T, DictChange, usize) -> (T, bool),
>(
    a: UnorderedFold<Dict, Stepwise<F, T>, T>,
    b: UnorderedFold<Dict, Stepwise<F, T>, T>,
    before: &G,
    after: &G,
    poll: Poll,
) -> (r: (Seq<usize>, Seq<T>, Seq<bool>))
    requires
        a.inv(),
        AnchorInner::<G>::polls(&a, &b, before, after, poll),
    ensures
        differing(dict_view(a.last_observation), dict_view(b.last_observation), r.0),
        calls_for(r.0, r.1, r.2, a.own(), b.own()),
        r.0.len() > 0 ==> dict_view(b.last_observation).dom().len() <= usize::MAX,
        poll is Updated <==> r.2.contains(true),
        forall|m: int|
            0 <= m < r.0.len() ==> {
                let key = #[trigger] r.0[m];
                call_ensures(
                    a.f.f,
                    (r.1[m], dict_change(dict_view(a.last_observation), dict_view(b.last_observation), key), dict_view(b.last_observation).dom().len() as usize),
                    (r.1[m + 1], r.2[m]),
                )
            },
{
    let last = dict_view(a.last_observation);
    let all = dict_view(b.last_observation);
    match steps_of(a, b, before, after, poll) {
        Some(r) => {
            lemma_dict_keys(last, all, r.0);
            let keys = dict_keys(r.0);
            assert forall|m: int| 0 <= m < keys.len() implies {
                let key = #[trigger] keys[m];
                call_ensures(
                    a.f.f,
                    (r.2[m], dict_change(last, all, key), all.dom().len() as usize),
                    (r.2[m + 1], r.3[m]),
                )
            } by {
                assert(Folds::<Dict, (), T>::stepped(&a.f, (), r.2[m], r.0[m], r.1, r.2[m + 1], r.3[m]));
                assert(r.0[m].between(last, all));
            }
            (keys, r.2, r.3)
        },
        None => {
            let keys = Seq::<usize>::empty();
            assert(differing(last, all, keys));
            (keys, seq![a.own()], Seq::<bool>::empty())
        },
    }
}

/// A poll of a stepwise fold of a set calls its function for every item that is new or gone, in ascending order: each time on what
/// the call before made, what has become of the item, and the number of items that there are now.
pub proof fn stepwise_folds_are_given_every_item<
    G: Reads<OrdSet<usize>>,
    T: Clone,
    F: FnMut(T, SetChange, usize) -> (T, bool),
>(
    a: UnorderedFold<OrdSet<usize>, Stepwise<F, T>, T>,
    b: UnorderedFold<OrdSet<usize>, Stepwise<F, T>, T>,
    before: &G,
    after: &G,
    poll: Poll,
) -> (r: (Seq<usize>, Seq<T>, Seq<bool>))
    requires
        a.inv(),
        AnchorInner::<G>::polls(&a, &b, before, after, poll),
    ensures
        differing_items(set_view(a.last_observation), set_view(b.last_observation), r.0),
        calls_for(r.0, r.1, r.2, a.own(), b.own()),
        r.0.len() > 0 ==> set_view(b.last_observation).len() <= usize::MAX,
        poll is Updated <==> r.2.contains(true),
        forall|m: int|
            0 <= m < r.0.len() ==> {
                let key = #[trigger] r.0[m];
                call_ensures(
                    a.f.f,
                    (r.1[m], set_change(set_view(a.last_observation), set_view(b.last_observation), key), set_view(b.last_observation).len() as usize),
                    (r.1[m + 1], r.2[m]),
                )
            },
{
    let last = set_view(a.last_observation);
    let all = set_view(b.last_observation);
    match steps_of(a, b, before, after, poll) {
        Some(r) => {
            lemma_set_keys(last, all, r.0);
            let keys = set_keys(r.0);
            assert forall|m: int| 0 <= m < keys.len() implies {
                let key = #[trigger] keys[m];
                call_ensures(
                    a.f.f,
                    (r.2[m], set_change(last, all, key), all.len() as usize),
                    (r.2[m + 1], r.3[m]),
                )
            } by {
                assert(Folds::<OrdSet<usize>, (), T>::stepped(&a.f, (), r.2[m], r.0[m], r.1, r.2[m + 1], r.3[m]));
                assert(r.0[m].between(last, all));
            }
            (keys, r.2, r.3)
        },
        None => {
            let keys = Seq::<usize>::empty();
            assert(differing_items(last, all, keys));
            (keys, seq![a.own()], Seq::<bool>::empty())
        },
    }
}

/// A filter shows an entry of the dictionary that it is up to date with, under its key and with its value, if and only if its
/// function says yes to the entry; and nothing else.
pub proof fn filters_show_what_passes<F: FnMut(&usize, &usize) -> bool>(fold: UnorderedFold<Dict, SelectFold<Kept<F>>, Dict>, key: usize)
    requires
        fold.inv(),
    ensures
        ({
            let all = dict_view(fold.last_observation);
            let shown = dict_view(fold.own());
            if all.contains_key(key) {
                &&& call_ensures(fold.f.select.f, (&key, &all[key]), shown.contains_key(key))
                &&& shown.contains_key(key) ==> shown[key] == all[key]
            } else {
                !shown.contains_key(key)
            }
        }),
{
    assert(selected(fold.f.select, (), dict_view(fold.last_observation), dict_view(fold.own()), key));
}

/// A filter that goes by the output of another anchor too shows an entry if and only if its function says yes to it.
pub proof fn filters_with_an_anchor_show_what_passes<A: PartialEq + Clone, F: FnMut(&A, &usize, &usize) -> bool>(fold: UnorderedFoldWithAnchor<Dict, A, SelectFold<KeptWith<F>>, Dict>, key: usize)
    requires
        fold.inv(),
        fold.last_observation_a is Some,
        faithful::<A>(),
    ensures
        ({
            let all = dict_view(fold.last_observation);
            let shown = dict_view(fold.own());
            let x = fold.last_observation_a->0;
            if all.contains_key(key) {
                &&& call_ensures(fold.f.select.f, (&x, &key, &all[key]), shown.contains_key(key))
                &&& shown.contains_key(key) ==> shown[key] == all[key]
            } else {
                !shown.contains_key(key)
            }
        }),
{
    assert(selected(fold.f.select, fold.last_observation_a->0, dict_view(fold.last_observation), dict_view(fold.own()), key));
}

/// A map of a dictionary shows every key of the dictionary that it is up to date with, with the value that its function makes of
/// the entry; and nothing else.
pub proof fn dict_maps_show_every_entry<F: FnMut(&usize, &usize) -> usize>(fold: UnorderedFold<Dict, SelectFold<Mapped<F>>, Dict>, key: usize)
    requires
        fold.inv(),
    ensures
        ({
            let all = dict_view(fold.last_observation);
            let shown = dict_view(fold.own());
            if all.contains_key(key) {
                &&& shown.contains_key(key)
                &&& call_ensures(fold.f.select.f, (&key, &all[key]), shown[key])
            } else {
                !shown.contains_key(key)
            }
        }),
{
    assert(selected(fold.f.select, (), dict_view(fold.last_observation), dict_view(fold.own()), key));
}

/// A map that goes by the output of another anchor too shows every key, with the value that its function makes of the entry.
pub proof fn dict_maps_with_an_anchor_show_every_entry<A: PartialEq + Clone, F: FnMut(&A, &usize, &usize) -> usize>(fold: UnorderedFoldWithAnchor<Dict, A, SelectFold<MappedWith<F>>, Dict>, key: usize)
    requires
        fold.inv(),
        fold.last_observation_a is Some,
        faithful::<A>(),
    ensures
        ({
            let all = dict_view(fold.last_observation);
            let shown = dict_view(fold.own());
            let x = fold.last_observation_a->0;
            if all.contains_key(key) {
                &&& shown.contains_key(key)
                &&& call_ensures(fold.f.select.f, (&x, &key, &all[key]), shown[key])
            } else {
                !shown.contains_key(key)
            }
        }),
{
    assert(selected(fold.f.select, fold.last_observation_a->0, dict_view(fold.last_observation), dict_view(fold.own()), key));
}

/// A filter that makes values shows an entry if and only if its function makes a value of it, and with that value.
pub proof fn filter_maps_show_what_is_made<F: FnMut(&usize, &usize) -> Option<usize>>(fold: UnorderedFold<Dict, SelectFold<Chosen<F>>, Dict>, key: usize)
    requires
        fold.inv(),
    ensures
        ({
            let all = dict_view(fold.last_observation);
            let shown = dict_view(fold.own());
            if all.contains_key(key) {
                call_ensures(fold.f.select.f, (&key, &all[key]), found_at(shown, key))
            } else {
                !shown.contains_key(key)
            }
        }),
{
    assert(selected(fold.f.select, (), dict_view(fold.last_observation), dict_view(fold.own()), key));
}

/// A filter that makes values and goes by the output of another anchor too shows just what its function makes.
pub proof fn filter_maps_with_an_anchor_show_what_is_made<A: PartialEq + Clone, F: FnMut(&A, &usize, &usize) -> Option<usize>>(fold: UnorderedFoldWithAnchor<Dict, A, SelectFold<ChosenWith<F>>, Dict>, key: usize)
    requires
        fold.inv(),
        fold.last_observation_a is Some,
        faithful::<A>(),
    ensures
        ({
            let all = dict_view(fold.last_observation);
            let shown = dict_view(fold.own());
            let x = fold.last_observation_a->0;
            if all.contains_key(key) {
                call_ensures(fold.f.select.f, (&x, &key, &all[key]), found_at(shown, key))
            } else {
                !shown.contains_key(key)
            }
        }),
{
    assert(selected(fold.f.select, fold.last_observation_a->0, dict_view(fold.last_observation), dict_view(fold.own()), key));
}

/// A filter of a set shows an item of the set that it is up to date with if and only if its function says yes to it; and nothing
/// else.
pub proof fn sifted_sets_show_what_passes<F: FnMut(&usize) -> bool>(fold: UnorderedFold<OrdSet<usize>, Kept<F>, OrdSet<usize>>, key: usize)
    requires
        fold.inv(),
    ensures
        ({
            let all = set_view(fold.last_observation);
            let shown = set_view(fold.own());
            if all.contains(key) {
                call_ensures(fold.f.f, (&key,), shown.contains(key))
            } else {
                !shown.contains(key)
            }
        }),
{
    assert(sifted_at(fold.f.f, set_view(fold.last_observation), set_view(fold.own()), key));
}

/// A poll of a stepwise fold that goes by the output of another anchor too, if it has something to do: it goes on from what it had
/// if `==` finds no difference between what that anchor showed and what it shows now, and otherwise begins again with a clone of
/// the initial state and an empty dictionary. Its function is called for every key at which the dictionary that is read differs
/// from there, by ascending keys. The poll answers `Updated` if and only if a call says that it has changed something, or an
/// output that was there before has been begun again.
pub proof fn stepwise_folds_with_an_anchor_are_given_every_difference<
    G: Reads<Dict> + Reads<A>,
    A: PartialEq + Clone,
    T: Clone,
    F: FnMut(&A, T, DictChange, usize) -> (T, bool),
>(
    a: UnorderedFoldWithAnchor<Dict, A, StepwiseWith<F, T>, T>,
    b: UnorderedFoldWithAnchor<Dict, A, StepwiseWith<F, T>, T>,
    before: &G,
    after: &G,
    poll: Poll,
) -> (r: (bool, Seq<usize>, Seq<T>, Seq<bool>))
    requires
        a.inv(),
        AnchorInner::<G>::polls(&a, &b, before, after, poll),
        b.last_observation_a != a.last_observation_a || b.last_observation != a.last_observation || b.output != a.output,
    ensures
        <G as Reads<A>>::reading(after, a.anchor.token) is Some,
        <G as Reads<Dict>>::reading(after, a.input.token) is Some,
        ({
            let x = <G as Reads<A>>::reading(after, a.anchor.token)->0;
            let all = dict_view(<G as Reads<Dict>>::reading(after, a.input.token)->0);
            let (again, keys, outs, dids) = r;
            let from = if again {
                Map::<usize, usize>::empty()
            } else {
                dict_view(a.last_observation)
            };
            &&& dict_view(b.last_observation) == all
            &&& b.last_observation_a is Some && cloned(x, b.last_observation_a->0)
            &&& !again ==> a.last_observation_a is Some && alike(a.last_observation_a->0, x) && outs[0] == a.own()
            &&& again ==> (a.last_observation_a is Some ==> unlike(a.last_observation_a->0, x)) && cloned(a.f.initial, outs[0])
            &&& differing(from, all, keys)
            &&& calls_for(keys, outs, dids, outs[0], b.own())
            &&& all.dom().len() <= usize::MAX
            &&& forall|m: int|
                0 <= m < keys.len() ==> {
                    let key = #[trigger] keys[m];
                    call_ensures(
                        a.f.f,
                        (&x, outs[m], dict_change(from, all, key), all.dom().len() as usize),
                        (outs[m + 1], dids[m]),
                    )
                }
            &&& poll is Updated <==> dids.contains(true) || (again && a.last_observation_a is Some)
        }),
{
    let now = UnorderedFoldWithAnchor { output_stale: false, ..a };
    let x = <G as Reads<A>>::reading(after, a.anchor.token)->0;
    let all = <G as Reads<Dict>>::reading(after, a.input.token)->0.model();
    assert(followed(now, b, x, all, poll is Updated));
    if a.last_observation_a is Some && alike(a.last_observation_a->0, x) && ran::<Dict, A, T, StepwiseWith<F, T>>(
        a.f,
        x,
        a.last_observation.model(),
        all,
        a.output->0,
        b.output->0,
        poll is Updated,
    ) {
        let r = run_of::<Dict, A, T, StepwiseWith<F, T>>(
            a.f,
            x,
            a.last_observation.model(),
            all,
            a.output->0,
            b.output->0,
            poll is Updated,
        );
        lemma_stepwise_with::<A, T, F>(a.f, x, a.last_observation.model(), all, r.0, r.1, r.2, r.3);
        (false, dict_keys(r.0), r.2, r.3)
    } else {
        let none = Map::<usize, usize>::empty();
        let (from, stepped) = choose|from: T, stepped: bool|
            #![trigger ran::<Dict, A, T, StepwiseWith<F, T>>(a.f, x, none, all, from, b.output->0, stepped)]
            {
                &&& Folds::<Dict, A, T>::begins(&a.f, from)
                &&& ran::<Dict, A, T, StepwiseWith<F, T>>(a.f, x, none, all, from, b.output->0, stepped)
                &&& (poll is Updated) == (stepped || a.last_observation_a is Some)
            };
        let r = run_of::<Dict, A, T, StepwiseWith<F, T>>(a.f, x, none, all, from, b.output->0, stepped);
        lemma_stepwise_with::<A, T, F>(a.f, x, none, all, r.0, r.1, r.2, r.3);
        (true, dict_keys(r.0), r.2, r.3)
    }
}

proof fn lemma_stepwise_with<A, T: Clone, F: FnMut(&A, T, DictChange, usize) -> (T, bool)>(
    f: StepwiseWith<F, T>,
    x: A,
    last: Map<usize, usize>,
    all: Map<usize, usize>,
    changes: Seq<DictChange>,
    len: usize,
    outs: Seq<T>,
    dids: Seq<bool>,
)
    requires
        dict_changes(last, all, changes),
        len == all.dom().len(),
        steps::<Dict, A, T, StepwiseWith<F, T>>(f, x, changes, len, outs, dids),
    ensures
        differing(last, all, dict_keys(changes)),
        dict_keys(changes).len() == changes.len(),
        forall|m: int|
            0 <= m < changes.len() ==> {
                let key = #[trigger] dict_keys(changes)[m];
                call_ensures(f.f, (&x, outs[m], dict_change(last, all, key), all.dom().len() as usize), (outs[m + 1], dids[m]))
            },
{
    lemma_dict_keys(last, all, changes);
    assert forall|m: int| 0 <= m < changes.len() implies {
        let key = #[trigger] dict_keys(changes)[m];
        call_ensures(f.f, (&x, outs[m], dict_change(last, all, key), all.dom().len() as usize), (outs[m + 1], dids[m]))
    } by {
        assert(Folds::<Dict, A, T>::stepped(&f, x, outs[m], changes[m], len, outs[m + 1], dids[m]));
    }
}

} // verus!
