//! Anchors that gather outputs into a dictionary.

use crate::collections::asking::awaiting;
use crate::collections::collect::VectorVOACollect;
use crate::collections::persistent::{
    dict_entries, dict_insert, dict_list, dict_view, dict_with_pool, voa_dict_list, voa_dict_view, Dict, VoaDict,
};
use crate::expert::ext::then_clone::asked_one;
use crate::expert::var::Constant;
use crate::expert::var_val_or_anchor::ValOrAnchor;
use crate::expert::{Anchor, AnchorInner, AnchorOutput, AnchorToken, Call, OutputRef, Poll, Reads, UpdateContext};
use std::collections::HashSet;
use std::marker::PhantomData;
use vstd::prelude::*;

verus! {

/// A dictionary whose entries stand for values.
pub trait Listing: Sized {
    spec fn listing(&self) -> Map<usize, ValOrAnchor<usize>>;

    fn list(&self) -> (entries: Vec<(usize, ValOrAnchor<usize>)>)
        ensures
            dict_entries(self.listing(), entries@),
    ;
}

/// The anchor that `token` identifies.
pub open spec fn anchor_of(token: AnchorToken) -> Anchor<usize> {
    Anchor { token, phantom: PhantomData }
}

/// What an entry of a dictionary of values and tokens stands for.
pub open spec fn voa_of(entry: (bool, usize)) -> ValOrAnchor<usize> {
    if entry.0 {
        ValOrAnchor::Anchor(anchor_of(entry.1))
    } else {
        ValOrAnchor::Val(entry.1)
    }
}

impl Listing for Dict {
    open spec fn listing(&self) -> Map<usize, ValOrAnchor<usize>> {
        dict_view(*self).map_values(|token: usize| ValOrAnchor::Anchor(anchor_of(token)))
    }

    fn list(&self) -> (entries: Vec<(usize, ValOrAnchor<usize>)>) {
        let raw: Vec<(usize, usize)> = dict_list(self);
        let mut entries: Vec<(usize, ValOrAnchor<usize>)> = Vec::new();
        let mut k: usize = 0;
        while k < raw.len()
            invariant
                k <= raw@.len(),
                entries@.len() == k,
                forall|m: int| 0 <= m < k ==> (#[trigger] entries@[m]) == (raw@[m].0, ValOrAnchor::<usize>::Anchor(anchor_of(raw@[m].1))),
            decreases raw@.len() - k,
        {
            let (key, token): (usize, usize) = raw[k];
            entries.push((key, ValOrAnchor::Anchor(Anchor::new_from_expert(token))));
            k = k + 1;
        }
        proof {
            assert(self.listing().dom() =~= dict_view(*self).dom());
            lemma_entries_mapped(dict_view(*self), raw@, self.listing(), entries@);
        }
        entries
    }
}

impl Listing for VoaDict {
    open spec fn listing(&self) -> Map<usize, ValOrAnchor<usize>> {
        voa_dict_view(*self).map_values(|entry: (bool, usize)| voa_of(entry))
    }

    fn list(&self) -> (entries: Vec<(usize, ValOrAnchor<usize>)>) {
        let raw: Vec<(usize, (bool, usize))> = voa_dict_list(self);
        let mut entries: Vec<(usize, ValOrAnchor<usize>)> = Vec::new();
        let mut k: usize = 0;
        while k < raw.len()
            invariant
                k <= raw@.len(),
                entries@.len() == k,
                forall|m: int| 0 <= m < k ==> (#[trigger] entries@[m]) == (raw@[m].0, voa_of(raw@[m].1)),
            decreases raw@.len() - k,
        {
            let (key, entry): (usize, (bool, usize)) = raw[k];
            let voa: ValOrAnchor<usize> = if entry.0 {
                ValOrAnchor::Anchor(Anchor::new_from_expert(entry.1))
            } else {
                ValOrAnchor::Val(entry.1)
            };
            entries.push((key, voa));
            k = k + 1;
        }
        proof {
            assert(self.listing().dom() =~= voa_dict_view(*self).dom());
            lemma_entries_mapped(voa_dict_view(*self), raw@, self.listing(), entries@);
        }
        entries
    }
}

proof fn lemma_entries_mapped<A, B>(a: Map<usize, A>, raw: Seq<(usize, A)>, b: Map<usize, B>, entries: Seq<(usize, B)>)
    requires
        dict_entries(a, raw),
        b.dom() == a.dom(),
        entries.len() == raw.len(),
        forall|k: int| 0 <= k < raw.len() ==> (#[trigger] entries[k]).0 == raw[k].0 && entries[k].1 == b[raw[k].0],
    ensures
        dict_entries(b, entries),
{
    assert forall|i: int| 0 <= i < entries.len() implies b.contains_key((#[trigger] entries[i]).0) && b[entries[i].0] == entries[i].1 by {
        assert(a.contains_key(raw[i].0));
        assert(a.dom().contains(raw[i].0));
    }
    assert forall|key: usize| #[trigger] b.contains_key(key) implies exists|i: int| 0 <= i < entries.len() && (#[trigger] entries[i]).0 == key by {
        assert(a.dom().contains(key));
        assert(a.contains_key(key));
        let i = choose|i: int| 0 <= i < raw.len() && (#[trigger] raw[i]).0 == key;
        assert(entries[i].0 == key);
    }
}

/// An anchor whose output is the dictionary of the values that the entries of `input` stand for. An
/// entry whose anchor is gone is left out, and not asked for again until `input` changes.
pub struct CollectStream<D> {
    pub input: Anchor<D>,
    pub vals: Option<Dict>,
    pub dirty: bool,
    pub invalid_keys: HashSet<usize>,
}

pub type OrdMapCollectStream = CollectStream<Dict>;

pub type OrdMapVOACollectStream = CollectStream<VoaDict>;

/// Gathers the outputs of the anchors in a dictionary that does not change.
pub struct OrdMapCollect;

impl OrdMapCollect {
    /// The two anchors that make up the gathering: the dictionary itself, and the gathering of its
    /// entries, which reads the dictionary from the anchor that `input` identifies.
    pub fn new_to_anchor(anchors: Dict, input: AnchorToken) -> (made: (Constant<Dict>, OrdMapCollectStream))
        ensures
            made.0 == (Constant { val: anchors, first_poll: true }),
            fresh_stream(made.1, input),
    {
        CollectStream::from_value(anchors, input)
    }
}

/// A gathering that has not been polled yet.
pub open spec fn fresh_stream<D>(stream: CollectStream<D>, input: AnchorToken) -> bool {
    &&& stream.input.token == input
    &&& stream.vals is None
    &&& stream.dirty
    &&& stream.invalid_keys@ == Set::<usize>::empty()
}

impl<D: Listing> CollectStream<D> {
    pub fn new_to_anchor(input: Anchor<D>) -> (stream: Self)
        ensures
            stream.input == input,
            fresh_stream(stream, input.token),
            stream.inv(),
    {
        CollectStream { input, vals: None, dirty: true, invalid_keys: HashSet::new() }
    }

    /// A constant dictionary, and the gathering of its entries once the dictionary is the anchor that
    /// `input` identifies.
    pub fn from_value(dict: D, input: AnchorToken) -> (made: (Constant<D>, Self))
        ensures
            made.0 == (Constant { val: dict, first_poll: true }),
            fresh_stream(made.1, input),
            made.1.inv(),
    {
        (Constant::new_internal(dict), Self::new_to_anchor(Anchor::new_from_expert(input)))
    }
}

/// The anchor that is asked for on behalf of an entry: none for a value, or for a key in `skip`.
pub open spec fn sought(entry: (usize, ValOrAnchor<usize>), skip: Set<usize>) -> Option<AnchorToken> {
    if skip.contains(entry.0) {
        None
    } else {
        entry.1.target()
    }
}

/// What is asked on behalf of `entries`, answered by `polls`: a request that cannot be met is given up.
pub open spec fn walk_calls(entries: Seq<(usize, ValOrAnchor<usize>)>, skip: Set<usize>, polls: Seq<Poll>) -> Seq<Call>
    decreases polls.len(),
{
    if polls.len() == 0 {
        Seq::empty()
    } else {
        let before = walk_calls(entries, skip, polls.drop_last());
        match sought(entries[polls.len() - 1], skip) {
            Some(token) => {
                let asked = before.push(Call::Request { token, necessary: true, poll: polls.last() });
                if polls.last() is PendingInvalidToken {
                    asked.push(Call::Unrequest { token })
                } else {
                    asked
                }
            },
            None => before,
        }
    }
}

/// Everything was asked on behalf of `entries` between two contexts.
pub open spec fn walked<G: UpdateContext>(
    before: &G,
    after: &G,
    entries: Seq<(usize, ValOrAnchor<usize>)>,
    skip: Set<usize>,
    polls: Seq<Poll>,
) -> bool {
    &&& before.evolves(after)
    &&& polls.len() <= entries.len()
    &&& after.calls() == before.calls() + walk_calls(entries, skip, polls)
    &&& forall|k: int| 0 <= k < polls.len() && sought(entries[k], skip) is None ==> (#[trigger] polls[k]) is Unchanged
    &&& forall|k: int| 0 <= k < polls.len() && (#[trigger] polls[k]) is PendingInvalidToken ==> after.degraded()
    &&& !after.degraded() ==> forall|k: int|
        0 <= k < polls.len() && sought(entries[k], skip) is Some && (#[trigger] polls[k]).ready() ==> after.told().contains_key(
            sought(entries[k], skip)->0,
        )
}

/// The keys whose anchors are gone.
pub open spec fn gone_keys(entries: Seq<(usize, ValOrAnchor<usize>)>, polls: Seq<Poll>) -> Set<usize>
    decreases polls.len(),
{
    if polls.len() == 0 {
        Set::empty()
    } else {
        let before = gone_keys(entries, polls.drop_last());
        if polls.last() is PendingInvalidToken {
            before.insert(entries[polls.len() - 1].0)
        } else {
            before
        }
    }
}

/// Some entry is ready and cannot be read.
pub open spec fn blind<G: Reads<usize>>(entries: Seq<(usize, ValOrAnchor<usize>)>, skip: Set<usize>, polls: Seq<Poll>, ctx: &G) -> bool {
    exists|k: int|
        0 <= k < polls.len() && sought(entries[k], skip) is Some && (#[trigger] polls[k]).ready() && ctx.reading(
            sought(entries[k], skip)->0,
        ) is None
}

/// What an entry stands for as it is read.
pub open spec fn entry_reading<G: Reads<usize>>(voa: ValOrAnchor<usize>, ctx: &G) -> usize {
    match voa {
        ValOrAnchor::Val(v) => v,
        ValOrAnchor::Anchor(anchor) => ctx.reading(anchor.token)->0,
    }
}

/// What the entries of `listing` stand for as they are read, but for the keys in `gone`.
pub open spec fn dict_reading<G: Reads<usize>>(listing: Map<usize, ValOrAnchor<usize>>, gone: Set<usize>, ctx: &G) -> Map<usize, usize> {
    Map::new(|key: usize| listing.contains_key(key) && !gone.contains(key), |key: usize| entry_reading(listing[key], ctx))
}

/// What an entry stands for, given the outputs of all anchors.
pub open spec fn entry_output<G: Reads<usize>>(voa: ValOrAnchor<usize>, outs: Map<AnchorToken, G::V>) -> usize {
    match voa {
        ValOrAnchor::Val(v) => v,
        ValOrAnchor::Anchor(anchor) => G::cast(outs[anchor.token]),
    }
}

/// What the entries of `listing` stand for, given the outputs of all anchors.
pub open spec fn dict_output<G: Reads<usize>>(listing: Map<usize, ValOrAnchor<usize>>, outs: Map<AnchorToken, G::V>) -> Map<usize, usize> {
    Map::new(|key: usize| listing.contains_key(key), |key: usize| entry_output::<G>(listing[key], outs))
}

/// Every anchor in `listing` is in `told`.
pub open spec fn listing_told<V>(listing: Map<usize, ValOrAnchor<usize>>, told: Map<AnchorToken, V>) -> bool {
    forall|key: usize|
        #[trigger] listing.contains_key(key) && listing[key].target() is Some ==> told.contains_key(listing[key].target()->0)
}

/// The anchor `d` is in `listing`.
pub open spec fn listed_in(listing: Map<usize, ValOrAnchor<usize>>, d: AnchorToken) -> bool {
    exists|key: usize| #[trigger] listing.contains_key(key) && listing[key].target() == Some(d)
}

/// The dictionary that `input` is, given the outputs of all anchors.
pub open spec fn listing_in<G: Reads<D>, D: Listing>(input: AnchorToken, outs: Map<AnchorToken, G::V>) -> Map<usize, ValOrAnchor<usize>> {
    <G as Reads<D>>::cast(outs[input]).listing()
}

/// `dict` is the gathering of `input`, given the outputs of all anchors.
pub open spec fn dict_fits<G: Reads<usize> + Reads<D>, D: Listing>(input: AnchorToken, outs: Map<AnchorToken, G::V>, dict: Map<usize, usize>) -> bool {
    let listing = listing_in::<G, D>(input, outs);
    &&& outs.contains_key(input)
    &&& listing_told(listing, outs)
    &&& dict == dict_output::<G>(listing, outs)
}

/// What a poll makes of a gathering: `a` becomes `b` while the context goes from `before` to `after`.
pub open spec fn stream_step<G: Reads<usize> + Reads<D>, D: Listing>(
    a: CollectStream<D>,
    b: CollectStream<D>,
    before: &G,
    after: &G,
    poll: Poll,
) -> bool {
    exists|mid: G, first: Poll| #[trigger]
        asked_one(before, &mid, a.input.token, first) && if first.waiting() {
            b == a && *after == mid && poll is Pending
        } else if first is PendingInvalidToken {
            b == a && *after == mid && poll is PendingInvalidToken
        } else if first is Unchanged && !a.dirty {
            b == a && *after == mid && poll is Unchanged
        } else if <G as Reads<D>>::reading(&mid, a.input.token) is None {
            &&& *after == mid
            &&& poll is PendingInvalidToken
            &&& b.input == a.input && b.vals == a.vals && b.dirty
            &&& b.invalid_keys@ == still_skipped(a, first)
        } else {
            let listing = <G as Reads<D>>::reading(&mid, a.input.token)->0.listing();
            exists|entries: Seq<(usize, ValOrAnchor<usize>)>, polls: Seq<Poll>|
                #![trigger walked(&mid, after, entries, still_skipped(a, first), polls)]
                dict_entries(listing, entries) && polls.len() == entries.len() && walked(&mid, after, entries, still_skipped(a, first), polls)
                    && stream_answered(a, b, after, listing, entries, still_skipped(a, first), polls, poll)
        }
}

/// The keys that are not asked for: those that were found to be gone, unless the dictionary has changed.
pub open spec fn still_skipped<D>(a: CollectStream<D>, first: Poll) -> Set<usize> {
    if first is Updated {
        Set::empty()
    } else {
        a.invalid_keys@
    }
}

/// What comes of the answers on behalf of the entries.
pub open spec fn stream_answered<G: Reads<usize> + Reads<D>, D: Listing>(
    a: CollectStream<D>,
    b: CollectStream<D>,
    after: &G,
    listing: Map<usize, ValOrAnchor<usize>>,
    entries: Seq<(usize, ValOrAnchor<usize>)>,
    skip: Set<usize>,
    polls: Seq<Poll>,
    poll: Poll,
) -> bool {
    &&& b.input == a.input
    &&& b.invalid_keys@ == skip + gone_keys(entries, polls)
    &&& if awaiting(polls) {
        poll is Pending && b.vals == a.vals && b.dirty
    } else if blind(entries, skip, polls, after) {
        poll is PendingInvalidToken && b.vals == a.vals && b.dirty
    } else {
        &&& poll is Updated
        &&& !b.dirty
        &&& b.vals is Some
        &&& dict_view(b.vals->0) == dict_reading(listing, b.invalid_keys@, after)
    }
}

/// The outcome of asking on behalf of every entry.
struct Walk {
    dict: Dict,
    pending: bool,
    unread: bool,
}

impl<D: Listing> CollectStream<D> {
    /// Asks on behalf of every entry, and gathers what is ready.
    fn walk<G: Reads<usize> + Reads<D>>(&mut self, ctx: &mut G, entries: &Vec<(usize, ValOrAnchor<usize>)>) -> (walk: Walk)
        requires
            old(ctx).valid(),
            forall|i: int, j: int| 0 <= i < j < entries@.len() ==> (#[trigger] entries@[i]).0 < (#[trigger] entries@[j]).0,
        ensures
            final(self).input == old(self).input,
            final(self).vals == old(self).vals,
            final(self).dirty == old(self).dirty,
            exists|polls: Seq<Poll>|
                #![trigger walked(old(ctx), final(ctx), entries@, old(self).invalid_keys@, polls)]
                polls.len() == entries@.len() && walked(old(ctx), final(ctx), entries@, old(self).invalid_keys@, polls)
                    && final(self).invalid_keys@ == old(self).invalid_keys@ + gone_keys(entries@, polls) && walk.pending == awaiting(polls)
                    && walk.unread == blind(entries@, old(self).invalid_keys@, polls, final(ctx)) && (!walk.pending && !walk.unread
                    ==> walk_dict(entries@, old(self).invalid_keys@, polls, final(ctx), dict_view(walk.dict))),
    {
        let ghost was = *ctx;
        let ghost skip = self.invalid_keys@;
        let ghost mut polls: Seq<Poll> = Seq::empty();
        let mut walk = Walk { dict: dict_with_pool(0), pending: false, unread: false };
        proof {
            was.evolves_reflexive();
            was.evolves_keeps(ctx);
            assert(was.calls() + walk_calls(entries@, skip, polls) =~= was.calls());
            assert(skip + gone_keys(entries@, polls) =~= skip);
        }
        let mut k: usize = 0;
        while k < entries.len()
            invariant
                k <= entries@.len(),
                polls.len() == k,
                was == *old(ctx),
                was.valid(),
                ctx.valid(),
                forall|i: int, j: int| 0 <= i < j < entries@.len() ==> (#[trigger] entries@[i]).0 < (#[trigger] entries@[j]).0,
                self.input == old(self).input,
                self.vals == old(self).vals,
                self.dirty == old(self).dirty,
                skip == old(self).invalid_keys@,
                walked(&was, ctx, entries@, skip, polls),
                self.invalid_keys@ == skip + gone_keys(entries@, polls),
                walk.pending == awaiting(polls),
                walk.unread == blind(entries@, skip, polls, ctx),
                !walk.pending && !walk.unread ==> walk_dict(entries@, skip, polls, ctx, dict_view(walk.dict)),
            decreases entries@.len() - k,
        {
            let ghost before = *ctx;
            let ghost given = polls;
            let ghost gone = self.invalid_keys@;
            let ghost dict = dict_view(walk.dict);
            let ghost walk0 = walk;
            let key: usize = entries[k].0;
            proof {
                lemma_gone_among(entries@, given, key);
                assert(gone.contains(key) == skip.contains(key)) by {
                    if gone_keys(entries@, given).contains(key) {
                        let m = choose|m: int| 0 <= m < given.len() && (#[trigger] given[m]) is PendingInvalidToken && entries@[m].0 == key;
                        assert(entries@[m].0 < entries@[k as int].0);
                    }
                }
                before.evolves_reflexive();
            }
            let mut poll: Poll = Poll::Unchanged;
            if !self.invalid_keys.contains(&key) {
                match &entries[k].1 {
                    ValOrAnchor::Val(v) => {
                        let _ = dict_insert(&mut walk.dict, key, *v);
                    },
                    ValOrAnchor::Anchor(anchor) => {
                        poll = ctx.request(anchor.token, true);
                        let ghost mid = *ctx;
                        proof {
                            before.evolves_keeps(ctx);
                        }
                        if poll.is_waiting() {
                            walk.pending = true;
                        } else if poll.is_invalid_token() {
                            let _ = self.invalid_keys.insert(key);
                            ctx.unrequest(anchor.token);
                            proof {
                                mid.evolves_keeps(ctx);
                                before.evolves_transitive(&mid, ctx);
                            }
                        } else {
                            match <G as Reads<usize>>::get(ctx, anchor) {
                                Some(v) => {
                                    let _ = dict_insert(&mut walk.dict, key, *v);
                                },
                                None => {
                                    walk.unread = true;
                                },
                            }
                        }
                    },
                }
            }
            proof {
                polls = polls.push(poll);
                was.evolves_keeps(&before);
                before.evolves_keeps(ctx);
                was.evolves_transitive(&before, ctx);
                lemma_walk_on::<G>(&was, &before, ctx, entries@, skip, given, poll);
                assert(polls.drop_last() =~= given);
                assert(self.invalid_keys@ =~= skip + gone_keys(entries@, polls));
                assert(awaiting(polls) == (awaiting(given) || poll.waiting())) by {
                    if awaiting(given) {
                        let m = choose|m: int| 0 <= m < given.len() && (#[trigger] given[m]).waiting();
                        assert(polls[m].waiting());
                    }
                    if poll.waiting() {
                        assert(polls[k as int].waiting());
                    }
                    if awaiting(polls) {
                        let m = choose|m: int| 0 <= m < polls.len() && (#[trigger] polls[m]).waiting();
                        if m < k {
                            assert(given[m].waiting());
                        }
                    }
                }
                lemma_blind_on::<G>(&before, ctx, entries@, skip, given, poll);
                if !walk.pending && !walk.unread {
                    lemma_dict_on::<G>(&before, ctx, entries@, skip, given, poll, dict, dict_view(walk.dict));
                }
            }
            k = k + 1;
        }
        walk
    }
}

/// `dict` holds what the first entries stand for, as far as they are ready.
spec fn walk_dict<G: Reads<usize>>(
    entries: Seq<(usize, ValOrAnchor<usize>)>,
    skip: Set<usize>,
    polls: Seq<Poll>,
    ctx: &G,
    dict: Map<usize, usize>,
) -> bool {
    &&& forall|m: int|
        0 <= m < polls.len() && !skip.contains((#[trigger] entries[m]).0) && polls[m].ready() ==> dict.contains_key(entries[m].0)
            && dict[entries[m].0] == entry_reading(entries[m].1, ctx)
    &&& forall|key: usize|
        #[trigger] dict.contains_key(key) ==> exists|m: int|
            0 <= m < polls.len() && (#[trigger] entries[m]).0 == key && !skip.contains(key) && polls[m].ready()
}

proof fn lemma_gone_among(entries: Seq<(usize, ValOrAnchor<usize>)>, polls: Seq<Poll>, key: usize)
    ensures
        gone_keys(entries, polls).contains(key) <==> exists|m: int|
            0 <= m < polls.len() && (#[trigger] polls[m]) is PendingInvalidToken && entries[m].0 == key,
    decreases polls.len(),
{
    if polls.len() > 0 {
        let less = polls.drop_last();
        lemma_gone_among(entries, less, key);
        if gone_keys(entries, less).contains(key) {
            let m = choose|m: int| 0 <= m < less.len() && (#[trigger] less[m]) is PendingInvalidToken && entries[m].0 == key;
            assert(polls[m] is PendingInvalidToken);
        }
        if exists|m: int| 0 <= m < polls.len() && (#[trigger] polls[m]) is PendingInvalidToken && entries[m].0 == key {
            let m = choose|m: int| 0 <= m < polls.len() && (#[trigger] polls[m]) is PendingInvalidToken && entries[m].0 == key;
            if m < less.len() {
                assert(less[m] is PendingInvalidToken);
            }
        }
    }
}

/// One more entry has been asked for.
proof fn lemma_walk_on<G: UpdateContext>(
    was: &G,
    before: &G,
    after: &G,
    entries: Seq<(usize, ValOrAnchor<usize>)>,
    skip: Set<usize>,
    given: Seq<Poll>,
    poll: Poll,
)
    requires
        was.valid(),
        given.len() < entries.len(),
        walked(was, before, entries, skip, given),
        was.evolves(after),
        before.valid(),
        before.evolves(after),
        match sought(entries[given.len() as int], skip) {
            None => after.calls() == before.calls() && poll is Unchanged,
            Some(token) => {
                let asked = before.calls().push(Call::Request { token, necessary: true, poll });
                &&& after.calls() == (if poll is PendingInvalidToken {
                    asked.push(Call::Unrequest { token })
                } else {
                    asked
                })
                &&& poll is PendingInvalidToken ==> after.degraded()
                &&& !after.degraded() && poll.ready() ==> after.told().contains_key(token)
            },
        },
    ensures
        walked(was, after, entries, skip, given.push(poll)),
{
    let polls = given.push(poll);
    let n = given.len() as int;
    before.evolves_keeps(after);
    assert(polls.drop_last() =~= given);
    assert(after.calls() =~= was.calls() + walk_calls(entries, skip, polls));
    assert forall|k: int| 0 <= k < polls.len() && sought(entries[k], skip) is None implies (#[trigger] polls[k]) is Unchanged by {
        if k < n {
            assert(given[k] is Unchanged);
        }
    }
    assert forall|k: int| 0 <= k < polls.len() && (#[trigger] polls[k]) is PendingInvalidToken implies after.degraded() by {
        if k < n {
            assert(given[k] is PendingInvalidToken);
        }
    }
    if !after.degraded() {
        assert forall|k: int| 0 <= k < polls.len() && sought(entries[k], skip) is Some && (#[trigger] polls[k]).ready() implies after.told().contains_key(
            sought(entries[k], skip)->0,
        ) by {
            if k < n {
                assert(given[k].ready());
                let token = sought(entries[k], skip)->0;
                assert(before.told().dom().contains(token));
                assert(after.told().dom().contains(token));
            }
        }
    }
}

proof fn lemma_blind_on<G: Reads<usize>>(
    before: &G,
    after: &G,
    entries: Seq<(usize, ValOrAnchor<usize>)>,
    skip: Set<usize>,
    given: Seq<Poll>,
    poll: Poll,
)
    requires
        before.evolves(after),
        given.len() < entries.len(),
    ensures
        blind(entries, skip, given.push(poll), after) == (blind(entries, skip, given, before) || {
            let target = sought(entries[given.len() as int], skip);
            target is Some && poll.ready() && after.reading(target->0) is None
        }),
{
    let polls = given.push(poll);
    let n = given.len() as int;
    if blind(entries, skip, given, before) {
        let m = choose|m: int|
            0 <= m < given.len() && sought(entries[m], skip) is Some && (#[trigger] given[m]).ready() && before.reading(sought(entries[m], skip)->0) is None;
        before.reading_kept(after, sought(entries[m], skip)->0);
        assert(polls[m].ready());
    }
    if blind(entries, skip, polls, after) {
        let m = choose|m: int|
            0 <= m < polls.len() && sought(entries[m], skip) is Some && (#[trigger] polls[m]).ready() && after.reading(sought(entries[m], skip)->0) is None;
        before.reading_kept(after, sought(entries[m], skip)->0);
        if m < n {
            assert(given[m].ready());
        }
    }
    let target = sought(entries[n], skip);
    if target is Some && poll.ready() && after.reading(target->0) is None {
        assert(polls[n].ready());
    }
}

proof fn lemma_dict_on<G: Reads<usize>>(
    before: &G,
    after: &G,
    entries: Seq<(usize, ValOrAnchor<usize>)>,
    skip: Set<usize>,
    given: Seq<Poll>,
    poll: Poll,
    dict: Map<usize, usize>,
    more: Map<usize, usize>,
)
    requires
        before.evolves(after),
        given.len() < entries.len(),
        forall|i: int, j: int| 0 <= i < j < entries.len() ==> (#[trigger] entries[i]).0 < (#[trigger] entries[j]).0,
        walk_dict(entries, skip, given, before, dict),
        ({
            let entry = entries[given.len() as int];
            more == (if !skip.contains(entry.0) && poll.ready() {
                dict.insert(entry.0, entry_reading(entry.1, after))
            } else {
                dict
            })
        }),
    ensures
        walk_dict(entries, skip, given.push(poll), after, more),
{
    let polls = given.push(poll);
    let n = given.len() as int;
    assert forall|m: int| 0 <= m < polls.len() && !skip.contains((#[trigger] entries[m]).0) && polls[m].ready() implies more.contains_key(entries[m].0)
        && more[entries[m].0] == entry_reading(entries[m].1, after) by {
        if m < n {
            assert(given[m].ready());
            assert(entries[m].0 < entries[n].0);
            if entries[m].1.target() is Some {
                before.reading_kept(after, entries[m].1.target()->0);
            }
        }
    }
    assert forall|key: usize| #[trigger] more.contains_key(key) implies exists|m: int|
        0 <= m < polls.len() && (#[trigger] entries[m]).0 == key && !skip.contains(key) && polls[m].ready() by {
        if dict.contains_key(key) {
            let m = choose|m: int| 0 <= m < given.len() && (#[trigger] entries[m]).0 == key && !skip.contains(key) && given[m].ready();
            assert(polls[m].ready());
        } else {
            assert(entries[n].0 == key);
            assert(polls[n].ready());
        }
    }
}

/// Once every entry is ready or gone, what was gathered is what the dictionary stands for.
proof fn lemma_walk_whole<G: Reads<usize>>(
    listing: Map<usize, ValOrAnchor<usize>>,
    entries: Seq<(usize, ValOrAnchor<usize>)>,
    skip: Set<usize>,
    polls: Seq<Poll>,
    ctx: &G,
    dict: Map<usize, usize>,
)
    requires
        dict_entries(listing, entries),
        polls.len() == entries.len(),
        !awaiting(polls),
        walk_dict(entries, skip, polls, ctx, dict),
    ensures
        dict == dict_reading(listing, skip + gone_keys(entries, polls), ctx),
{
    let gone = skip + gone_keys(entries, polls);
    let whole = dict_reading(listing, gone, ctx);
    assert forall|key: usize| #[trigger] dict.dom().contains(key) == whole.dom().contains(key) && (dict.contains_key(key) ==> dict[key]
        == whole[key]) by {
        lemma_gone_among(entries, polls, key);
        if dict.contains_key(key) {
            let m = choose|m: int| 0 <= m < polls.len() && (#[trigger] entries[m]).0 == key && !skip.contains(key) && polls[m].ready();
            assert(listing.contains_key(entries[m].0));
            if gone_keys(entries, polls).contains(key) {
                let j = choose|j: int| 0 <= j < polls.len() && (#[trigger] polls[j]) is PendingInvalidToken && entries[j].0 == key;
                assert(entries[j].0 == entries[m].0);
            }
        }
        if whole.contains_key(key) {
            let m = choose|m: int| 0 <= m < entries.len() && (#[trigger] entries[m]).0 == key;
            assert(!polls[m].waiting());
            if polls[m] is PendingInvalidToken {
                assert(gone_keys(entries, polls).contains(key));
            }
            assert(polls[m].ready());
            assert(dict.contains_key(entries[m].0));
        }
    }
    assert(dict.dom() =~= whole.dom());
    assert(dict =~= whole) by {
        assert forall|key: usize| #[trigger] dict.dom().contains(key) implies dict[key] == whole[key] by {
        }
    }
}

impl<D: Listing> AnchorOutput for CollectStream<D> {
    type Output = Dict;

    type Handed = ();

    open spec fn inv(&self) -> bool {
        !self.dirty ==> self.vals is Some
    }

    open spec fn had(&self) -> bool {
        self.vals is Some
    }

    open spec fn alias(&self) -> Option<AnchorToken> {
        None
    }

    open spec fn own(&self) -> Dict {
        self.vals->0
    }

    open spec fn honest(&self) -> bool {
        true
    }

    open spec fn outside(&self) -> Option<()> {
        None
    }

    open spec fn displays(handed: (), out: Dict) -> bool {
        true
    }

    fn output(&self) -> (out: OutputRef<'_, Dict>) {
        OutputRef::Own(self.vals.as_ref().unwrap())
    }
}

impl<G: Reads<usize> + Reads<D>, D: Listing> AnchorInner<G> for CollectStream<D> {
    open spec fn current(&self) -> bool {
        true
    }

    open spec fn holds(&self, told: Map<AnchorToken, G::V>) -> bool {
        &&& self.invalid_keys@ == Set::<usize>::empty()
        &&& !self.dirty ==> dict_fits::<G, D>(self.input.token, told, dict_view(self.vals->0))
    }

    open spec fn sound(&self, told: Map<AnchorToken, G::V>) -> bool {
        &&& self.vals is Some
        &&& dict_fits::<G, D>(self.input.token, told, dict_view(self.vals->0))
    }

    open spec fn right(&self, seen: Map<AnchorToken, G::V>) -> bool {
        self.vals is Some ==> dict_fits::<G, D>(self.input.token, seen, dict_view(self.vals->0))
    }

    open spec fn hears(&self, later: &Self, edge: AnchorToken) -> bool {
        *later == (CollectStream { dirty: true, ..*self })
    }

    open spec fn polls(&self, later: &Self, before: &G, after: &G, poll: Poll) -> bool {
        stream_step(*self, *later, before, after, poll)
    }

    open spec fn leans_on(&self, told: Map<AnchorToken, G::V>, d: AnchorToken) -> bool {
        d == self.input.token || listed_in(listing_in::<G, D>(self.input.token, told), d)
    }

    proof fn less_told(&self, told: Map<AnchorToken, G::V>, less: Map<AnchorToken, G::V>) {
        lemma_fits_less::<G, D>(self.input.token, told, less, dict_view(self.vals->0));
    }

    proof fn more_told(&self, told: Map<AnchorToken, G::V>, more: Map<AnchorToken, G::V>) {
        if dict_fits::<G, D>(self.input.token, told, dict_view(self.vals->0)) {
            lemma_fits_more::<G, D>(self.input.token, told, more, dict_view(self.vals->0));
        }
    }

    proof fn shows_outside(&self) {
    }

    fn dirty(&mut self, edge: AnchorToken) {
        self.dirty = true;
    }

    fn poll_updated(&mut self, ctx: &mut G) -> (poll: Poll) {
        let ghost a = *self;
        let ghost before = *ctx;
        let token: AnchorToken = self.input.token;
        let first: Poll = ctx.request(token, true);
        let ghost mid = *ctx;
        proof {
            before.evolves_keeps(ctx);
            assert(asked_one(&before, &mid, a.input.token, first));
            mid.evolves_reflexive();
        }
        if first.is_waiting() {
            return Poll::Pending;
        }
        if first.is_invalid_token() {
            return Poll::PendingInvalidToken;
        }
        if first == Poll::Updated {
            self.dirty = true;
            self.invalid_keys.clear();
        }
        if !self.dirty {
            proof {
                if !ctx.degraded() {
                    lemma_fits_more::<G, D>(token, before.told(), ctx.told(), dict_view(a.vals->0));
                }
            }
            return Poll::Unchanged;
        }
        let entries: Vec<(usize, ValOrAnchor<usize>)> = match <G as Reads<D>>::get(ctx, &self.input) {
            Some(dict) => dict.list(),
            None => {
                return Poll::PendingInvalidToken;
            },
        };
        let ghost listing = <G as Reads<D>>::reading(&mid, token)->0.listing();
        let ghost skip = self.invalid_keys@;
        assert(skip == still_skipped(a, first));
        let walk = self.walk(ctx, &entries);
        let ghost polls = choose|polls: Seq<Poll>|
            #![trigger walked(&mid, ctx, entries@, skip, polls)]
            polls.len() == entries@.len() && walked(&mid, ctx, entries@, skip, polls) && self.invalid_keys@ == skip + gone_keys(entries@, polls)
                && walk.pending == awaiting(polls) && walk.unread == blind(entries@, skip, polls, ctx) && (!walk.pending && !walk.unread
                ==> walk_dict(entries@, skip, polls, ctx, dict_view(walk.dict)));
        proof {
            assert(walked(&mid, ctx, entries@, skip, polls));
            mid.evolves_keeps(ctx);
            before.evolves_transitive(&mid, ctx);
            if !ctx.degraded() {
                lemma_none_gone::<G>(&mid, ctx, entries@, skip, polls);
                assert(self.invalid_keys@ =~= Set::<usize>::empty());
            }
        }
        if walk.pending {
            assert(stream_answered(a, *self, ctx, listing, entries@, skip, polls, Poll::Pending));
            return Poll::Pending;
        }
        if walk.unread {
            assert(stream_answered(a, *self, ctx, listing, entries@, skip, polls, Poll::PendingInvalidToken));
            return Poll::PendingInvalidToken;
        }
        proof {
            lemma_walk_whole(listing, entries@, skip, polls, ctx, dict_view(walk.dict));
        }
        self.vals = Some(walk.dict);
        self.dirty = false;
        proof {
            assert(stream_answered(a, *self, ctx, listing, entries@, skip, polls, Poll::Updated));
            if !ctx.degraded() {
                <G as Reads<D>>::reading_is_now(&mid, token);
                assert(mid.told().dom().contains(token));
                assert(ctx.told().dom().contains(token));
                lemma_fits_now::<G, D>(token, &mid, ctx, listing, entries@, polls, dict_view(walk.dict));
            }
        }
        Poll::Updated
    }
}

proof fn lemma_none_gone<G: UpdateContext>(before: &G, after: &G, entries: Seq<(usize, ValOrAnchor<usize>)>, skip: Set<usize>, polls: Seq<Poll>)
    requires
        walked(before, after, entries, skip, polls),
        !after.degraded(),
    ensures
        gone_keys(entries, polls) == Set::<usize>::empty(),
{
    assert forall|key: usize| !gone_keys(entries, polls).contains(key) by {
        lemma_gone_among(entries, polls, key);
    }
    assert(gone_keys(entries, polls) =~= Set::<usize>::empty());
}

proof fn lemma_fits_more<G: Reads<usize> + Reads<D>, D: Listing>(
    input: AnchorToken,
    told: Map<AnchorToken, G::V>,
    more: Map<AnchorToken, G::V>,
    dict: Map<usize, usize>,
)
    requires
        dict_fits::<G, D>(input, told, dict),
        told.submap_of(more),
    ensures
        dict_fits::<G, D>(input, more, dict),
{
    assert(told.dom().contains(input));
    assert(more.dom().contains(input));
    let listing = listing_in::<G, D>(input, told);
    assert forall|key: usize| #[trigger] listing.contains_key(key) && listing[key].target() is Some implies more.contains_key(listing[key].target()->0)
        && told[listing[key].target()->0] == more[listing[key].target()->0] by {
        let t = listing[key].target()->0;
        assert(told.contains_key(t));
        assert(told.dom().contains(t));
        assert(more.dom().contains(t));
    }
    assert(dict_output::<G>(listing, told) =~= dict_output::<G>(listing, more));
}

proof fn lemma_fits_less<G: Reads<usize> + Reads<D>, D: Listing>(
    input: AnchorToken,
    told: Map<AnchorToken, G::V>,
    less: Map<AnchorToken, G::V>,
    dict: Map<usize, usize>,
)
    requires
        dict_fits::<G, D>(input, told, dict),
        less.submap_of(told),
        forall|d: AnchorToken|
            told.contains_key(d) && (d == input || listed_in(listing_in::<G, D>(input, told), d)) ==> #[trigger] less.contains_key(d),
    ensures
        dict_fits::<G, D>(input, less, dict),
{
    assert(less.contains_key(input));
    assert(less.dom().contains(input));
    let listing = listing_in::<G, D>(input, told);
    assert forall|key: usize| #[trigger] listing.contains_key(key) && listing[key].target() is Some implies less.contains_key(listing[key].target()->0)
        && told[listing[key].target()->0] == less[listing[key].target()->0] by {
        let t = listing[key].target()->0;
        assert(told.contains_key(t));
        assert(listed_in(listing, t));
        assert(less.contains_key(t));
        assert(less.dom().contains(t));
    }
    assert(dict_output::<G>(listing, told) =~= dict_output::<G>(listing, less));
}

proof fn lemma_fits_now<G: Reads<usize> + Reads<D>, D: Listing>(
    input: AnchorToken,
    mid: &G,
    ctx: &G,
    listing: Map<usize, ValOrAnchor<usize>>,
    entries: Seq<(usize, ValOrAnchor<usize>)>,
    polls: Seq<Poll>,
    dict: Map<usize, usize>,
)
    requires
        mid.valid(),
        !ctx.degraded(),
        dict_entries(listing, entries),
        polls.len() == entries.len(),
        walked(mid, ctx, entries, Set::<usize>::empty(), polls),
        !awaiting(polls),
        !blind(entries, Set::<usize>::empty(), polls, ctx),
        ctx.told().contains_key(input),
        listing == <G as Reads<D>>::cast(ctx.now()[input]).listing(),
        dict == dict_reading(listing, Set::<usize>::empty(), ctx),
    ensures
        dict_fits::<G, D>(input, ctx.told(), dict),
{
    let none = Set::<usize>::empty();
    mid.evolves_keeps(ctx);
    assert(ctx.told().dom().contains(input));
    assert(ctx.now().dom().contains(input));
    assert forall|key: usize| #[trigger] listing.contains_key(key) && listing[key].target() is Some implies ctx.told().contains_key(listing[key].target()->0)
        && <G as Reads<usize>>::reading(ctx, listing[key].target()->0)->0 == <G as Reads<usize>>::cast(ctx.told()[listing[key].target()->0]) by {
        let m = choose|m: int| 0 <= m < entries.len() && (#[trigger] entries[m]).0 == key;
        let t = listing[key].target()->0;
        assert(entries[m].1 == listing[key]);
        assert(sought(entries[m], none) == Some(t));
        assert(!polls[m].waiting());
        assert(!(polls[m] is PendingInvalidToken));
        assert(polls[m].ready());
        assert(ctx.told().dom().contains(t));
        assert(ctx.now().dom().contains(t));
        assert(<G as Reads<usize>>::reading(ctx, t) is Some);
        <G as Reads<usize>>::reading_is_now(ctx, t);
    }
    assert(dict =~= dict_output::<G>(listing, ctx.told()));
}

/// The gathering, into a vector, of the values that the entries of a dictionary stand for, by ascending
/// keys.
pub fn values_of<D: Listing>(dict: &D) -> (collect: VectorVOACollect)
    ensures
        collect.vals is None,
        collect.dirty,
        exists|entries: Seq<(usize, ValOrAnchor<usize>)>| #[trigger]
            dict_entries(dict.listing(), entries) && collect.anchors@ == Seq::new(entries.len(), |k: int| entries[k].1),
{
    let entries: Vec<(usize, ValOrAnchor<usize>)> = dict.list();
    let mut anchors: Vec<ValOrAnchor<usize>> = Vec::new();
    let mut k: usize = 0;
    while k < entries.len()
        invariant
            k <= entries@.len(),
            anchors@ =~= Seq::new(k as nat, |m: int| entries@[m].1),
        decreases entries@.len() - k,
    {
        match &entries[k].1 {
            ValOrAnchor::Val(v) => {
                anchors.push(ValOrAnchor::Val(*v));
            },
            ValOrAnchor::Anchor(anchor) => {
                anchors.push(ValOrAnchor::Anchor(anchor.clone()));
            },
        }
        k = k + 1;
    }
    assert(dict_entries(dict.listing(), entries@));
    VectorVOACollect::new_to_anchor(anchors)
}

} // verus!
