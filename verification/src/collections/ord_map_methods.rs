//! Anchors that follow a dictionary entry by entry.

use crate::collections::fold::{fold_step, ran, steps, Folds, Followed, UnorderedFold, UnorderedFoldWithAnchor};
use crate::collections::persistent::{
    counts, dict_changes, dict_clear, dict_clone, dict_diff, dict_insert, dict_len, dict_remove, dict_view, dict_with_pool, Dict,
    DictChange, POOL_LIMIT,
};
use crate::expert::{Anchor, AnchorOutput, Poll, Reads};
use vstd::prelude::*;

verus! {

impl Followed for Dict {
    type Model = Map<usize, usize>;

    type Change = DictChange;

    open spec fn model(&self) -> Map<usize, usize> {
        dict_view(*self)
    }

    open spec fn none() -> Map<usize, usize> {
        Map::empty()
    }

    open spec fn size(model: Map<usize, usize>) -> nat {
        model.dom().len()
    }

    open spec fn changes(a: Map<usize, usize>, b: Map<usize, usize>, changes: Seq<DictChange>) -> bool {
        b.dom().finite() && dict_changes(a, b, changes)
    }

    fn nothing() -> (c: Dict) {
        let c: Dict = dict_with_pool(0);
        assert(dict_view(c) =~= Map::empty());
        c
    }

    fn count(&self) -> (n: usize) {
        dict_len(self)
    }

    fn copy(&self) -> (c: Dict) {
        dict_clone(self)
    }

    fn diff(&self, new: &Dict) -> (changes: Vec<DictChange>) {
        let len: usize = dict_len(new);
        assert(counts(dict_view(*new).dom(), len));
        dict_diff(self, new)
    }
}

/// A choice of entries, and of the values that they get.
pub trait Selects<A>: Sized {
    /// It can choose among any entries.
    spec fn able(&self) -> bool;

    /// An entry can get the value `r`, or be left out.
    spec fn selects(&self, a: A, key: usize, value: usize, r: Option<usize>) -> bool;

    fn select(&mut self, a: &A, key: usize, value: usize) -> (r: Option<usize>)
        requires
            old(self).able(),
        ensures
            *final(self) == *old(self),
            old(self).selects(*a, key, value, r),
    ;
}

/// Keeps the entries that `f` says yes to.
pub struct Kept<F> {
    pub f: F,
}

/// Gives every entry the value that `f` makes of it.
pub struct Mapped<F> {
    pub f: F,
}

/// Gives an entry the value that `f` makes of it, if it makes one.
pub struct Chosen<F> {
    pub f: F,
}

/// Keeps the entries that `f` says yes to, given the output of another anchor.
pub struct KeptWith<F> {
    pub f: F,
}

/// Gives every entry the value that `f` makes of it and the output of another anchor.
pub struct MappedWith<F> {
    pub f: F,
}

/// Gives an entry the value that `f` makes of it and the output of another anchor, if it makes one.
pub struct ChosenWith<F> {
    pub f: F,
}

impl<F: FnMut(&usize, &usize) -> bool> Selects<()> for Kept<F> {
    open spec fn able(&self) -> bool {
        forall|k: usize, v: usize| call_requires(self.f, (&k, &v))
    }

    open spec fn selects(&self, a: (), key: usize, value: usize, r: Option<usize>) -> bool {
        &&& call_ensures(self.f, (&key, &value), r is Some)
        &&& r is Some ==> r->0 == value
    }

    fn select(&mut self, a: &(), key: usize, value: usize) -> (r: Option<usize>) {
        if (self.f)(&key, &value) {
            Some(value)
        } else {
            None
        }
    }
}

impl<F: FnMut(&usize, &usize) -> usize> Selects<()> for Mapped<F> {
    open spec fn able(&self) -> bool {
        forall|k: usize, v: usize| call_requires(self.f, (&k, &v))
    }

    open spec fn selects(&self, a: (), key: usize, value: usize, r: Option<usize>) -> bool {
        r is Some && call_ensures(self.f, (&key, &value), r->0)
    }

    fn select(&mut self, a: &(), key: usize, value: usize) -> (r: Option<usize>) {
        Some((self.f)(&key, &value))
    }
}

impl<F: FnMut(&usize, &usize) -> Option<usize>> Selects<()> for Chosen<F> {
    open spec fn able(&self) -> bool {
        forall|k: usize, v: usize| call_requires(self.f, (&k, &v))
    }

    open spec fn selects(&self, a: (), key: usize, value: usize, r: Option<usize>) -> bool {
        call_ensures(self.f, (&key, &value), r)
    }

    fn select(&mut self, a: &(), key: usize, value: usize) -> (r: Option<usize>) {
        (self.f)(&key, &value)
    }
}

impl<A, F: FnMut(&A, &usize, &usize) -> bool> Selects<A> for KeptWith<F> {
    open spec fn able(&self) -> bool {
        forall|a: A, k: usize, v: usize| call_requires(self.f, (&a, &k, &v))
    }

    open spec fn selects(&self, a: A, key: usize, value: usize, r: Option<usize>) -> bool {
        &&& call_ensures(self.f, (&a, &key, &value), r is Some)
        &&& r is Some ==> r->0 == value
    }

    fn select(&mut self, a: &A, key: usize, value: usize) -> (r: Option<usize>) {
        if (self.f)(a, &key, &value) {
            Some(value)
        } else {
            None
        }
    }
}

impl<A, F: FnMut(&A, &usize, &usize) -> usize> Selects<A> for MappedWith<F> {
    open spec fn able(&self) -> bool {
        forall|a: A, k: usize, v: usize| call_requires(self.f, (&a, &k, &v))
    }

    open spec fn selects(&self, a: A, key: usize, value: usize, r: Option<usize>) -> bool {
        r is Some && call_ensures(self.f, (&a, &key, &value), r->0)
    }

    fn select(&mut self, a: &A, key: usize, value: usize) -> (r: Option<usize>) {
        Some((self.f)(a, &key, &value))
    }
}

impl<A, F: FnMut(&A, &usize, &usize) -> Option<usize>> Selects<A> for ChosenWith<F> {
    open spec fn able(&self) -> bool {
        forall|a: A, k: usize, v: usize| call_requires(self.f, (&a, &k, &v))
    }

    open spec fn selects(&self, a: A, key: usize, value: usize, r: Option<usize>) -> bool {
        call_ensures(self.f, (&a, &key, &value), r)
    }

    fn select(&mut self, a: &A, key: usize, value: usize) -> (r: Option<usize>) {
        (self.f)(a, &key, &value)
    }
}

/// Follows a dictionary by the entries that are chosen from it.
pub struct SelectFold<S> {
    pub pool_size: usize,
    pub select: S,
}

/// What `dict` has at `key`.
pub open spec fn found_at(dict: Map<usize, usize>, key: usize) -> Option<usize> {
    if dict.contains_key(key) {
        Some(dict[key])
    } else {
        None
    }
}

/// `out` holds the entries that are chosen from `all`, with the values that they get.
pub open spec fn selection<A, S: Selects<A>>(select: S, a: A, all: Map<usize, usize>, out: Map<usize, usize>) -> bool {
    forall|key: usize| #[trigger] selected(select, a, all, out, key)
}

/// At `key`, `out` has what is chosen from `all`.
pub open spec fn selected<A, S: Selects<A>>(select: S, a: A, all: Map<usize, usize>, out: Map<usize, usize>, key: usize) -> bool {
    if all.contains_key(key) {
        select.selects(a, key, all[key], found_at(out, key))
    } else {
        !out.contains_key(key)
    }
}

/// `dict` with the value `r` at `key`, or without that key.
pub open spec fn placed(dict: Map<usize, usize>, key: usize, r: Option<usize>) -> Map<usize, usize> {
    match r {
        Some(v) => dict.insert(key, v),
        None => dict.remove(key),
    }
}

impl<A, S: Selects<A>> Folds<Dict, A, Dict> for SelectFold<S> {
    open spec fn able(&self) -> bool {
        self.pool_size <= POOL_LIMIT && self.select.able()
    }

    open spec fn begins(&self, out: Dict) -> bool {
        dict_view(out) == Map::<usize, usize>::empty()
    }

    /// Once the collection is empty so is the output. An entry that is added and not chosen changes
    /// nothing; one that is updated and not chosen any more is removed.
    open spec fn stepped(&self, a: A, out: Dict, change: DictChange, len: usize, next: Dict, did: bool) -> bool {
        let was = dict_view(out);
        let is = dict_view(next);
        if len == 0 {
            is == Map::<usize, usize>::empty() && did == (was != Map::<usize, usize>::empty())
        } else {
            match change {
                DictChange::Add { key, value } => exists|r: Option<usize>|
                    #![trigger self.select.selects(a, key, value, r)]
                    self.select.selects(a, key, value, r) && did == (r is Some) && is == (if r is Some {
                        placed(was, key, r)
                    } else {
                        was
                    }),
                DictChange::Update { key, new, .. } => exists|r: Option<usize>|
                    #![trigger self.select.selects(a, key, new, r)]
                    self.select.selects(a, key, new, r) && did == (r is Some || was.contains_key(key)) && is == placed(was, key, r),
                DictChange::Remove { key, .. } => did == was.contains_key(key) && is == was.remove(key),
            }
        }
    }

    open spec fn settled(&self, a: A, all: Map<usize, usize>, out: Dict) -> bool {
        selection(self.select, a, all, dict_view(out))
    }

    proof fn begins_settled(&self, a: A, out: Dict) {
        assert forall|key: usize| #[trigger] selected(self.select, a, Map::empty(), dict_view(out), key) by {
        }
    }

    proof fn settles(
        &self,
        a: A,
        last: Map<usize, usize>,
        all: Map<usize, usize>,
        changes: Seq<DictChange>,
        len: usize,
        outs: Seq<Dict>,
        dids: Seq<bool>,
    ) {
        let n = changes.len() as int;
        if len == 0 {
            assert(all.dom() =~= Set::<usize>::empty());
            if n > 0 {
                assert(self.stepped(a, outs[n - 1], changes[n - 1], len, outs[n], dids[n - 1]));
                assert forall|key: usize| #[trigger] selected(self.select, a, all, dict_view(outs.last()), key) by {
                }
            } else {
                lemma_same_dicts(last, all, changes);
            }
        } else {
            assert forall|key: usize| #[trigger] selected(self.select, a, all, dict_view(outs.last()), key) by {
                assert(selected(self.select, a, last, dict_view(outs[0]), key));
                self.lemma_settles_at(a, last, all, changes, len, outs, dids, key, n);
                if !(exists|k: int| 0 <= k < n && (#[trigger] changes[k]).at() == key) {
                    lemma_same_at(last, all, changes, key);
                }
            }
        }
    }

    fn begin(&self) -> (out: Dict) {
        let size: usize = if self.pool_size <= POOL_LIMIT {
            self.pool_size
        } else {
            POOL_LIMIT
        };
        let out: Dict = dict_with_pool(size);
        assert(dict_view(out) =~= Map::<usize, usize>::empty());
        out
    }

    fn step(&mut self, a: &A, out: Dict, change: DictChange, len: usize) -> (r: (Dict, bool)) {
        let mut out: Dict = out;
        let ghost was = dict_view(out);
        if len == 0 {
            let empty: bool = dict_len(&out) == 0;
            proof {
                if empty {
                    assert(was.dom() =~= Set::<usize>::empty());
                    assert(was =~= Map::<usize, usize>::empty());
                } else {
                    assert(was != Map::<usize, usize>::empty());
                }
            }
            if !empty {
                dict_clear(&mut out);
                assert(dict_view(out) =~= Map::<usize, usize>::empty());
                return (out, true);
            }
            return (out, false);
        }
        match change {
            DictChange::Add { key, value } => {
                let chosen: Option<usize> = self.select.select(a, key, value);
                match chosen {
                    Some(new) => {
                        let _ = dict_insert(&mut out, key, new);
                        (out, true)
                    },
                    None => (out, false),
                }
            },
            DictChange::Update { key, old: _, new: value } => {
                let chosen: Option<usize> = self.select.select(a, key, value);
                match chosen {
                    Some(new) => {
                        let _ = dict_insert(&mut out, key, new);
                        (out, true)
                    },
                    None => {
                        let removed: Option<usize> = dict_remove(&mut out, key);
                        (out, removed.is_some())
                    },
                }
            },
            DictChange::Remove { key, value: _ } => {
                let removed: Option<usize> = dict_remove(&mut out, key);
                (out, removed.is_some())
            },
        }
    }
}

impl<S> SelectFold<S> {
    /// At `key`, the output is as before until the change there, and right from then on.
    proof fn lemma_settles_at<A>(
        &self,
        a: A,
        last: Map<usize, usize>,
        all: Map<usize, usize>,
        changes: Seq<DictChange>,
        len: usize,
        outs: Seq<Dict>,
        dids: Seq<bool>,
        key: usize,
        n: int,
    ) where S: Selects<A>
        requires
            0 <= n <= changes.len(),
            len > 0,
            dict_changes(last, all, changes),
            outs.len() == changes.len() + 1,
            dids.len() == changes.len(),
            selected(self.select, a, last, dict_view(outs[0]), key),
            forall|k: int|
                0 <= k < changes.len() ==> Folds::<Dict, A, Dict>::stepped(
                    self,
                    a,
                    outs[k],
                    #[trigger] changes[k],
                    len,
                    outs[k + 1],
                    dids[k],
                ),
        ensures
            (exists|k: int| 0 <= k < n && (#[trigger] changes[k]).at() == key) ==> selected(self.select, a, all, dict_view(outs[n]), key),
            !(exists|k: int| 0 <= k < n && (#[trigger] changes[k]).at() == key) ==> selected(self.select, a, last, dict_view(outs[n]), key),
        decreases n,
    {
        if n > 0 {
            self.lemma_settles_at(a, last, all, changes, len, outs, dids, key, n - 1);
            let change = changes[n - 1];
            assert(Folds::<Dict, A, Dict>::stepped(self, a, outs[n - 1], changes[n - 1], len, outs[n], dids[n - 1]));
            assert(change.between(last, all));
            if change.at() == key {
                if exists|k: int| 0 <= k < n - 1 && (#[trigger] changes[k]).at() == key {
                    let k = choose|k: int| 0 <= k < n - 1 && (#[trigger] changes[k]).at() == key;
                    assert(changes[k].at() < changes[n - 1].at());
                }
            } else {
                if exists|k: int| 0 <= k < n && (#[trigger] changes[k]).at() == key {
                    let k = choose|k: int| 0 <= k < n && (#[trigger] changes[k]).at() == key;
                    assert(k < n - 1);
                }
                assert(found_at(dict_view(outs[n]), key) == found_at(dict_view(outs[n - 1]), key));
            }
        }
    }
}

/// A poll asks the function about entries that were added or changed only: whatever it would say of the others now, they stay
/// as they were in the output, unless the dictionary has become empty.
pub proof fn unchanged_entries_are_kept<G: Reads<Dict>, S: Selects<()>>(
    a: UnorderedFold<Dict, SelectFold<S>, Dict>,
    b: UnorderedFold<Dict, SelectFold<S>, Dict>,
    before: &G,
    after: &G,
    poll: Poll,
    key: usize,
)
    requires
        fold_step::<G, Dict, Dict, SelectFold<S>>(a, b, before, after, poll),
        found_at(dict_view(a.last_observation), key) == found_at(dict_view(b.last_observation), key),
        dict_view(b.last_observation).dom().len() > 0,
    ensures
        found_at(dict_view(b.output->0), key) == found_at(dict_view(a.output->0), key),
{
    let last = dict_view(a.last_observation);
    let all = dict_view(b.last_observation);
    if ran::<Dict, (), Dict, SelectFold<S>>(a.f, (), last, all, a.output->0, b.output->0, poll is Updated) {
        let (changes, len, outs, dids) = choose|changes: Seq<DictChange>, len: usize, outs: Seq<Dict>, dids: Seq<bool>|
            #![trigger steps::<Dict, (), Dict, SelectFold<S>>(a.f, (), changes, len, outs, dids)]
            {
                &&& dict_changes(last, all, changes)
                &&& len == all.dom().len()
                &&& steps::<Dict, (), Dict, SelectFold<S>>(a.f, (), changes, len, outs, dids)
                &&& outs[0] == a.output->0
                &&& outs.last() == b.output->0
            };
        lemma_kept_at::<S>(a.f, last, all, changes, len, outs, dids, key, changes.len() as int);
    }
}

/// The steps by which a poll follows a dictionary are for entries that were added, changed or removed, each once.
pub proof fn steps_are_for_changes_only(last: Map<usize, usize>, all: Map<usize, usize>, changes: Seq<DictChange>, k: int)
    requires
        <Dict as Followed>::changes(last, all, changes),
        0 <= k < changes.len(),
    ensures
        found_at(last, changes[k].at()) != found_at(all, changes[k].at()),
        forall|m: int| 0 <= m < changes.len() && (#[trigger] changes[m]).at() == changes[k].at() ==> m == k,
{
    assert(changes[k].between(last, all));
    assert forall|m: int| 0 <= m < changes.len() && (#[trigger] changes[m]).at() == changes[k].at() implies m == k by {
        if m < k {
            assert(changes[m].at() < changes[k].at());
        } else if k < m {
            assert(changes[k].at() < changes[m].at());
        }
    }
}

proof fn lemma_kept_at<S: Selects<()>>(
    fold: SelectFold<S>,
    last: Map<usize, usize>,
    all: Map<usize, usize>,
    changes: Seq<DictChange>,
    len: usize,
    outs: Seq<Dict>,
    dids: Seq<bool>,
    key: usize,
    n: int,
)
    requires
        dict_changes(last, all, changes),
        len > 0,
        steps::<Dict, (), Dict, SelectFold<S>>(fold, (), changes, len, outs, dids),
        found_at(last, key) == found_at(all, key),
        0 <= n <= changes.len(),
    ensures
        found_at(dict_view(outs[n]), key) == found_at(dict_view(outs[0]), key),
    decreases n,
{
    if n > 0 {
        lemma_kept_at::<S>(fold, last, all, changes, len, outs, dids, key, n - 1);
        let change = changes[n - 1];
        assert(Folds::<Dict, (), Dict>::stepped(&fold, (), outs[n - 1], changes[n - 1], len, outs[n - 1 + 1], dids[n - 1]));
        assert(change.between(last, all));
        assert(change.at() != key);
    }
}

proof fn lemma_same_at(last: Map<usize, usize>, all: Map<usize, usize>, changes: Seq<DictChange>, key: usize)
    requires
        dict_changes(last, all, changes),
        !(exists|k: int| 0 <= k < changes.len() && (#[trigger] changes[k]).at() == key),
    ensures
        found_at(last, key) == found_at(all, key),
{
}

proof fn lemma_same_dicts(last: Map<usize, usize>, all: Map<usize, usize>, changes: Seq<DictChange>)
    requires
        dict_changes(last, all, changes),
        changes.len() == 0,
    ensures
        last == all,
{
    assert forall|key: usize| #[trigger] last.dom().contains(key) == all.dom().contains(key) && (last.contains_key(key) ==> last[key] == all[key]) by {
        lemma_same_at(last, all, changes, key);
    }
    assert(last.dom() =~= all.dom());
    assert(last =~= all);
}

/// Follows a dictionary by calling `f` on the output and every entry that is added or updated.
pub struct Increment<F, T> {
    pub initial: T,
    pub f: F,
}

impl<T: Clone, F: FnMut(T, &usize, &usize) -> T> Folds<Dict, (), T> for Increment<F, T> {
    open spec fn able(&self) -> bool {
        forall|out: T, k: usize, v: usize| call_requires(self.f, (out, &k, &v))
    }

    open spec fn begins(&self, out: T) -> bool {
        cloned(self.initial, out)
    }

    open spec fn stepped(&self, a: (), out: T, change: DictChange, len: usize, next: T, did: bool) -> bool {
        if len == 0 {
            next == out && !did
        } else {
            match change {
                DictChange::Add { key, value } => did && call_ensures(self.f, (out, &key, &value), next),
                DictChange::Update { key, new, .. } => did && call_ensures(self.f, (out, &key, &new), next),
                DictChange::Remove { .. } => next == out && !did,
            }
        }
    }

    open spec fn settled(&self, a: (), all: Map<usize, usize>, out: T) -> bool {
        true
    }

    proof fn begins_settled(&self, a: (), out: T) {
    }

    proof fn settles(
        &self,
        a: (),
        last: Map<usize, usize>,
        all: Map<usize, usize>,
        changes: Seq<DictChange>,
        len: usize,
        outs: Seq<T>,
        dids: Seq<bool>,
    ) {
    }

    fn begin(&self) -> (out: T) {
        self.initial.clone()
    }

    fn step(&mut self, a: &(), out: T, change: DictChange, len: usize) -> (r: (T, bool)) {
        if len == 0 {
            return (out, false);
        }
        match change {
            DictChange::Add { key, value } => ((self.f)(out, &key, &value), true),
            DictChange::Update { key, old: _, new } => ((self.f)(out, &key, &new), true),
            DictChange::Remove { key: _, value: _ } => (out, false),
        }
    }
}

/// Follows a dictionary by one function for each sort of change. A function also says whether it has
/// changed the output.
pub struct Reduction<F, Fu, Fr, T> {
    pub initial: T,
    pub add: F,
    pub update: Fu,
    pub remove: Fr,
}

impl<
    T: Clone,
    F: FnMut(T, &usize, &usize) -> (T, bool),
    Fu: FnMut(T, (&usize, &usize), &usize, &usize) -> (T, bool),
    Fr: FnMut(T, &usize, &usize) -> (T, bool),
> Folds<Dict, (), T> for Reduction<F, Fu, Fr, T> {
    open spec fn able(&self) -> bool {
        &&& forall|out: T, k: usize, v: usize| call_requires(self.add, (out, &k, &v))
        &&& forall|out: T, k: usize, v: usize, l: usize, w: usize| call_requires(self.update, (out, (&k, &v), &l, &w))
        &&& forall|out: T, k: usize, v: usize| call_requires(self.remove, (out, &k, &v))
    }

    open spec fn begins(&self, out: T) -> bool {
        cloned(self.initial, out)
    }

    open spec fn stepped(&self, a: (), out: T, change: DictChange, len: usize, next: T, did: bool) -> bool {
        match change {
            DictChange::Add { key, value } => call_ensures(self.add, (out, &key, &value), (next, did)),
            DictChange::Update { key, old, new } => call_ensures(self.update, (out, (&key, &old), &key, &new), (next, did)),
            DictChange::Remove { key, value } => call_ensures(self.remove, (out, &key, &value), (next, did)),
        }
    }

    open spec fn settled(&self, a: (), all: Map<usize, usize>, out: T) -> bool {
        true
    }

    proof fn begins_settled(&self, a: (), out: T) {
    }

    proof fn settles(
        &self,
        a: (),
        last: Map<usize, usize>,
        all: Map<usize, usize>,
        changes: Seq<DictChange>,
        len: usize,
        outs: Seq<T>,
        dids: Seq<bool>,
    ) {
    }

    fn begin(&self) -> (out: T) {
        self.initial.clone()
    }

    fn step(&mut self, a: &(), out: T, change: DictChange, len: usize) -> (r: (T, bool)) {
        match change {
            DictChange::Add { key, value } => (self.add)(out, &key, &value),
            DictChange::Update { key, old, new } => (self.update)(out, (&key, &old), &key, &new),
            DictChange::Remove { key, value } => (self.remove)(out, &key, &value),
        }
    }
}

/// Follows a collection by calling `f` on every change.
pub struct Stepwise<F, T> {
    pub initial: T,
    pub f: F,
}

impl<C: Followed, T: Clone, F: FnMut(T, C::Change, usize) -> (T, bool)> Folds<C, (), T> for Stepwise<F, T> {
    open spec fn able(&self) -> bool {
        forall|out: T, change: C::Change, len: usize| call_requires(self.f, (out, change, len))
    }

    open spec fn begins(&self, out: T) -> bool {
        cloned(self.initial, out)
    }

    open spec fn stepped(&self, a: (), out: T, change: C::Change, len: usize, next: T, did: bool) -> bool {
        call_ensures(self.f, (out, change, len), (next, did))
    }

    open spec fn settled(&self, a: (), all: C::Model, out: T) -> bool {
        true
    }

    proof fn begins_settled(&self, a: (), out: T) {
    }

    proof fn settles(&self, a: (), last: C::Model, all: C::Model, changes: Seq<C::Change>, len: usize, outs: Seq<T>, dids: Seq<bool>) {
    }

    fn begin(&self) -> (out: T) {
        self.initial.clone()
    }

    fn step(&mut self, a: &(), out: T, change: C::Change, len: usize) -> (r: (T, bool)) {
        (self.f)(out, change, len)
    }
}

/// Follows a collection by calling `f` on every change and the output of another anchor.
pub struct StepwiseWith<F, T> {
    pub initial: T,
    pub f: F,
}

impl<C: Followed, A, T: Clone, F: FnMut(&A, T, C::Change, usize) -> (T, bool)> Folds<C, A, T> for StepwiseWith<F, T> {
    open spec fn able(&self) -> bool {
        forall|a: A, out: T, change: C::Change, len: usize| call_requires(self.f, (&a, out, change, len))
    }

    open spec fn begins(&self, out: T) -> bool {
        cloned(self.initial, out)
    }

    open spec fn stepped(&self, a: A, out: T, change: C::Change, len: usize, next: T, did: bool) -> bool {
        call_ensures(self.f, (&a, out, change, len), (next, did))
    }

    open spec fn settled(&self, a: A, all: C::Model, out: T) -> bool {
        true
    }

    proof fn begins_settled(&self, a: A, out: T) {
    }

    proof fn settles(&self, a: A, last: C::Model, all: C::Model, changes: Seq<C::Change>, len: usize, outs: Seq<T>, dids: Seq<bool>) {
    }

    fn begin(&self) -> (out: T) {
        self.initial.clone()
    }

    fn step(&mut self, a: &A, out: T, change: C::Change, len: usize) -> (r: (T, bool)) {
        (self.f)(a, out, change, len)
    }
}

/// A follower that has not been polled yet.
pub open spec fn fresh_fold<C: Followed, T, S: Folds<C, (), T>>(fold: UnorderedFold<C, S, T>, input: Anchor<C>, f: S) -> bool {
    &&& fold.input == input
    &&& fold.f == f
    &&& fold.last_observation.model() == C::none()
    &&& fold.output is Some && f.begins(fold.output->0)
    &&& fold.output_stale
    &&& !fold.degraded_on_invalid
    &&& fold.inv()
}

/// A follower with another input that has not been polled yet.
pub open spec fn fresh_fold_with<C: Followed, A: PartialEq + Clone, T, S: Folds<C, A, T>>(
    fold: UnorderedFoldWithAnchor<C, A, S, T>,
    input: Anchor<C>,
    anchor: Anchor<A>,
    f: S,
) -> bool {
    &&& fold.input == input
    &&& fold.anchor == anchor
    &&& fold.f == f
    &&& fold.last_observation.model() == C::none()
    &&& fold.last_observation_a is None
    &&& fold.output is Some && f.begins(fold.output->0)
    &&& fold.output_stale
    &&& !fold.degraded_on_invalid
    &&& fold.inv()
}

impl Anchor<Dict> {
    /// The entries that `f` says yes to.
    pub fn filter<F: FnMut(&usize, &usize) -> bool>(&self, pool_size: usize, f: F) -> (fold: UnorderedFold<Dict, SelectFold<Kept<F>>, Dict>)
        requires
            pool_size <= POOL_LIMIT,
            forall|k: usize, v: usize| call_requires(f, (&k, &v)),
        ensures
            fresh_fold(fold, *self, (SelectFold { pool_size, select: (Kept { f }) })),
    {
        UnorderedFold::new(self.clone(), SelectFold { pool_size, select: Kept { f } })
    }

    /// The entries that `f` says yes to, given the output of another anchor.
    pub fn filter_with_anchor<A: PartialEq + Clone, F: FnMut(&A, &usize, &usize) -> bool>(
        &self,
        pool_size: usize,
        anchor: &Anchor<A>,
        f: F,
    ) -> (fold: UnorderedFoldWithAnchor<Dict, A, SelectFold<KeptWith<F>>, Dict>)
        requires
            pool_size <= POOL_LIMIT,
            forall|a: A, k: usize, v: usize| call_requires(f, (&a, &k, &v)),
        ensures
            fresh_fold_with(fold, *self, *anchor, (SelectFold { pool_size, select: (KeptWith { f }) })),
    {
        UnorderedFoldWithAnchor::new(self.clone(), anchor.clone(), SelectFold { pool_size, select: KeptWith { f } })
    }

    /// All entries, with the values that `f` makes of them.
    pub fn map_<F: FnMut(&usize, &usize) -> usize>(&self, pool_size: usize, f: F) -> (fold: UnorderedFold<Dict, SelectFold<Mapped<F>>, Dict>)
        requires
            pool_size <= POOL_LIMIT,
            forall|k: usize, v: usize| call_requires(f, (&k, &v)),
        ensures
            fresh_fold(fold, *self, (SelectFold { pool_size, select: (Mapped { f }) })),
    {
        UnorderedFold::new(self.clone(), SelectFold { pool_size, select: Mapped { f } })
    }

    /// All entries, with the values that `f` makes of them and the output of another anchor.
    pub fn map_with_anchor<A: PartialEq + Clone, F: FnMut(&A, &usize, &usize) -> usize>(
        &self,
        pool_size: usize,
        anchor: &Anchor<A>,
        f: F,
    ) -> (fold: UnorderedFoldWithAnchor<Dict, A, SelectFold<MappedWith<F>>, Dict>)
        requires
            pool_size <= POOL_LIMIT,
            forall|a: A, k: usize, v: usize| call_requires(f, (&a, &k, &v)),
        ensures
            fresh_fold_with(fold, *self, *anchor, (SelectFold { pool_size, select: (MappedWith { f }) })),
    {
        UnorderedFoldWithAnchor::new(self.clone(), anchor.clone(), SelectFold { pool_size, select: MappedWith { f } })
    }

    /// The entries that `f` makes a value of, with these values.
    pub fn filter_map<F: FnMut(&usize, &usize) -> Option<usize>>(
        &self,
        pool_size: usize,
        f: F,
    ) -> (fold: UnorderedFold<Dict, SelectFold<Chosen<F>>, Dict>)
        requires
            pool_size <= POOL_LIMIT,
            forall|k: usize, v: usize| call_requires(f, (&k, &v)),
        ensures
            fresh_fold(fold, *self, (SelectFold { pool_size, select: (Chosen { f }) })),
    {
        UnorderedFold::new(self.clone(), SelectFold { pool_size, select: Chosen { f } })
    }

    /// The entries that `f` makes a value of, given the output of another anchor, with these values.
    pub fn filter_map_with_anchor<A: PartialEq + Clone, F: FnMut(&A, &usize, &usize) -> Option<usize>>(
        &self,
        pool_size: usize,
        anchor: &Anchor<A>,
        f: F,
    ) -> (fold: UnorderedFoldWithAnchor<Dict, A, SelectFold<ChosenWith<F>>, Dict>)
        requires
            pool_size <= POOL_LIMIT,
            forall|a: A, k: usize, v: usize| call_requires(f, (&a, &k, &v)),
        ensures
            fresh_fold_with(fold, *self, *anchor, (SelectFold { pool_size, select: (ChosenWith { f }) })),
    {
        UnorderedFoldWithAnchor::new(self.clone(), anchor.clone(), SelectFold { pool_size, select: ChosenWith { f } })
    }

    /// An output that `f` is called on for every entry that is added or updated. What is removed leaves
    /// it as it is.
    pub fn increment_reduction<F: FnMut(T, &usize, &usize) -> T, T: Clone>(
        &self,
        initial_state: T,
        f: F,
    ) -> (fold: UnorderedFold<Dict, Increment<F, T>, T>)
        requires
            forall|out: T, k: usize, v: usize| call_requires(f, (out, &k, &v)),
        ensures
            fresh_fold(fold, *self, (Increment { initial: initial_state, f })),
    {
        UnorderedFold::new(self.clone(), Increment { initial: initial_state, f })
    }

    /// An output that is brought up to date by one function for each sort of change.
    pub fn reduction<
        F: FnMut(T, &usize, &usize) -> (T, bool),
        Fu: FnMut(T, (&usize, &usize), &usize, &usize) -> (T, bool),
        Fr: FnMut(T, &usize, &usize) -> (T, bool),
        T: Clone,
    >(&self, initial_state: T, add: F, update: Fu, remove: Fr) -> (fold: UnorderedFold<Dict, Reduction<F, Fu, Fr, T>, T>)
        requires
            forall|out: T, k: usize, v: usize| call_requires(add, (out, &k, &v)),
            forall|out: T, k: usize, v: usize, l: usize, w: usize| call_requires(update, (out, (&k, &v), &l, &w)),
            forall|out: T, k: usize, v: usize| call_requires(remove, (out, &k, &v)),
        ensures
            fresh_fold(fold, *self, (Reduction { initial: initial_state, add, update, remove })),
    {
        UnorderedFold::new(self.clone(), Reduction { initial: initial_state, add, update, remove })
    }

    /// An output that `f` is called on for every change.
    pub fn unordered_fold<T: Clone, F: FnMut(T, DictChange, usize) -> (T, bool)>(
        &self,
        initial_state: T,
        f: F,
    ) -> (fold: UnorderedFold<Dict, Stepwise<F, T>, T>)
        requires
            forall|out: T, change: DictChange, len: usize| call_requires(f, (out, change, len)),
        ensures
            fresh_fold(fold, *self, (Stepwise { initial: initial_state, f })),
    {
        UnorderedFold::new(self.clone(), Stepwise { initial: initial_state, f })
    }

    /// An output that `f` is called on for every change, and for all entries when the output of another
    /// anchor changes.
    pub fn unordered_fold_with_anchor<A: PartialEq + Clone, T: Clone, F: FnMut(&A, T, DictChange, usize) -> (T, bool)>(
        &self,
        anchor: &Anchor<A>,
        initial_state: T,
        f: F,
    ) -> (fold: UnorderedFoldWithAnchor<Dict, A, StepwiseWith<F, T>, T>)
        requires
            forall|a: A, out: T, change: DictChange, len: usize| call_requires(f, (&a, out, change, len)),
        ensures
            fresh_fold_with(fold, *self, *anchor, (StepwiseWith { initial: initial_state, f })),
    {
        UnorderedFoldWithAnchor::new(self.clone(), anchor.clone(), StepwiseWith { initial: initial_state, f })
    }
}

} // verus!
