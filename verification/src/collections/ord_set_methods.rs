//! Anchors that follow a set item by item.

use crate::collections::fold::{Folds, Followed, UnorderedFold};
use crate::collections::ord_map_methods::{fresh_fold, Increment, Kept, Reduction, Stepwise};
use crate::collections::persistent::{
    counts, set_changes, set_clear, set_clone, set_diff, set_insert, set_len, set_new, set_remove, set_view, SetChange,
};
use crate::expert::Anchor;
use im_rc::OrdSet;
use vstd::prelude::*;

verus! {

impl Followed for OrdSet<usize> {
    type Model = Set<usize>;

    type Change = SetChange;

    open spec fn model(&self) -> Set<usize> {
        set_view(*self)
    }

    open spec fn none() -> Set<usize> {
        Set::empty()
    }

    open spec fn size(model: Set<usize>) -> nat {
        model.len()
    }

    open spec fn changes(a: Set<usize>, b: Set<usize>, changes: Seq<SetChange>) -> bool {
        b.finite() && set_changes(a, b, changes)
    }

    fn nothing() -> (c: OrdSet<usize>) {
        set_new()
    }

    fn count(&self) -> (n: usize) {
        set_len(self)
    }

    fn copy(&self) -> (c: OrdSet<usize>) {
        set_clone(self)
    }

    fn diff(&self, new: &OrdSet<usize>) -> (changes: Vec<SetChange>) {
        let len: usize = set_len(new);
        assert(counts(set_view(*new), len));
        set_diff(self, new)
    }
}

/// `out` holds the items of `all` that `f` says yes to.
pub open spec fn sifted<F: FnMut(&usize) -> bool>(f: F, all: Set<usize>, out: Set<usize>) -> bool {
    forall|key: usize| #[trigger] sifted_at(f, all, out, key)
}

/// Whether `out` holds `key` is right.
pub open spec fn sifted_at<F: FnMut(&usize) -> bool>(f: F, all: Set<usize>, out: Set<usize>, key: usize) -> bool {
    if all.contains(key) {
        call_ensures(f, (&key,), out.contains(key))
    } else {
        !out.contains(key)
    }
}

impl<F: FnMut(&usize) -> bool> Folds<OrdSet<usize>, (), OrdSet<usize>> for Kept<F> {
    open spec fn able(&self) -> bool {
        forall|k: usize| call_requires(self.f, (&k,))
    }

    open spec fn begins(&self, out: OrdSet<usize>) -> bool {
        set_view(out) == Set::<usize>::empty()
    }

    /// Once the collection is empty so is the output. An item that is added and not kept changes nothing.
    open spec fn stepped(&self, a: (), out: OrdSet<usize>, change: SetChange, len: usize, next: OrdSet<usize>, did: bool) -> bool {
        let was = set_view(out);
        let is = set_view(next);
        if len == 0 {
            is == Set::<usize>::empty() && did == (was != Set::<usize>::empty())
        } else {
            match change {
                SetChange::Add { key } => {
                    &&& call_ensures(self.f, (&key,), did)
                    &&& is == (if did {
                        was.insert(key)
                    } else {
                        was
                    })
                },
                SetChange::Update { old, new } => exists|yes: bool|
                    #![trigger call_ensures(self.f, (&new,), yes)]
                    call_ensures(self.f, (&new,), yes) && did == (yes || was.contains(old)) && is == (if yes {
                        was.insert(new)
                    } else {
                        was.remove(old)
                    }),
                SetChange::Remove { key } => did == was.contains(key) && is == was.remove(key),
            }
        }
    }

    open spec fn settled(&self, a: (), all: Set<usize>, out: OrdSet<usize>) -> bool {
        sifted(self.f, all, set_view(out))
    }

    proof fn begins_settled(&self, a: (), out: OrdSet<usize>) {
        assert forall|key: usize| #[trigger] sifted_at(self.f, Set::empty(), set_view(out), key) by {
        }
    }

    proof fn settles(
        &self,
        a: (),
        last: Set<usize>,
        all: Set<usize>,
        changes: Seq<SetChange>,
        len: usize,
        outs: Seq<OrdSet<usize>>,
        dids: Seq<bool>,
    ) {
        let n = changes.len() as int;
        if len == 0 {
            assert(all =~= Set::<usize>::empty());
            if n > 0 {
                assert(self.stepped(a, outs[n - 1], changes[n - 1], len, outs[n], dids[n - 1]));
                assert forall|key: usize| #[trigger] sifted_at(self.f, all, set_view(outs.last()), key) by {
                }
            } else {
                assert(last =~= all);
            }
        } else {
            assert forall|key: usize| #[trigger] sifted_at(self.f, all, set_view(outs.last()), key) by {
                assert(sifted_at(self.f, last, set_view(outs[0]), key));
                self.lemma_settles_at(last, all, changes, len, outs, dids, key, n);
            }
        }
    }

    fn begin(&self) -> (out: OrdSet<usize>) {
        set_new()
    }

    fn step(&mut self, a: &(), out: OrdSet<usize>, change: SetChange, len: usize) -> (r: (OrdSet<usize>, bool)) {
        let mut out: OrdSet<usize> = out;
        let ghost was = set_view(out);
        if len == 0 {
            let empty: bool = set_len(&out) == 0;
            proof {
                if empty {
                    assert(was =~= Set::<usize>::empty());
                }
            }
            if !empty {
                set_clear(&mut out);
                return (out, true);
            }
            return (out, false);
        }
        match change {
            SetChange::Add { key } => {
                if (self.f)(&key) {
                    let _ = set_insert(&mut out, key);
                    return (out, true);
                }
                (out, false)
            },
            SetChange::Update { old, new } => {
                if (self.f)(&new) {
                    let _ = set_insert(&mut out, new);
                    return (out, true);
                }
                let removed: Option<usize> = set_remove(&mut out, old);
                (out, removed.is_some())
            },
            SetChange::Remove { key } => {
                let removed: Option<usize> = set_remove(&mut out, key);
                (out, removed.is_some())
            },
        }
    }
}

impl<F: FnMut(&usize) -> bool> Kept<F> {
    /// At `key`, the output is as before until the change there, and right from then on.
    proof fn lemma_settles_at(
        &self,
        last: Set<usize>,
        all: Set<usize>,
        changes: Seq<SetChange>,
        len: usize,
        outs: Seq<OrdSet<usize>>,
        dids: Seq<bool>,
        key: usize,
        n: int,
    )
        requires
            0 <= n <= changes.len(),
            len > 0,
            set_changes(last, all, changes),
            outs.len() == changes.len() + 1,
            dids.len() == changes.len(),
            sifted_at(self.f, last, set_view(outs[0]), key),
            forall|k: int|
                0 <= k < changes.len() ==> Folds::<OrdSet<usize>, (), OrdSet<usize>>::stepped(
                    self,
                    (),
                    outs[k],
                    #[trigger] changes[k],
                    len,
                    outs[k + 1],
                    dids[k],
                ),
        ensures
            (exists|k: int| 0 <= k < n && (#[trigger] changes[k]).at() == key) ==> sifted_at(self.f, all, set_view(outs[n]), key),
            !(exists|k: int| 0 <= k < n && (#[trigger] changes[k]).at() == key) ==> sifted_at(self.f, last, set_view(outs[n]), key),
        decreases n,
    {
        if n > 0 {
            self.lemma_settles_at(last, all, changes, len, outs, dids, key, n - 1);
            let change = changes[n - 1];
            assert(Folds::<OrdSet<usize>, (), OrdSet<usize>>::stepped(self, (), outs[n - 1], changes[n - 1], len, outs[n], dids[n - 1]));
            assert(change.between(last, all));
            if change.at() == key {
                if exists|k: int| 0 <= k < n - 1 && (#[trigger] changes[k]).at() == key {
                    let k = choose|k: int| 0 <= k < n - 1 && (#[trigger] changes[k]).at() == key;
                    assert(changes[k].at() < changes[n - 1].at());
                }
            } else {
                if exists|k: int| 0 <= k < n && (#[trigger] changes[k]).at() == key {
                    let k = choose|k: int| 0 <= k < n && (#[trigger] changes[k]).at() == key;
                    assert(k < n - 1);
                }
                assert(set_view(outs[n]).contains(key) == set_view(outs[n - 1]).contains(key));
            }
        }
    }
}

impl<T: Clone, F: FnMut(T, &usize) -> T> Folds<OrdSet<usize>, (), T> for Increment<F, T> {
    open spec fn able(&self) -> bool {
        forall|out: T, k: usize| call_requires(self.f, (out, &k))
    }

    open spec fn begins(&self, out: T) -> bool {
        cloned(self.initial, out)
    }

    open spec fn stepped(&self, a: (), out: T, change: SetChange, len: usize, next: T, did: bool) -> bool {
        if len == 0 {
            next == out && !did
        } else {
            match change {
                SetChange::Add { key } => did && call_ensures(self.f, (out, &key), next),
                SetChange::Update { new, .. } => did && call_ensures(self.f, (out, &new), next),
                SetChange::Remove { .. } => next == out && !did,
            }
        }
    }

    open spec fn settled(&self, a: (), all: Set<usize>, out: T) -> bool {
        true
    }

    proof fn begins_settled(&self, a: (), out: T) {
    }

    proof fn settles(
        &self,
        a: (),
        last: Set<usize>,
        all: Set<usize>,
        changes: Seq<SetChange>,
        len: usize,
        outs: Seq<T>,
        dids: Seq<bool>,
    ) {
    }

    fn begin(&self) -> (out: T) {
        self.initial.clone()
    }

    fn step(&mut self, a: &(), out: T, change: SetChange, len: usize) -> (r: (T, bool)) {
        if len == 0 {
            return (out, false);
        }
        match change {
            SetChange::Add { key } => ((self.f)(out, &key), true),
            SetChange::Update { old: _, new } => ((self.f)(out, &new), true),
            SetChange::Remove { key: _ } => (out, false),
        }
    }
}

impl<
    T: Clone,
    F: FnMut(T, &usize) -> (T, bool),
    Fu: FnMut(T, &usize, &usize) -> (T, bool),
    Fr: FnMut(T, &usize) -> (T, bool),
> Folds<OrdSet<usize>, (), T> for Reduction<F, Fu, Fr, T> {
    open spec fn able(&self) -> bool {
        &&& forall|out: T, k: usize| call_requires(self.add, (out, &k))
        &&& forall|out: T, k: usize, l: usize| call_requires(self.update, (out, &k, &l))
        &&& forall|out: T, k: usize| call_requires(self.remove, (out, &k))
    }

    open spec fn begins(&self, out: T) -> bool {
        cloned(self.initial, out)
    }

    open spec fn stepped(&self, a: (), out: T, change: SetChange, len: usize, next: T, did: bool) -> bool {
        match change {
            SetChange::Add { key } => call_ensures(self.add, (out, &key), (next, did)),
            SetChange::Update { old, new } => call_ensures(self.update, (out, &old, &new), (next, did)),
            SetChange::Remove { key } => call_ensures(self.remove, (out, &key), (next, did)),
        }
    }

    open spec fn settled(&self, a: (), all: Set<usize>, out: T) -> bool {
        true
    }

    proof fn begins_settled(&self, a: (), out: T) {
    }

    proof fn settles(
        &self,
        a: (),
        last: Set<usize>,
        all: Set<usize>,
        changes: Seq<SetChange>,
        len: usize,
        outs: Seq<T>,
        dids: Seq<bool>,
    ) {
    }

    fn begin(&self) -> (out: T) {
        self.initial.clone()
    }

    fn step(&mut self, a: &(), out: T, change: SetChange, len: usize) -> (r: (T, bool)) {
        match change {
            SetChange::Add { key } => (self.add)(out, &key),
            SetChange::Update { old, new } => (self.update)(out, &old, &new),
            SetChange::Remove { key } => (self.remove)(out, &key),
        }
    }
}

impl Anchor<OrdSet<usize>> {
    /// The items that `f` says yes to.
    pub fn filter<F: FnMut(&usize) -> bool>(&self, f: F) -> (fold: UnorderedFold<OrdSet<usize>, Kept<F>, OrdSet<usize>>)
        requires
            forall|k: usize| call_requires(f, (&k,)),
        ensures
            fresh_fold(fold, *self, (Kept { f })),
    {
        self.filter_map(f)
    }

    /// The items that `f` says yes to.
    pub fn filter_map<F: FnMut(&usize) -> bool>(&self, f: F) -> (fold: UnorderedFold<OrdSet<usize>, Kept<F>, OrdSet<usize>>)
        requires
            forall|k: usize| call_requires(f, (&k,)),
        ensures
            fresh_fold(fold, *self, (Kept { f })),
    {
        UnorderedFold::new(self.clone(), Kept { f })
    }

    /// An output that `f` is called on for every item that is added. What is removed leaves it as it is.
    pub fn increment_reduction<F: FnMut(T, &usize) -> T, T: Clone>(
        &self,
        initial_state: T,
        f: F,
    ) -> (fold: UnorderedFold<OrdSet<usize>, Increment<F, T>, T>)
        requires
            forall|out: T, k: usize| call_requires(f, (out, &k)),
        ensures
            fresh_fold(fold, *self, (Increment { initial: initial_state, f })),
    {
        UnorderedFold::new(self.clone(), Increment { initial: initial_state, f })
    }

    /// An output that is brought up to date by one function for each sort of change.
    pub fn reduction<
        F: FnMut(T, &usize) -> (T, bool),
        Fu: FnMut(T, &usize, &usize) -> (T, bool),
        Fr: FnMut(T, &usize) -> (T, bool),
        T: Clone,
    >(&self, initial_state: T, add: F, update: Fu, remove: Fr) -> (fold: UnorderedFold<OrdSet<usize>, Reduction<F, Fu, Fr, T>, T>)
        requires
            forall|out: T, k: usize| call_requires(add, (out, &k)),
            forall|out: T, k: usize, l: usize| call_requires(update, (out, &k, &l)),
            forall|out: T, k: usize| call_requires(remove, (out, &k)),
        ensures
            fresh_fold(fold, *self, (Reduction { initial: initial_state, add, update, remove })),
    {
        UnorderedFold::new(self.clone(), Reduction { initial: initial_state, add, update, remove })
    }

    /// An output that `f` is called on for every change.
    pub fn unordered_fold<T: Clone, F: FnMut(T, SetChange, usize) -> (T, bool)>(
        &self,
        initial_state: T,
        f: F,
    ) -> (fold: UnorderedFold<OrdSet<usize>, Stepwise<F, T>, T>)
        requires
            forall|out: T, change: SetChange, len: usize| call_requires(f, (out, change, len)),
        ensures
            fresh_fold(fold, *self, (Stepwise { initial: initial_state, f })),
    {
        UnorderedFold::new(self.clone(), Stepwise { initial: initial_state, f })
    }
}

} // verus!
