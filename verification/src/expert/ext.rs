//! Anchors that are calculated from other anchors.

pub mod counted;
pub mod cutoff;
pub mod dirty_observer;
pub mod either;
pub mod held_back;
pub mod map;
pub mod map_mut;
pub mod split;
pub mod then_clone;
pub mod then_dedupe;
pub mod thens;
pub mod update_observer;

use crate::expert::ext::cutoff::{Cutoff, Debounce};
use crate::expert::ext::dirty_observer::DirtyObserverAnchor;
use crate::expert::ext::either::Either;
use crate::expert::ext::map::MapAnchor;
use crate::expert::ext::map_mut::MapMut;
use crate::expert::ext::then_clone::ThenClone1;
use crate::expert::ext::then_dedupe::{ThenDedupe, ThenDedupe1};
use crate::expert::ext::thens::Then;
use crate::expert::ext::update_observer::UpdateObserverAnchor;
use crate::expert::inputs::{Inputs, Takes, TakesMut};
use crate::expert::var_val_or_anchor::ValOrAnchor;
use crate::expert::Anchor;
use vstd::prelude::*;

verus! {

/// What can be calculated from a tuple of anchors. The anchors that are made here still have to be mounted.
pub trait MultiAnchor: Inputs + Sized {
    /// An anchor whose output is `f` of the outputs.
    fn map<F, Out>(self, f: F) -> (map: MapAnchor<Self, F, Out>) where Self: Takes<F, Out>
        requires
            self.callable(f),
        ensures
            map == (MapAnchor::<Self, F, Out> {
                f,
                output: None,
                output_stale: true,
                degraded_on_invalid: false,
                anchors: self,
            }),
    ;

    /// An anchor with the output `initial`, which `f` works on whenever the outputs change.
    fn map_mut<F, Out>(self, initial: Out, f: F) -> (map: MapMut<Self, F, Out>) where Self: TakesMut<F, Out>
        requires
            self.callable_mut(f),
        ensures
            map == (MapMut::<Self, F, Out> {
                f,
                output: initial,
                output_stale: true,
                degraded_on_invalid: false,
                anchors: self,
            }),
    ;

    /// An anchor that passes on the output of the anchor that `f` chooses.
    fn then_by<F, Out>(self, f: F) -> (chooser: Then<Self, Out, F>) where Self: Takes<F, Anchor<Out>>
        requires
            self.callable(f),
        ensures
            chooser == (Then::<Self, Out, F> { f, f_anchor: None, output_stale: true, switched: false, anchors: self }),
    ;

    /// An anchor whose output is the value that `f` gives, or the output of the anchor that it chooses.
    fn either<F, Out: PartialEq>(self, f: F) -> (either: Either<Self, Out, F>) where Self: Takes<F, ValOrAnchor<Out>>
        requires
            self.callable(f),
        ensures
            either == (Either::<Self, Out, F> {
                f,
                either_anchor: None,
                output_stale: true,
                degraded_on_invalid: false,
                switched: false,
                anchors: self,
            }),
    ;

    /// An anchor that counts how often some output may have changed.
    fn dirty_observer(self) -> (observer: DirtyObserverAnchor<Self>)
        ensures
            observer == (DirtyObserverAnchor { anchors: self, version: 0, output_stale: true }),
    ;

    /// An anchor that counts how often some output has changed.
    fn update_observer(self) -> (observer: UpdateObserverAnchor<Self>)
        ensures
            observer == (UpdateObserverAnchor {
                anchors: self,
                version: 0,
                output_stale: true,
                degraded_on_invalid: false,
            }),
    ;
}

impl<A: Inputs> MultiAnchor for A {
    fn map<F, Out>(self, f: F) -> (map: MapAnchor<Self, F, Out>) where Self: Takes<F, Out> {
        MapAnchor::new(self, f)
    }

    fn map_mut<F, Out>(self, initial: Out, f: F) -> (map: MapMut<Self, F, Out>) where Self: TakesMut<F, Out> {
        MapMut::new(self, initial, f)
    }

    fn then_by<F, Out>(self, f: F) -> (chooser: Then<Self, Out, F>) where Self: Takes<F, Anchor<Out>> {
        Then::new(self, f)
    }

    fn either<F, Out: PartialEq>(self, f: F) -> (either: Either<Self, Out, F>) where Self: Takes<F, ValOrAnchor<Out>> {
        Either::new(self, f)
    }

    fn dirty_observer(self) -> (observer: DirtyObserverAnchor<Self>) {
        DirtyObserverAnchor::new(self)
    }

    fn update_observer(self) -> (observer: UpdateObserverAnchor<Self>) {
        UpdateObserverAnchor::new(self)
    }
}

/// What can be calculated from one anchor. The anchors that are made here still have to be mounted.
impl<O1> Anchor<O1> {
    /// An anchor whose output is `f` of the output.
    pub fn map<F: FnMut(&O1) -> Out, Out>(&self, f: F) -> (map: MapAnchor<(Anchor<O1>,), F, Out>)
        requires
            forall|v: O1| call_requires(f, (&v,)),
        ensures
            map == (MapAnchor::<(Anchor<O1>,), F, Out> {
                f,
                output: None,
                output_stale: true,
                degraded_on_invalid: false,
                anchors: (*self,),
            }),
    {
        MapAnchor::new((self.clone(),), f)
    }

    /// An anchor with the output `initial`, which `f` works on whenever the output changes.
    pub fn map_mut<F: FnMut(&mut Out, &O1) -> bool, Out>(&self, initial: Out, f: F) -> (map: MapMut<
        (Anchor<O1>,),
        F,
        Out,
    >)
        requires
            forall|out: &mut Out, v: O1| call_requires(f, (out, &v)),
        ensures
            map == (MapMut::<(Anchor<O1>,), F, Out> {
                f,
                output: initial,
                output_stale: true,
                degraded_on_invalid: false,
                anchors: (*self,),
            }),
    {
        MapMut::new((self.clone(),), initial, f)
    }

    /// An anchor that passes on the output of the anchor that `f` chooses.
    pub fn then_by<F: FnMut(&O1) -> Anchor<Out>, Out>(&self, f: F) -> (chooser: Then<(Anchor<O1>,), Out, F>)
        requires
            forall|v: O1| call_requires(f, (&v,)),
        ensures
            chooser == (Then::<(Anchor<O1>,), Out, F> { f, f_anchor: None, output_stale: true, switched: false, anchors: (*self,) }),
    {
        Then::new((self.clone(),), f)
    }

    /// An anchor that keeps a clone of the output of the anchor that `f` chooses.
    pub fn then_clone<F: FnMut(&O1) -> Anchor<Out>, Out: Clone>(&self, initial: Out, f: F) -> (chooser: ThenClone1<
        O1,
        Out,
        F,
    >)
        requires
            forall|v: O1| call_requires(f, (&v,)),
        ensures
            chooser == (ThenClone1 {
                f,
                f_anchor: None::<Anchor<Out>>,
                cached_output: initial,
                degraded_on_invalid: false,
                output_stale: true,
                output_dirty: false,
                switched: false,
                anchor: *self,
            }),
    {
        ThenClone1::new(self.clone(), initial, f)
    }

    /// An anchor that passes on the output of the anchor that `f` chooses, and asks `f` again only where the output
    /// differs.
    pub fn then_dedupe<F: FnMut(&O1) -> Anchor<Out>, Out>(&self, f: F) -> (chooser: ThenDedupe1<O1, Out, F>) where
        O1: Clone + PartialEq,

        requires
            forall|v: O1| call_requires(f, (&v,)),
        ensures
            chooser == (ThenDedupe::<(Anchor<O1>,), (O1,), Out, F> {
                f,
                f_anchor: None,
                output_stale: true,
                switched: false,
                anchors: (*self,),
                cached_inputs: None,
            }),
    {
        ThenDedupe::new((self.clone(),), f)
    }

    /// The same by two outputs.
    pub fn then_dedupe2<O2: Clone + PartialEq, F: FnMut(&O1, &O2) -> Anchor<Out>, Out>(
        &self,
        other: &Anchor<O2>,
        f: F,
    ) -> (chooser: ThenDedupe<(Anchor<O1>, Anchor<O2>), (O1, O2), Out, F>) where O1: Clone + PartialEq
        requires
            forall|v: O1, w: O2| call_requires(f, (&v, &w)),
        ensures
            chooser == (ThenDedupe::<(Anchor<O1>, Anchor<O2>), (O1, O2), Out, F> {
                f,
                f_anchor: None,
                output_stale: true,
                switched: false,
                anchors: (*self, *other),
                cached_inputs: None,
            }),
    {
        ThenDedupe::new((self.clone(), other.clone()), f)
    }

    /// The same by three outputs.
    pub fn then_dedupe3<
        O2: Clone + PartialEq,
        O3: Clone + PartialEq,
        F: FnMut(&O1, &O2, &O3) -> Anchor<Out>,
        Out,
    >(&self, o2: &Anchor<O2>, o3: &Anchor<O3>, f: F) -> (chooser: ThenDedupe<
        (Anchor<O1>, Anchor<O2>, Anchor<O3>),
        (O1, O2, O3),
        Out,
        F,
    >) where O1: Clone + PartialEq
        requires
            forall|v: O1, w: O2, x: O3| call_requires(f, (&v, &w, &x)),
        ensures
            chooser == (ThenDedupe::<(Anchor<O1>, Anchor<O2>, Anchor<O3>), (O1, O2, O3), Out, F> {
                f,
                f_anchor: None,
                output_stale: true,
                switched: false,
                anchors: (*self, *o2, *o3),
                cached_inputs: None,
            }),
    {
        ThenDedupe::new((self.clone(), o2.clone(), o3.clone()), f)
    }

    /// An anchor whose output is the value that `f` gives, or the output of the anchor that it chooses.
    pub fn either<F: FnMut(&O1) -> ValOrAnchor<Out>, Out: PartialEq>(&self, f: F) -> (either: Either<
        (Anchor<O1>,),
        Out,
        F,
    >)
        requires
            forall|v: O1| call_requires(f, (&v,)),
        ensures
            either == (Either::<(Anchor<O1>,), Out, F> {
                f,
                either_anchor: None,
                output_stale: true,
                degraded_on_invalid: false,
                switched: false,
                anchors: (*self,),
            }),
    {
        Either::new((self.clone(),), f)
    }

    /// An anchor that passes on the output, and reports a change of it only where `f` answers `true`.
    pub fn cutoff<F: FnMut(&O1) -> bool>(&self, f: F) -> (cutoff: Cutoff<O1, F>)
        requires
            forall|v: O1| call_requires(f, (&v,)),
        ensures
            cutoff == (Cutoff { f, anchor: *self }),
    {
        Cutoff::new(self.clone(), f)
    }

    /// An anchor that counts how often the output has changed.
    pub fn update_observer(&self) -> (observer: UpdateObserverAnchor<(Anchor<O1>,)>)
        ensures
            observer == (UpdateObserverAnchor {
                anchors: (*self,),
                version: 0,
                output_stale: true,
                degraded_on_invalid: false,
            }),
    {
        UpdateObserverAnchor::new((self.clone(),))
    }

    /// An anchor that counts how often the output may have changed.
    pub fn dirty_observer(&self) -> (observer: DirtyObserverAnchor<(Anchor<O1>,)>)
        ensures
            observer == (DirtyObserverAnchor { anchors: (*self,), version: 0, output_stale: true }),
    {
        DirtyObserverAnchor::new((self.clone(),))
    }

    /// An anchor that passes on the output, and reports only changes that make a difference to `==`.
    pub fn debounce(&self) -> (debounce: Debounce<O1>) where O1: PartialEq + Copy
        ensures
            debounce == (Debounce::<O1> { anchor: *self, old_v: None }),
    {
        Debounce::new(self.clone())
    }

    /// The same for outputs that are cloned.
    pub fn debounce_clone(&self) -> (debounce: Debounce<O1>) where O1: PartialEq + Clone
        ensures
            debounce == (Debounce::<O1> { anchor: *self, old_v: None }),
    {
        Debounce::new(self.clone())
    }
}

} // verus!
