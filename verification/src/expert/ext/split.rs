//! Anchors for the parts of a tuple.

use crate::expert::ext::map::{fresh_map, MapAnchor};
use crate::expert::Anchor;
use vstd::prelude::*;

verus! {

/// `part` is an anchor on `tuple` that calculates clones of what `pick` finds in its output.
pub open spec fn picks<T, U: Clone, F: FnMut(&T) -> U>(
    part: MapAnchor<(Anchor<T>,), F, U>,
    tuple: Anchor<T>,
    pick: spec_fn(T) -> U,
) -> bool {
    &&& fresh_map(part, tuple)
    &&& forall|t: T| #[trigger] call_requires(part.f, (&t,))
    &&& forall|t: T, u: U| #[trigger] call_ensures(part.f, (&t,), u) ==> cloned(pick(t), u)
}

impl<O0: Clone> Anchor<(O0,)> {
    /// The anchors of the parts, which still have to be mounted.
    pub fn split(&self) -> (parts: (
        MapAnchor<(Anchor<(O0,)>,), impl FnMut(&(O0,)) -> O0, O0>,
    ))
        ensures
            picks(parts.0, *self, |t: (O0,)| t.0),
    {
        let f0 = |t: &(O0,)| -> (part: O0)
            ensures
                cloned(t.0, part),
        {
            t.0.clone()
        };
        (self.map(f0),)
    }
}

impl<O0: Clone, O1: Clone> Anchor<(O0, O1)> {
    /// The anchors of the parts, which still have to be mounted.
    pub fn split(&self) -> (parts: (
        MapAnchor<(Anchor<(O0, O1)>,), impl FnMut(&(O0, O1)) -> O0, O0>,
        MapAnchor<(Anchor<(O0, O1)>,), impl FnMut(&(O0, O1)) -> O1, O1>,
    ))
        ensures
            picks(parts.0, *self, |t: (O0, O1)| t.0),
            picks(parts.1, *self, |t: (O0, O1)| t.1),
    {
        let f0 = |t: &(O0, O1)| -> (part: O0)
            ensures
                cloned(t.0, part),
        {
            t.0.clone()
        };
        let f1 = |t: &(O0, O1)| -> (part: O1)
            ensures
                cloned(t.1, part),
        {
            t.1.clone()
        };
        (self.map(f0), self.map(f1))
    }
}

impl<O0: Clone, O1: Clone, O2: Clone> Anchor<(O0, O1, O2)> {
    /// The anchors of the parts, which still have to be mounted.
    pub fn split(&self) -> (parts: (
        MapAnchor<(Anchor<(O0, O1, O2)>,), impl FnMut(&(O0, O1, O2)) -> O0, O0>,
        MapAnchor<(Anchor<(O0, O1, O2)>,), impl FnMut(&(O0, O1, O2)) -> O1, O1>,
        MapAnchor<(Anchor<(O0, O1, O2)>,), impl FnMut(&(O0, O1, O2)) -> O2, O2>,
    ))
        ensures
            picks(parts.0, *self, |t: (O0, O1, O2)| t.0),
            picks(parts.1, *self, |t: (O0, O1, O2)| t.1),
            picks(parts.2, *self, |t: (O0, O1, O2)| t.2),
    {
        let f0 = |t: &(O0, O1, O2)| -> (part: O0)
            ensures
                cloned(t.0, part),
        {
            t.0.clone()
        };
        let f1 = |t: &(O0, O1, O2)| -> (part: O1)
            ensures
                cloned(t.1, part),
        {
            t.1.clone()
        };
        let f2 = |t: &(O0, O1, O2)| -> (part: O2)
            ensures
                cloned(t.2, part),
        {
            t.2.clone()
        };
        (self.map(f0), self.map(f1), self.map(f2))
    }
}

impl<O0: Clone, O1: Clone, O2: Clone, O3: Clone> Anchor<(O0, O1, O2, O3)> {
    /// The anchors of the parts, which still have to be mounted.
    pub fn split(&self) -> (parts: (
        MapAnchor<(Anchor<(O0, O1, O2, O3)>,), impl FnMut(&(O0, O1, O2, O3)) -> O0, O0>,
        MapAnchor<(Anchor<(O0, O1, O2, O3)>,), impl FnMut(&(O0, O1, O2, O3)) -> O1, O1>,
        MapAnchor<(Anchor<(O0, O1, O2, O3)>,), impl FnMut(&(O0, O1, O2, O3)) -> O2, O2>,
        MapAnchor<(Anchor<(O0, O1, O2, O3)>,), impl FnMut(&(O0, O1, O2, O3)) -> O3, O3>,
    ))
        ensures
            picks(parts.0, *self, |t: (O0, O1, O2, O3)| t.0),
            picks(parts.1, *self, |t: (O0, O1, O2, O3)| t.1),
            picks(parts.2, *self, |t: (O0, O1, O2, O3)| t.2),
            picks(parts.3, *self, |t: (O0, O1, O2, O3)| t.3),
    {
        let f0 = |t: &(O0, O1, O2, O3)| -> (part: O0)
            ensures
                cloned(t.0, part),
        {
            t.0.clone()
        };
        let f1 = |t: &(O0, O1, O2, O3)| -> (part: O1)
            ensures
                cloned(t.1, part),
        {
            t.1.clone()
        };
        let f2 = |t: &(O0, O1, O2, O3)| -> (part: O2)
            ensures
                cloned(t.2, part),
        {
            t.2.clone()
        };
        let f3 = |t: &(O0, O1, O2, O3)| -> (part: O3)
            ensures
                cloned(t.3, part),
        {
            t.3.clone()
        };
        (self.map(f0), self.map(f1), self.map(f2), self.map(f3))
    }
}

impl<O0: Clone, O1: Clone, O2: Clone, O3: Clone, O4: Clone> Anchor<(O0, O1, O2, O3, O4)> {
    /// The anchors of the parts, which still have to be mounted.
    pub fn split(&self) -> (parts: (
        MapAnchor<(Anchor<(O0, O1, O2, O3, O4)>,), impl FnMut(&(O0, O1, O2, O3, O4)) -> O0, O0>,
        MapAnchor<(Anchor<(O0, O1, O2, O3, O4)>,), impl FnMut(&(O0, O1, O2, O3, O4)) -> O1, O1>,
        MapAnchor<(Anchor<(O0, O1, O2, O3, O4)>,), impl FnMut(&(O0, O1, O2, O3, O4)) -> O2, O2>,
        MapAnchor<(Anchor<(O0, O1, O2, O3, O4)>,), impl FnMut(&(O0, O1, O2, O3, O4)) -> O3, O3>,
        MapAnchor<(Anchor<(O0, O1, O2, O3, O4)>,), impl FnMut(&(O0, O1, O2, O3, O4)) -> O4, O4>,
    ))
        ensures
            picks(parts.0, *self, |t: (O0, O1, O2, O3, O4)| t.0),
            picks(parts.1, *self, |t: (O0, O1, O2, O3, O4)| t.1),
            picks(parts.2, *self, |t: (O0, O1, O2, O3, O4)| t.2),
            picks(parts.3, *self, |t: (O0, O1, O2, O3, O4)| t.3),
            picks(parts.4, *self, |t: (O0, O1, O2, O3, O4)| t.4),
    {
        let f0 = |t: &(O0, O1, O2, O3, O4)| -> (part: O0)
            ensures
                cloned(t.0, part),
        {
            t.0.clone()
        };
        let f1 = |t: &(O0, O1, O2, O3, O4)| -> (part: O1)
            ensures
                cloned(t.1, part),
        {
            t.1.clone()
        };
        let f2 = |t: &(O0, O1, O2, O3, O4)| -> (part: O2)
            ensures
                cloned(t.2, part),
        {
            t.2.clone()
        };
        let f3 = |t: &(O0, O1, O2, O3, O4)| -> (part: O3)
            ensures
                cloned(t.3, part),
        {
            t.3.clone()
        };
        let f4 = |t: &(O0, O1, O2, O3, O4)| -> (part: O4)
            ensures
                cloned(t.4, part),
        {
            t.4.clone()
        };
        (self.map(f0), self.map(f1), self.map(f2), self.map(f3), self.map(f4))
    }
}

impl<O0: Clone, O1: Clone, O2: Clone, O3: Clone, O4: Clone, O5: Clone> Anchor<(O0, O1, O2, O3, O4, O5)> {
    /// The anchors of the parts, which still have to be mounted.
    pub fn split(&self) -> (parts: (
        MapAnchor<(Anchor<(O0, O1, O2, O3, O4, O5)>,), impl FnMut(&(O0, O1, O2, O3, O4, O5)) -> O0, O0>,
        MapAnchor<(Anchor<(O0, O1, O2, O3, O4, O5)>,), impl FnMut(&(O0, O1, O2, O3, O4, O5)) -> O1, O1>,
        MapAnchor<(Anchor<(O0, O1, O2, O3, O4, O5)>,), impl FnMut(&(O0, O1, O2, O3, O4, O5)) -> O2, O2>,
        MapAnchor<(Anchor<(O0, O1, O2, O3, O4, O5)>,), impl FnMut(&(O0, O1, O2, O3, O4, O5)) -> O3, O3>,
        MapAnchor<(Anchor<(O0, O1, O2, O3, O4, O5)>,), impl FnMut(&(O0, O1, O2, O3, O4, O5)) -> O4, O4>,
        MapAnchor<(Anchor<(O0, O1, O2, O3, O4, O5)>,), impl FnMut(&(O0, O1, O2, O3, O4, O5)) -> O5, O5>,
    ))
        ensures
            picks(parts.0, *self, |t: (O0, O1, O2, O3, O4, O5)| t.0),
            picks(parts.1, *self, |t: (O0, O1, O2, O3, O4, O5)| t.1),
            picks(parts.2, *self, |t: (O0, O1, O2, O3, O4, O5)| t.2),
            picks(parts.3, *self, |t: (O0, O1, O2, O3, O4, O5)| t.3),
            picks(parts.4, *self, |t: (O0, O1, O2, O3, O4, O5)| t.4),
            picks(parts.5, *self, |t: (O0, O1, O2, O3, O4, O5)| t.5),
    {
        let f0 = |t: &(O0, O1, O2, O3, O4, O5)| -> (part: O0)
            ensures
                cloned(t.0, part),
        {
            t.0.clone()
        };
        let f1 = |t: &(O0, O1, O2, O3, O4, O5)| -> (part: O1)
            ensures
                cloned(t.1, part),
        {
            t.1.clone()
        };
        let f2 = |t: &(O0, O1, O2, O3, O4, O5)| -> (part: O2)
            ensures
                cloned(t.2, part),
        {
            t.2.clone()
        };
        let f3 = |t: &(O0, O1, O2, O3, O4, O5)| -> (part: O3)
            ensures
                cloned(t.3, part),
        {
            t.3.clone()
        };
        let f4 = |t: &(O0, O1, O2, O3, O4, O5)| -> (part: O4)
            ensures
                cloned(t.4, part),
        {
            t.4.clone()
        };
        let f5 = |t: &(O0, O1, O2, O3, O4, O5)| -> (part: O5)
            ensures
                cloned(t.5, part),
        {
            t.5.clone()
        };
        (self.map(f0), self.map(f1), self.map(f2), self.map(f3), self.map(f4), self.map(f5))
    }
}

impl<O0: Clone, O1: Clone, O2: Clone, O3: Clone, O4: Clone, O5: Clone, O6: Clone> Anchor<(O0, O1, O2, O3, O4, O5, O6)> {
    /// The anchors of the parts, which still have to be mounted.
    pub fn split(&self) -> (parts: (
        MapAnchor<(Anchor<(O0, O1, O2, O3, O4, O5, O6)>,), impl FnMut(&(O0, O1, O2, O3, O4, O5, O6)) -> O0, O0>,
        MapAnchor<(Anchor<(O0, O1, O2, O3, O4, O5, O6)>,), impl FnMut(&(O0, O1, O2, O3, O4, O5, O6)) -> O1, O1>,
        MapAnchor<(Anchor<(O0, O1, O2, O3, O4, O5, O6)>,), impl FnMut(&(O0, O1, O2, O3, O4, O5, O6)) -> O2, O2>,
        MapAnchor<(Anchor<(O0, O1, O2, O3, O4, O5, O6)>,), impl FnMut(&(O0, O1, O2, O3, O4, O5, O6)) -> O3, O3>,
        MapAnchor<(Anchor<(O0, O1, O2, O3, O4, O5, O6)>,), impl FnMut(&(O0, O1, O2, O3, O4, O5, O6)) -> O4, O4>,
        MapAnchor<(Anchor<(O0, O1, O2, O3, O4, O5, O6)>,), impl FnMut(&(O0, O1, O2, O3, O4, O5, O6)) -> O5, O5>,
        MapAnchor<(Anchor<(O0, O1, O2, O3, O4, O5, O6)>,), impl FnMut(&(O0, O1, O2, O3, O4, O5, O6)) -> O6, O6>,
    ))
        ensures
            picks(parts.0, *self, |t: (O0, O1, O2, O3, O4, O5, O6)| t.0),
            picks(parts.1, *self, |t: (O0, O1, O2, O3, O4, O5, O6)| t.1),
            picks(parts.2, *self, |t: (O0, O1, O2, O3, O4, O5, O6)| t.2),
            picks(parts.3, *self, |t: (O0, O1, O2, O3, O4, O5, O6)| t.3),
            picks(parts.4, *self, |t: (O0, O1, O2, O3, O4, O5, O6)| t.4),
            picks(parts.5, *self, |t: (O0, O1, O2, O3, O4, O5, O6)| t.5),
            picks(parts.6, *self, |t: (O0, O1, O2, O3, O4, O5, O6)| t.6),
    {
        let f0 = |t: &(O0, O1, O2, O3, O4, O5, O6)| -> (part: O0)
            ensures
                cloned(t.0, part),
        {
            t.0.clone()
        };
        let f1 = |t: &(O0, O1, O2, O3, O4, O5, O6)| -> (part: O1)
            ensures
                cloned(t.1, part),
        {
            t.1.clone()
        };
        let f2 = |t: &(O0, O1, O2, O3, O4, O5, O6)| -> (part: O2)
            ensures
                cloned(t.2, part),
        {
            t.2.clone()
        };
        let f3 = |t: &(O0, O1, O2, O3, O4, O5, O6)| -> (part: O3)
            ensures
                cloned(t.3, part),
        {
            t.3.clone()
        };
        let f4 = |t: &(O0, O1, O2, O3, O4, O5, O6)| -> (part: O4)
            ensures
                cloned(t.4, part),
        {
            t.4.clone()
        };
        let f5 = |t: &(O0, O1, O2, O3, O4, O5, O6)| -> (part: O5)
            ensures
                cloned(t.5, part),
        {
            t.5.clone()
        };
        let f6 = |t: &(O0, O1, O2, O3, O4, O5, O6)| -> (part: O6)
            ensures
                cloned(t.6, part),
        {
            t.6.clone()
        };
        (self.map(f0), self.map(f1), self.map(f2), self.map(f3), self.map(f4), self.map(f5), self.map(f6))
    }
}

impl<O0: Clone, O1: Clone, O2: Clone, O3: Clone, O4: Clone, O5: Clone, O6: Clone, O7: Clone> Anchor<(O0, O1, O2, O3, O4, O5, O6, O7)> {
    /// The anchors of the parts, which still have to be mounted.
    pub fn split(&self) -> (parts: (
        MapAnchor<(Anchor<(O0, O1, O2, O3, O4, O5, O6, O7)>,), impl FnMut(&(O0, O1, O2, O3, O4, O5, O6, O7)) -> O0, O0>,
        MapAnchor<(Anchor<(O0, O1, O2, O3, O4, O5, O6, O7)>,), impl FnMut(&(O0, O1, O2, O3, O4, O5, O6, O7)) -> O1, O1>,
        MapAnchor<(Anchor<(O0, O1, O2, O3, O4, O5, O6, O7)>,), impl FnMut(&(O0, O1, O2, O3, O4, O5, O6, O7)) -> O2, O2>,
        MapAnchor<(Anchor<(O0, O1, O2, O3, O4, O5, O6, O7)>,), impl FnMut(&(O0, O1, O2, O3, O4, O5, O6, O7)) -> O3, O3>,
        MapAnchor<(Anchor<(O0, O1, O2, O3, O4, O5, O6, O7)>,), impl FnMut(&(O0, O1, O2, O3, O4, O5, O6, O7)) -> O4, O4>,
        MapAnchor<(Anchor<(O0, O1, O2, O3, O4, O5, O6, O7)>,), impl FnMut(&(O0, O1, O2, O3, O4, O5, O6, O7)) -> O5, O5>,
        MapAnchor<(Anchor<(O0, O1, O2, O3, O4, O5, O6, O7)>,), impl FnMut(&(O0, O1, O2, O3, O4, O5, O6, O7)) -> O6, O6>,
        MapAnchor<(Anchor<(O0, O1, O2, O3, O4, O5, O6, O7)>,), impl FnMut(&(O0, O1, O2, O3, O4, O5, O6, O7)) -> O7, O7>,
    ))
        ensures
            picks(parts.0, *self, |t: (O0, O1, O2, O3, O4, O5, O6, O7)| t.0),
            picks(parts.1, *self, |t: (O0, O1, O2, O3, O4, O5, O6, O7)| t.1),
            picks(parts.2, *self, |t: (O0, O1, O2, O3, O4, O5, O6, O7)| t.2),
            picks(parts.3, *self, |t: (O0, O1, O2, O3, O4, O5, O6, O7)| t.3),
            picks(parts.4, *self, |t: (O0, O1, O2, O3, O4, O5, O6, O7)| t.4),
            picks(parts.5, *self, |t: (O0, O1, O2, O3, O4, O5, O6, O7)| t.5),
            picks(parts.6, *self, |t: (O0, O1, O2, O3, O4, O5, O6, O7)| t.6),
            picks(parts.7, *self, |t: (O0, O1, O2, O3, O4, O5, O6, O7)| t.7),
    {
        let f0 = |t: &(O0, O1, O2, O3, O4, O5, O6, O7)| -> (part: O0)
            ensures
                cloned(t.0, part),
        {
            t.0.clone()
        };
        let f1 = |t: &(O0, O1, O2, O3, O4, O5, O6, O7)| -> (part: O1)
            ensures
                cloned(t.1, part),
        {
            t.1.clone()
        };
        let f2 = |t: &(O0, O1, O2, O3, O4, O5, O6, O7)| -> (part: O2)
            ensures
                cloned(t.2, part),
        {
            t.2.clone()
        };
        let f3 = |t: &(O0, O1, O2, O3, O4, O5, O6, O7)| -> (part: O3)
            ensures
                cloned(t.3, part),
        {
            t.3.clone()
        };
        let f4 = |t: &(O0, O1, O2, O3, O4, O5, O6, O7)| -> (part: O4)
            ensures
                cloned(t.4, part),
        {
            t.4.clone()
        };
        let f5 = |t: &(O0, O1, O2, O3, O4, O5, O6, O7)| -> (part: O5)
            ensures
                cloned(t.5, part),
        {
            t.5.clone()
        };
        let f6 = |t: &(O0, O1, O2, O3, O4, O5, O6, O7)| -> (part: O6)
            ensures
                cloned(t.6, part),
        {
            t.6.clone()
        };
        let f7 = |t: &(O0, O1, O2, O3, O4, O5, O6, O7)| -> (part: O7)
            ensures
                cloned(t.7, part),
        {
            t.7.clone()
        };
        (self.map(f0), self.map(f1), self.map(f2), self.map(f3), self.map(f4), self.map(f5), self.map(f6), self.map(f7))
    }
}

impl<O0: Clone, O1: Clone, O2: Clone, O3: Clone, O4: Clone, O5: Clone, O6: Clone, O7: Clone, O8: Clone> Anchor<(O0, O1, O2, O3, O4, O5, O6, O7, O8)> {
    /// The anchors of the parts, which still have to be mounted.
    pub fn split(&self) -> (parts: (
        MapAnchor<(Anchor<(O0, O1, O2, O3, O4, O5, O6, O7, O8)>,), impl FnMut(&(O0, O1, O2, O3, O4, O5, O6, O7, O8)) -> O0, O0>,
        MapAnchor<(Anchor<(O0, O1, O2, O3, O4, O5, O6, O7, O8)>,), impl FnMut(&(O0, O1, O2, O3, O4, O5, O6, O7, O8)) -> O1, O1>,
        MapAnchor<(Anchor<(O0, O1, O2, O3, O4, O5, O6, O7, O8)>,), impl FnMut(&(O0, O1, O2, O3, O4, O5, O6, O7, O8)) -> O2, O2>,
        MapAnchor<(Anchor<(O0, O1, O2, O3, O4, O5, O6, O7, O8)>,), impl FnMut(&(O0, O1, O2, O3, O4, O5, O6, O7, O8)) -> O3, O3>,
        MapAnchor<(Anchor<(O0, O1, O2, O3, O4, O5, O6, O7, O8)>,), impl FnMut(&(O0, O1, O2, O3, O4, O5, O6, O7, O8)) -> O4, O4>,
        MapAnchor<(Anchor<(O0, O1, O2, O3, O4, O5, O6, O7, O8)>,), impl FnMut(&(O0, O1, O2, O3, O4, O5, O6, O7, O8)) -> O5, O5>,
        MapAnchor<(Anchor<(O0, O1, O2, O3, O4, O5, O6, O7, O8)>,), impl FnMut(&(O0, O1, O2, O3, O4, O5, O6, O7, O8)) -> O6, O6>,
        MapAnchor<(Anchor<(O0, O1, O2, O3, O4, O5, O6, O7, O8)>,), impl FnMut(&(O0, O1, O2, O3, O4, O5, O6, O7, O8)) -> O7, O7>,
        MapAnchor<(Anchor<(O0, O1, O2, O3, O4, O5, O6, O7, O8)>,), impl FnMut(&(O0, O1, O2, O3, O4, O5, O6, O7, O8)) -> O8, O8>,
    ))
        ensures
            picks(parts.0, *self, |t: (O0, O1, O2, O3, O4, O5, O6, O7, O8)| t.0),
            picks(parts.1, *self, |t: (O0, O1, O2, O3, O4, O5, O6, O7, O8)| t.1),
            picks(parts.2, *self, |t: (O0, O1, O2, O3, O4, O5, O6, O7, O8)| t.2),
            picks(parts.3, *self, |t: (O0, O1, O2, O3, O4, O5, O6, O7, O8)| t.3),
            picks(parts.4, *self, |t: (O0, O1, O2, O3, O4, O5, O6, O7, O8)| t.4),
            picks(parts.5, *self, |t: (O0, O1, O2, O3, O4, O5, O6, O7, O8)| t.5),
            picks(parts.6, *self, |t: (O0, O1, O2, O3, O4, O5, O6, O7, O8)| t.6),
            picks(parts.7, *self, |t: (O0, O1, O2, O3, O4, O5, O6, O7, O8)| t.7),
            picks(parts.8, *self, |t: (O0, O1, O2, O3, O4, O5, O6, O7, O8)| t.8),
    {
        let f0 = |t: &(O0, O1, O2, O3, O4, O5, O6, O7, O8)| -> (part: O0)
            ensures
                cloned(t.0, part),
        {
            t.0.clone()
        };
        let f1 = |t: &(O0, O1, O2, O3, O4, O5, O6, O7, O8)| -> (part: O1)
            ensures
                cloned(t.1, part),
        {
            t.1.clone()
        };
        let f2 = |t: &(O0, O1, O2, O3, O4, O5, O6, O7, O8)| -> (part: O2)
            ensures
                cloned(t.2, part),
        {
            t.2.clone()
        };
        let f3 = |t: &(O0, O1, O2, O3, O4, O5, O6, O7, O8)| -> (part: O3)
            ensures
                cloned(t.3, part),
        {
            t.3.clone()
        };
        let f4 = |t: &(O0, O1, O2, O3, O4, O5, O6, O7, O8)| -> (part: O4)
            ensures
                cloned(t.4, part),
        {
            t.4.clone()
        };
        let f5 = |t: &(O0, O1, O2, O3, O4, O5, O6, O7, O8)| -> (part: O5)
            ensures
                cloned(t.5, part),
        {
            t.5.clone()
        };
        let f6 = |t: &(O0, O1, O2, O3, O4, O5, O6, O7, O8)| -> (part: O6)
            ensures
                cloned(t.6, part),
        {
            t.6.clone()
        };
        let f7 = |t: &(O0, O1, O2, O3, O4, O5, O6, O7, O8)| -> (part: O7)
            ensures
                cloned(t.7, part),
        {
            t.7.clone()
        };
        let f8 = |t: &(O0, O1, O2, O3, O4, O5, O6, O7, O8)| -> (part: O8)
            ensures
                cloned(t.8, part),
        {
            t.8.clone()
        };
        (self.map(f0), self.map(f1), self.map(f2), self.map(f3), self.map(f4), self.map(f5), self.map(f6), self.map(f7), self.map(f8))
    }
}

} // verus!
