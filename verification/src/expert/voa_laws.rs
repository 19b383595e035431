//! What holds of values that may stand for the output of an anchor, and of values that are compared.

use crate::expert::equal::{alike, unlike};
use crate::expert::inputs::Snapshots;
use crate::expert::var_either_anchor;
use crate::expert::var_val_or_anchor::{add_of, sub_of, ValOrAnchor};
use crate::expert::{Anchor, AnchorToken, Reads};
use vstd::prelude::*;
use vstd::std_specs::cmp::PartialEqSpec;
use vstd::std_specs::convert::FromSpec;
use vstd::std_specs::ops::{AddSpec, SubSpec};

verus! {

/// What is added can be subtracted again, if that is so of the values: taking away what was added gives back the value.
pub proof fn subtracting_undoes_adding<T: core::ops::Add<Output = T> + core::ops::Sub<Output = T>>(voa: ValOrAnchor<T>, x: T)
    requires
        voa is Val,
        forall|a: T, b: T| #[trigger] a.add_spec(b).sub_spec(b) == a,
    ensures
        voa.add_spec(x) is Val,
        voa.add_spec(x).sub_spec(x) == voa,
        voa.add_spec(x)->Val_0 == voa->Val_0.add_spec(x),
{
}

/// The same holds where the operations reach the output of an anchor, if a clone is the value itself.
pub proof fn differences_undo_sums<T: core::ops::Add<Output = T> + core::ops::Sub<Output = T> + Clone>(x: T, rhs: T, sum: T, back: T)
    requires
        T::obeys_add_spec(),
        T::obeys_sub_spec(),
        forall|a: T, b: T| #[trigger] cloned(a, b) ==> a == b,
        forall|a: T, b: T| #[trigger] a.add_spec(b).sub_spec(b) == a,
        add_of(&x, &rhs, &sum),
        sub_of(&sum, &rhs, &back),
    ensures
        sum == x.add_spec(rhs),
        back == x,
{
}

/// Comparing goes both ways, and an anchor is equal to itself; a value and an anchor are never equal. To compare with a plain value
/// or an anchor is to compare with what that is made into.
pub proof fn comparing_is_sound<T: PartialEq>(a: ValOrAnchor<T>, b: ValOrAnchor<T>, v: T, anchor: Anchor<T>)
    requires
        forall|x: T, y: T| #[trigger] x.eq_spec(&y) == y.eq_spec(&x),
    ensures
        a.eq_spec(&b) == b.eq_spec(&a),
        a is Anchor ==> a.eq_spec(&a),
        a is Val && a->Val_0.eq_spec(&a->Val_0) ==> a.eq_spec(&a),
        a is Val && b is Anchor ==> !a.eq_spec(&b),
        PartialEqSpec::<T>::eq_spec(&a, &v) == a.eq_spec(&ValOrAnchor::Val(v)),
        PartialEqSpec::<Anchor<T>>::eq_spec(&a, &anchor) == a.eq_spec(&ValOrAnchor::Anchor(anchor)),
{
}

/// A value is made into something that stands for that value, and an anchor into something that stands for the anchor, in both ways
/// to write them down.
pub proof fn conversions_keep_what_is_meant<T>(v: T, anchor: Anchor<T>)
    ensures
        <ValOrAnchor<T> as FromSpec<T>>::from_spec(v) == ValOrAnchor::Val(v),
        <ValOrAnchor<T> as FromSpec<Anchor<T>>>::from_spec(anchor).target() == Some(anchor.token),
        <var_either_anchor::ValOrAnchor<T> as FromSpec<T>>::from_spec(v).as_voa() == <ValOrAnchor<T> as FromSpec<T>>::from_spec(v),
        <var_either_anchor::ValOrAnchor<T> as FromSpec<Anchor<T>>>::from_spec(anchor).as_voa() == <ValOrAnchor<T> as FromSpec<
            Anchor<T>,
        >>::from_spec(anchor),
{
}

/// Of a type whose `==` is specified, two values are alike if they are the same or `==` says so, and unlike if `==` says that they are
/// not.
pub proof fn alike_goes_by_equality<T: PartialEq>(a: T, b: T)
    requires
        T::obeys_eq_spec(),
    ensures
        alike(a, b) <==> a == b || a.eq_spec(&b),
        unlike(a, b) <==> !a.eq_spec(&b),
{
}

/// Outputs that are kept are compared one by one: they are alike only if all of them are, and unlike only if one of them is. They are
/// clones of the outputs of the anchors, each in its place.
pub proof fn kept_outputs_are_compared_each<
    O0: Clone + PartialEq,
    O1: Clone + PartialEq,
    O2: Clone + PartialEq,
    G: Reads<O0> + Reads<O1> + Reads<O2>,
>(anchors: (Anchor<O0>, Anchor<O1>, Anchor<O2>), a: (O0, O1, O2), b: (O0, O1, O2), outs: Map<AnchorToken, G::V>)
    ensures
        <(Anchor<O0>,) as Snapshots<G>>::values_alike((a.0,), (b.0,)) <==> alike(a.0, b.0),
        <(Anchor<O0>,) as Snapshots<G>>::values_unlike((a.0,), (b.0,)) <==> unlike(a.0, b.0),
        <(Anchor<O0>, Anchor<O1>) as Snapshots<G>>::values_alike((a.0, a.1), (b.0, b.1)) <==> alike(a.0, b.0) && alike(a.1, b.1),
        <(Anchor<O0>, Anchor<O1>) as Snapshots<G>>::values_unlike((a.0, a.1), (b.0, b.1)) <==> unlike(a.0, b.0) || unlike(a.1, b.1),
        <(Anchor<O0>, Anchor<O1>, Anchor<O2>) as Snapshots<G>>::values_alike(a, b) <==> alike(a.0, b.0) && alike(a.1, b.1) && alike(
            a.2,
            b.2,
        ),
        <(Anchor<O0>, Anchor<O1>, Anchor<O2>) as Snapshots<G>>::values_unlike(a, b) <==> unlike(a.0, b.0) || unlike(a.1, b.1) || unlike(
            a.2,
            b.2,
        ),
        Snapshots::<G>::copies(&(anchors.0,), outs, (a.0,)) <==> cloned(<G as Reads<O0>>::cast(outs[anchors.0.token]), a.0),
        Snapshots::<G>::copies(&(anchors.0, anchors.1), outs, (a.0, a.1)) <==> {
            &&& cloned(<G as Reads<O0>>::cast(outs[anchors.0.token]), a.0)
            &&& cloned(<G as Reads<O1>>::cast(outs[anchors.1.token]), a.1)
        },
        Snapshots::<G>::copies(&anchors, outs, a) <==> {
            &&& cloned(<G as Reads<O0>>::cast(outs[anchors.0.token]), a.0)
            &&& cloned(<G as Reads<O1>>::cast(outs[anchors.1.token]), a.1)
            &&& cloned(<G as Reads<O2>>::cast(outs[anchors.2.token]), a.2)
        },
{
}

} // verus!
