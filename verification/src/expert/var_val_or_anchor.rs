//! Values that may stand for themselves or for the output of an anchor, and variables of such values.

use crate::expert::ext::map::{fresh_map, MapAnchor};
use crate::expert::var::Var;
use crate::expert::{
    Anchor, AnchorInner, AnchorOutput, AnchorToken, AsVar, Call, DirtyHandle, OutputRef, Poll, UpdateContext,
    VarInner,
};
use vstd::prelude::*;
use vstd::std_specs::cmp::{PartialEqSpec, PartialEqSpecImpl};
use vstd::std_specs::convert::{FromSpec, FromSpecImpl};
use vstd::std_specs::ops::{AddSpec, AddSpecImpl, SubSpec, SubSpecImpl};

verus! {

/// A value, or an anchor with such an output.
pub enum ValOrAnchor<T> {
    Val(T),
    Anchor(Anchor<T>),
}

impl<T> ValOrAnchor<T> {
    /// The anchor, if it is one.
    pub open spec fn target(self) -> Option<AnchorToken> {
        match self {
            ValOrAnchor::Val(_) => None,
            ValOrAnchor::Anchor(anchor) => Some(anchor.token),
        }
    }

    pub fn new_val(v: T) -> (voa: Self)
        ensures
            voa == ValOrAnchor::Val(v),
    {
        ValOrAnchor::Val(v)
    }

    pub fn is_val(&self) -> (b: bool)
        ensures
            b == (*self is Val),
    {
        matches!(self, ValOrAnchor::Val(..))
    }

    pub fn as_anchor(&self) -> (anchor: Option<&Anchor<T>>)
        ensures
            match *self {
                ValOrAnchor::Anchor(a) => anchor == Some(&a),
                ValOrAnchor::Val(_) => anchor is None,
            },
    {
        match self {
            ValOrAnchor::Anchor(v) => Some(v),
            ValOrAnchor::Val(_) => None,
        }
    }

    pub fn as_val(&self) -> (val: Option<&T>)
        ensures
            match *self {
                ValOrAnchor::Val(v) => val == Some(&v),
                ValOrAnchor::Anchor(_) => val is None,
            },
    {
        match self {
            ValOrAnchor::Val(v) => Some(v),
            ValOrAnchor::Anchor(_) => None,
        }
    }

    pub fn try_into_val(self) -> (val: Result<T, Self>)
        ensures
            match self {
                ValOrAnchor::Val(v) => val == Ok::<T, Self>(v),
                ValOrAnchor::Anchor(_) => val == Err::<T, Self>(self),
            },
    {
        match self {
            ValOrAnchor::Val(v) => Ok(v),
            ValOrAnchor::Anchor(anchor) => Err(ValOrAnchor::Anchor(anchor)),
        }
    }

    pub fn try_into_anchor(self) -> (anchor: Result<Anchor<T>, Self>)
        ensures
            match self {
                ValOrAnchor::Anchor(a) => anchor == Ok::<Anchor<T>, Self>(a),
                ValOrAnchor::Val(_) => anchor == Err::<Anchor<T>, Self>(self),
            },
    {
        match self {
            ValOrAnchor::Anchor(a) => Ok(a),
            ValOrAnchor::Val(v) => Err(ValOrAnchor::Val(v)),
        }
    }
}

/// A value made into another type.
pub fn voa<T: From<X>, X>(x: X) -> (voa: ValOrAnchor<T>)
    ensures
        voa is Val,
        T::obeys_from_spec() ==> voa == ValOrAnchor::Val(T::from_spec(x)),
{
    ValOrAnchor::Val(T::from(x))
}

/// A value or an anchor, from what can be made into one.
pub fn into_ea<T, X>(x: X) -> (voa: ValOrAnchor<T>) where ValOrAnchor<T>: From<X>
    ensures
        <ValOrAnchor<T> as FromSpec<X>>::obeys_from_spec() ==> voa == <ValOrAnchor<T> as FromSpec<X>>::from_spec(x),
{
    ValOrAnchor::<T>::from(x)
}

impl<T> From<T> for ValOrAnchor<T> {
    fn from(value: T) -> (voa: Self) {
        ValOrAnchor::Val(value)
    }
}

impl<T> FromSpecImpl<T> for ValOrAnchor<T> {
    open spec fn obeys_from_spec() -> bool {
        true
    }

    open spec fn from_spec(value: T) -> Self {
        ValOrAnchor::Val(value)
    }
}

impl<T> From<Anchor<T>> for ValOrAnchor<T> {
    fn from(value: Anchor<T>) -> (voa: Self) {
        ValOrAnchor::Anchor(value)
    }
}

impl<T> FromSpecImpl<Anchor<T>> for ValOrAnchor<T> {
    open spec fn obeys_from_spec() -> bool {
        true
    }

    open spec fn from_spec(value: Anchor<T>) -> Self {
        ValOrAnchor::Anchor(value)
    }
}

impl<T: Clone> Clone for ValOrAnchor<T> {
    fn clone(&self) -> (voa: Self)
        ensures
            match *self {
                ValOrAnchor::Val(v) => voa is Val && cloned(v, voa->Val_0),
                ValOrAnchor::Anchor(_) => voa == *self,
            },
    {
        match self {
            ValOrAnchor::Val(v) => ValOrAnchor::Val(v.clone()),
            ValOrAnchor::Anchor(anchor) => ValOrAnchor::Anchor(anchor.clone()),
        }
    }
}

impl<T: Default> Default for ValOrAnchor<T> {
    fn default() -> (voa: Self)
        ensures
            voa is Val,
            call_ensures(T::default, (), voa->Val_0),
    {
        ValOrAnchor::Val(T::default())
    }
}

/// Values are compared; anchors are equal if they are the same anchor.
impl<T: PartialEq> PartialEq for ValOrAnchor<T> {
    fn eq(&self, other: &Self) -> (b: bool) {
        match (self, other) {
            (ValOrAnchor::Val(l), ValOrAnchor::Val(r)) => *l == *r,
            (ValOrAnchor::Anchor(l), ValOrAnchor::Anchor(r)) => l.same(r),
            _ => false,
        }
    }
}

impl<T: PartialEq> PartialEqSpecImpl for ValOrAnchor<T> {
    open spec fn obeys_eq_spec() -> bool {
        T::obeys_eq_spec()
    }

    open spec fn eq_spec(&self, other: &Self) -> bool {
        match (*self, *other) {
            (ValOrAnchor::Val(l), ValOrAnchor::Val(r)) => l.eq_spec(&r),
            (ValOrAnchor::Anchor(l), ValOrAnchor::Anchor(r)) => l.token == r.token,
            _ => false,
        }
    }
}

impl<T: Eq> Eq for ValOrAnchor<T> {

}

/// A value is compared with what stands for itself.
impl<T: PartialEq> PartialEq<T> for ValOrAnchor<T> {
    fn eq(&self, other: &T) -> (b: bool) {
        match self {
            ValOrAnchor::Val(v) => v == other,
            ValOrAnchor::Anchor(_) => false,
        }
    }
}

impl<T: PartialEq> PartialEqSpecImpl<T> for ValOrAnchor<T> {
    open spec fn obeys_eq_spec() -> bool {
        T::obeys_eq_spec()
    }

    open spec fn eq_spec(&self, other: &T) -> bool {
        match *self {
            ValOrAnchor::Val(v) => v.eq_spec(other),
            ValOrAnchor::Anchor(_) => false,
        }
    }
}

/// An anchor is compared with what stands for an anchor.
impl<T: PartialEq> PartialEq<Anchor<T>> for ValOrAnchor<T> {
    fn eq(&self, other: &Anchor<T>) -> (b: bool) {
        match self {
            ValOrAnchor::Val(_) => false,
            ValOrAnchor::Anchor(anchor) => anchor.same(other),
        }
    }
}

impl<T: PartialEq> PartialEqSpecImpl<Anchor<T>> for ValOrAnchor<T> {
    open spec fn obeys_eq_spec() -> bool {
        true
    }

    open spec fn eq_spec(&self, other: &Anchor<T>) -> bool {
        match *self {
            ValOrAnchor::Val(_) => false,
            ValOrAnchor::Anchor(anchor) => anchor.token == other.token,
        }
    }
}

/// Adds to a value; an anchor is not accepted.
impl<T: core::ops::Add<Output = T>> core::ops::Add<T> for ValOrAnchor<T> {
    type Output = ValOrAnchor<T>;

    fn add(self, rhs: T) -> (sum: ValOrAnchor<T>) {
        match self {
            ValOrAnchor::Val(v) => ValOrAnchor::Val(v.add(rhs)),
            ValOrAnchor::Anchor(anchor) => ValOrAnchor::Anchor(anchor),
        }
    }
}

impl<T: core::ops::Add<Output = T>> AddSpecImpl<T> for ValOrAnchor<T> {
    open spec fn obeys_add_spec() -> bool {
        T::obeys_add_spec()
    }

    open spec fn add_req(self, rhs: T) -> bool {
        self is Val && self->Val_0.add_req(rhs)
    }

    open spec fn add_spec(self, rhs: T) -> ValOrAnchor<T> {
        ValOrAnchor::Val(self->Val_0.add_spec(rhs))
    }
}

/// Subtracts from a value; an anchor is not accepted.
impl<T: core::ops::Sub<Output = T>> core::ops::Sub<T> for ValOrAnchor<T> {
    type Output = ValOrAnchor<T>;

    fn sub(self, rhs: T) -> (difference: ValOrAnchor<T>) {
        match self {
            ValOrAnchor::Val(v) => ValOrAnchor::Val(v.sub(rhs)),
            ValOrAnchor::Anchor(anchor) => ValOrAnchor::Anchor(anchor),
        }
    }
}

impl<T: core::ops::Sub<Output = T>> SubSpecImpl<T> for ValOrAnchor<T> {
    open spec fn obeys_sub_spec() -> bool {
        T::obeys_sub_spec()
    }

    open spec fn sub_req(self, rhs: T) -> bool {
        self is Val && self->Val_0.sub_req(rhs)
    }

    open spec fn sub_spec(self, rhs: T) -> ValOrAnchor<T> {
        ValOrAnchor::Val(self->Val_0.sub_spec(rhs))
    }
}

impl<T: core::ops::Add<Output = T> + Copy> ValOrAnchor<T> {
    /// Adds to a value in place; an anchor is not accepted.
    pub fn add_assign(&mut self, rhs: T)
        requires
            *old(self) is Val,
            old(self)->Val_0.add_req(rhs),
        ensures
            *final(self) is Val,
            T::obeys_add_spec() ==> final(self)->Val_0 == old(self)->Val_0.add_spec(rhs),
    {
        if let ValOrAnchor::Val(t) = self {
            *t = (*t).add(rhs);
        }
    }
}

impl<T: core::ops::Sub<Output = T> + Copy> ValOrAnchor<T> {
    /// Subtracts from a value in place; an anchor is not accepted.
    pub fn sub_assign(&mut self, rhs: T)
        requires
            *old(self) is Val,
            old(self)->Val_0.sub_req(rhs),
        ensures
            *final(self) is Val,
            T::obeys_sub_spec() ==> final(self)->Val_0 == old(self)->Val_0.sub_spec(rhs),
    {
        if let ValOrAnchor::Val(t) = self {
            *t = (*t).sub(rhs);
        }
    }
}

/// A value or an anchor whose value operations are meant to reach whichever it is.
pub struct ForceOpVOA<T>(pub ValOrAnchor<T>);

/// What an operation comes to: a value, or an anchor that still has to be mounted.
pub enum Forced<T, F> {
    Val(T),
    Mapped(MapAnchor<(Anchor<T>,), F, T>),
}

pub fn force_op<T>(voa: ValOrAnchor<T>) -> (forced: ForceOpVOA<T>)
    ensures
        forced.0 == voa,
{
    ForceOpVOA(voa)
}

/// `y` is the sum of clones of `x` and `rhs`.
pub open spec fn add_of<T: core::ops::Add<Output = T> + Clone>(x: &T, rhs: &T, y: &T) -> bool {
    exists|a: T, b: T| #[trigger] cloned(*x, a) && #[trigger] cloned(*rhs, b) && (T::obeys_add_spec() ==> *y == a.add_spec(b))
}

/// `rhs` can be added to any value.
pub open spec fn can_add<T: core::ops::Add<Output = T> + Clone>(rhs: &T) -> bool {
    forall|x: T, a: T, b: T| #[trigger] cloned(x, a) && #[trigger] cloned(*rhs, b) ==> a.add_req(b)
}

fn sum_of_clones<T: core::ops::Add<Output = T> + Clone>(x: &T, rhs: &T) -> (y: T)
    requires
        can_add(rhs),
    ensures
        add_of(x, rhs, &y),
{
    let a: T = x.clone();
    let b: T = rhs.clone();
    assert(cloned(*x, a) && cloned(*rhs, b));
    a.add(b)
}

/// An anchor whose output is the sum of another anchor's output and `rhs`.
fn map_sum<T: core::ops::Add<Output = T> + Clone>(anchor: &Anchor<T>, rhs: T) -> (map: MapAnchor<(Anchor<T>,), impl FnMut(&T) -> T, T>)
    requires
        can_add(&rhs),
    ensures
        fresh_map(map, *anchor),
        forall|x: T| #[trigger] call_requires(map.f, (&x,)),
        forall|x: T, y: T| #[trigger] call_ensures(map.f, (&x,), y) ==> add_of(&x, &rhs, &y),
{
    let f = move |x: &T| -> (y: T)
        requires
            can_add(&rhs),
        ensures
            add_of(x, &rhs, &y),
    {
        sum_of_clones(x, &rhs)
    };
    anchor.map(f)
}

impl<T: core::ops::Add<Output = T> + Clone> ForceOpVOA<T> {
    /// The sum. With an anchor, it is that of the anchor's output at any time.
    pub fn add(self, rhs: T) -> (result: Forced<T, impl FnMut(&T) -> T>)
        requires
            match self.0 {
                ValOrAnchor::Val(v) => v.add_req(rhs),
                ValOrAnchor::Anchor(_) => can_add(&rhs),
            },
        ensures
            match self.0 {
                ValOrAnchor::Val(v) => result is Val && (T::obeys_add_spec() ==> result->Val_0 == v.add_spec(rhs)),
                ValOrAnchor::Anchor(anchor) => {
                    &&& result is Mapped
                    &&& fresh_map(result->Mapped_0, anchor)
                    &&& forall|x: T| #[trigger] call_requires(result->Mapped_0.f, (&x,))
                    &&& forall|x: T, y: T| #[trigger] call_ensures(result->Mapped_0.f, (&x,), y) ==> add_of(&x, &rhs, &y)
                },
            },
    {
        match self.0 {
            ValOrAnchor::Val(v) => Forced::Val(v.add(rhs)),
            ValOrAnchor::Anchor(anchor) => Forced::Mapped(map_sum(&anchor, rhs)),
        }
    }

    /// The sum, in place. Where there is an anchor, the one that takes its place is handed back
    /// and has to be mounted under `token`.
    pub fn add_assign(&mut self, rhs: T, token: AnchorToken) -> (mapped: Option<MapAnchor<(Anchor<T>,), impl FnMut(&T) -> T, T>>)
        requires
            match old(self).0 {
                ValOrAnchor::Val(v) => forall|a: T| #[trigger] cloned(v, a) ==> a.add_req(rhs),
                ValOrAnchor::Anchor(_) => can_add(&rhs),
            },
        ensures
            match old(self).0 {
                ValOrAnchor::Val(v) => {
                    &&& mapped is None
                    &&& final(self).0 is Val
                    &&& exists|a: T| #[trigger] cloned(v, a) && (T::obeys_add_spec() ==> final(self).0->Val_0 == a.add_spec(rhs))
                },
                ValOrAnchor::Anchor(anchor) => {
                    &&& final(self).0 is Anchor
                    &&& final(self).0->Anchor_0.token == token
                    &&& mapped is Some
                    &&& fresh_map(mapped->0, anchor)
                    &&& forall|x: T| #[trigger] call_requires((mapped->0).f, (&x,))
                    &&& forall|x: T, y: T| #[trigger] call_ensures((mapped->0).f, (&x,), y) ==> add_of(&x, &rhs, &y)
                },
            },
    {
        match &self.0 {
            ValOrAnchor::Val(v) => {
                let a: T = v.clone();
                assert(cloned(*v, a));
                self.0 = ValOrAnchor::Val(a.add(rhs));
                None
            },
            ValOrAnchor::Anchor(anchor) => {
                let mapped = map_sum(anchor, rhs);
                self.0 = ValOrAnchor::Anchor(Anchor::new_from_expert(token));
                Some(mapped)
            },
        }
    }
}

/// `y` is the difference of clones of `x` and `rhs`.
pub open spec fn sub_of<T: core::ops::Sub<Output = T> + Clone>(x: &T, rhs: &T, y: &T) -> bool {
    exists|a: T, b: T| #[trigger] cloned(*x, a) && #[trigger] cloned(*rhs, b) && (T::obeys_sub_spec() ==> *y == a.sub_spec(b))
}

/// `rhs` can be subtracted from any value.
pub open spec fn can_sub<T: core::ops::Sub<Output = T> + Clone>(rhs: &T) -> bool {
    forall|x: T, a: T, b: T| #[trigger] cloned(x, a) && #[trigger] cloned(*rhs, b) ==> a.sub_req(b)
}

fn difference_of_clones<T: core::ops::Sub<Output = T> + Clone>(x: &T, rhs: &T) -> (y: T)
    requires
        can_sub(rhs),
    ensures
        sub_of(x, rhs, &y),
{
    let a: T = x.clone();
    let b: T = rhs.clone();
    assert(cloned(*x, a) && cloned(*rhs, b));
    a.sub(b)
}

/// An anchor whose output is the difference of another anchor's output and `rhs`.
fn map_difference<T: core::ops::Sub<Output = T> + Clone>(anchor: &Anchor<T>, rhs: T) -> (map: MapAnchor<(Anchor<T>,), impl FnMut(&T) -> T, T>)
    requires
        can_sub(&rhs),
    ensures
        fresh_map(map, *anchor),
        forall|x: T| #[trigger] call_requires(map.f, (&x,)),
        forall|x: T, y: T| #[trigger] call_ensures(map.f, (&x,), y) ==> sub_of(&x, &rhs, &y),
{
    let f = move |x: &T| -> (y: T)
        requires
            can_sub(&rhs),
        ensures
            sub_of(x, &rhs, &y),
    {
        difference_of_clones(x, &rhs)
    };
    anchor.map(f)
}

impl<T: core::ops::Sub<Output = T> + Clone> ForceOpVOA<T> {
    /// The difference. With an anchor, it is that of the anchor's output at any time.
    pub fn sub(self, rhs: T) -> (result: Forced<T, impl FnMut(&T) -> T>)
        requires
            match self.0 {
                ValOrAnchor::Val(v) => v.sub_req(rhs),
                ValOrAnchor::Anchor(_) => can_sub(&rhs),
            },
        ensures
            match self.0 {
                ValOrAnchor::Val(v) => result is Val && (T::obeys_sub_spec() ==> result->Val_0 == v.sub_spec(rhs)),
                ValOrAnchor::Anchor(anchor) => {
                    &&& result is Mapped
                    &&& fresh_map(result->Mapped_0, anchor)
                    &&& forall|x: T| #[trigger] call_requires(result->Mapped_0.f, (&x,))
                    &&& forall|x: T, y: T| #[trigger] call_ensures(result->Mapped_0.f, (&x,), y) ==> sub_of(&x, &rhs, &y)
                },
            },
    {
        match self.0 {
            ValOrAnchor::Val(v) => Forced::Val(v.sub(rhs)),
            ValOrAnchor::Anchor(anchor) => Forced::Mapped(map_difference(&anchor, rhs)),
        }
    }

    /// The difference, in place. Where there is an anchor, the one that takes its place is handed back
    /// and has to be mounted under `token`.
    pub fn sub_assign(&mut self, rhs: T, token: AnchorToken) -> (mapped: Option<MapAnchor<(Anchor<T>,), impl FnMut(&T) -> T, T>>)
        requires
            match old(self).0 {
                ValOrAnchor::Val(v) => forall|a: T| #[trigger] cloned(v, a) ==> a.sub_req(rhs),
                ValOrAnchor::Anchor(_) => can_sub(&rhs),
            },
        ensures
            match old(self).0 {
                ValOrAnchor::Val(v) => {
                    &&& mapped is None
                    &&& final(self).0 is Val
                    &&& exists|a: T| #[trigger] cloned(v, a) && (T::obeys_sub_spec() ==> final(self).0->Val_0 == a.sub_spec(rhs))
                },
                ValOrAnchor::Anchor(anchor) => {
                    &&& final(self).0 is Anchor
                    &&& final(self).0->Anchor_0.token == token
                    &&& mapped is Some
                    &&& fresh_map(mapped->0, anchor)
                    &&& forall|x: T| #[trigger] call_requires((mapped->0).f, (&x,))
                    &&& forall|x: T, y: T| #[trigger] call_ensures((mapped->0).f, (&x,), y) ==> sub_of(&x, &rhs, &y)
                },
            },
    {
        match &self.0 {
            ValOrAnchor::Val(v) => {
                let a: T = v.clone();
                assert(cloned(*v, a));
                self.0 = ValOrAnchor::Val(a.sub(rhs));
                None
            },
            ValOrAnchor::Anchor(anchor) => {
                let mapped = map_difference(anchor, rhs);
                self.0 = ValOrAnchor::Anchor(Anchor::new_from_expert(token));
                Some(mapped)
            },
        }
    }
}

/// Marks types that are neither anchors nor stand for one.
pub trait NotAnchorOrEA {

}

/// What can be made from a `T` by converting values.
pub trait CastFromValOrAnchor<T>: Sized {
    /// What `value` is made into.
    spec fn cast_of(value: T, made: Self) -> bool;

    fn cast_from(value: T) -> (made: Self)
        ensures
            Self::cast_of(value, made),
    ;
}

/// A value of type `T`, or an anchor whose output still has to be made into one.
pub enum Casted<T, X> {
    Val(T),
    Mapped(Anchor<X>),
}

impl<T: From<X>, X> CastFromValOrAnchor<ValOrAnchor<X>> for Casted<T, X> {
    open spec fn cast_of(value: ValOrAnchor<X>, made: Self) -> bool {
        match value {
            ValOrAnchor::Val(v) => made is Val && (T::obeys_from_spec() ==> made->Val_0 == T::from_spec(v)),
            ValOrAnchor::Anchor(anchor) => made == Casted::<T, X>::Mapped(anchor),
        }
    }

    fn cast_from(value: ValOrAnchor<X>) -> (made: Self) {
        match value {
            ValOrAnchor::Val(v) => Casted::Val(T::from(v)),
            ValOrAnchor::Anchor(anchor) => Casted::Mapped(anchor),
        }
    }
}

impl<T: From<X>, X> CastFromValOrAnchor<Anchor<X>> for Casted<T, X> {
    open spec fn cast_of(value: Anchor<X>, made: Self) -> bool {
        made == Casted::<T, X>::Mapped(value)
    }

    fn cast_from(value: Anchor<X>) -> (made: Self) {
        Casted::Mapped(value)
    }
}

impl<T: From<X>, X> CastFromValOrAnchor<Var<X>> for Casted<T, X> {
    open spec fn cast_of(value: Var<X>, made: Self) -> bool {
        made == Casted::<T, X>::Mapped(value.anchor)
    }

    fn cast_from(value: Var<X>) -> (made: Self) {
        Casted::Mapped(value.anchor)
    }
}

/// `y` is what a clone of `x` is converted into.
pub open spec fn converted<T: From<X>, X: Clone>(x: &X, y: &T) -> bool {
    exists|a: X| #[trigger] cloned(*x, a) && (T::obeys_from_spec() ==> *y == T::from_spec(a))
}

fn convert_clone<T: From<X>, X: Clone>(x: &X) -> (y: T)
    ensures
        converted(x, &y),
{
    let a: X = x.clone();
    assert(cloned(*x, a));
    T::from(a)
}

impl<T: From<X>, X: Clone> Casted<T, X> {
    /// The anchor that converts the output, if there is one to be mounted.
    pub fn mapped(&self) -> (map: Option<MapAnchor<(Anchor<X>,), impl FnMut(&X) -> T, T>>)
        ensures
            match *self {
                Casted::Val(_) => map is None,
                Casted::Mapped(anchor) => {
                    &&& map is Some
                    &&& fresh_map(map->0, anchor)
                    &&& forall|x: X| #[trigger] call_requires((map->0).f, (&x,))
                    &&& forall|x: X, y: T| #[trigger] call_ensures((map->0).f, (&x,), y) ==> converted(&x, &y)
                },
            },
    {
        match self {
            Casted::Val(_) => None,
            Casted::Mapped(anchor) => {
                let f = |x: &X| -> (y: T)
                    ensures
                        converted(x, &y),
                {
                    convert_clone(x)
                };
                Some(anchor.map(f))
            },
        }
    }
}

/// What can be made into a value of type `T` or an anchor to be converted.
pub trait CastIntoValOrAnchor<T, X>: Sized {
    spec fn casts_to(self, made: Casted<T, X>) -> bool;

    fn cast_into(self) -> (made: Casted<T, X>)
        ensures
            self.casts_to(made),
    ;
}

impl<W, T, X> CastIntoValOrAnchor<T, X> for W where Casted<T, X>: CastFromValOrAnchor<W> {
    open spec fn casts_to(self, made: Casted<T, X>) -> bool {
        <Casted<T, X> as CastFromValOrAnchor<W>>::cast_of(self, made)
    }

    fn cast_into(self) -> (made: Casted<T, X>) {
        <Casted<T, X> as CastFromValOrAnchor<W>>::cast_from(self)
    }
}

/// A variable whose value may be that of an anchor.
pub struct VarEitherAnchor<T> {
    pub dirty_handle: Option<DirtyHandle>,
    /// What was set and has not been taken up yet.
    pub next: Option<ValOrAnchor<T>>,
    pub output_stale: bool,
    /// What the output is taken from.
    pub val: ValOrAnchor<T>,
}

/// A variable whose value may be that of an anchor.
pub type VarVOA<T> = VarEitherAnchor<T>;

impl<T> VarEitherAnchor<T> {
    /// What was last set.
    pub open spec fn latest(self) -> ValOrAnchor<T> {
        match self.next {
            Some(next) => next,
            None => self.val,
        }
    }

    pub fn new(val: ValOrAnchor<T>) -> (var: Self)
        ensures
            var == (VarEitherAnchor { dirty_handle: None, next: None, output_stale: true, val }),
            var.inv(),
    {
        VarEitherAnchor { dirty_handle: None, next: None, output_stale: true, val }
    }

    /// What was last set.
    pub fn get(&self) -> (val: &ValOrAnchor<T>)
        ensures
            *val == self.latest(),
    {
        match &self.next {
            Some(next) => next,
            None => &self.val,
        }
    }

    /// What a poll makes of a variable.
    pub open spec fn step<G: UpdateContext>(self, later: Self, before: &G, after: &G, answer: Poll) -> bool {
        if self.output_stale {
            exists|mid: G, poll: Poll, kept: bool| #[trigger]
                self.taken_up(before, &mid, after, poll, kept) && {
                    let handled = VarEitherAnchor { dirty_handle: later.dirty_handle, ..self };
                    &&& later.dirty_handle is Some
                    &&& self.dirty_handle is Some ==> later.dirty_handle == self.dirty_handle
                    &&& if poll.waiting() {
                        later == handled && answer is Pending
                    } else if kept {
                        later == (VarEitherAnchor { output_stale: false, ..handled }) && answer is Unchanged
                    } else {
                        later == (VarEitherAnchor { output_stale: false, val: self.latest(), next: None, ..handled })
                            && answer is Updated
                    }
                }
        } else {
            &&& later == self
            &&& match self.latest() {
                ValOrAnchor::Val(_) => *after == *before && answer is Unchanged,
                ValOrAnchor::Anchor(anchor) => {
                    &&& before.evolves(after)
                    &&& after.calls() == before.calls().push(
                        Call::Request { token: anchor.token, necessary: true, poll: answer },
                    )
                },
            }
        }
    }

    /// What is asked of the context where the variable goes over to what was last set; `kept` says that there is
    /// nothing to go over to.
    pub open spec fn taken_up<G: UpdateContext>(self, before: &G, mid: &G, after: &G, poll: Poll, kept: bool) -> bool {
        &&& before.evolves(after)
        &&& mid.calls() == (if self.dirty_handle is None {
            before.calls().push(Call::DirtyHandle)
        } else {
            before.calls()
        })
        &&& match (self.val, self.latest()) {
            (ValOrAnchor::Val(_), ValOrAnchor::Val(_)) => {
                &&& *after == *mid
                &&& kept == (self.next is None)
                &&& poll == (if kept {
                    Poll::Unchanged
                } else {
                    Poll::Updated
                })
            },
            (ValOrAnchor::Val(_), ValOrAnchor::Anchor(new)) => {
                &&& after.calls() == mid.calls().push(Call::Request { token: new.token, necessary: true, poll })
                &&& !kept
            },
            (ValOrAnchor::Anchor(old), ValOrAnchor::Val(_)) => {
                &&& after.calls() == mid.calls().push(Call::Unrequest { token: old.token })
                &&& poll is Updated
                &&& !kept
            },
            (ValOrAnchor::Anchor(old), ValOrAnchor::Anchor(new)) => {
                &&& after.calls() == (if old.token != new.token {
                    mid.calls().push(Call::Unrequest { token: old.token })
                } else {
                    mid.calls()
                }).push(Call::Request { token: new.token, necessary: true, poll })
                &&& kept == (old.token == new.token && poll is Unchanged)
            },
        }
    }
}

impl<T> AnchorOutput for VarEitherAnchor<T> {
    type Output = T;

    type Handed = T;

    open spec fn inv(&self) -> bool {
        !self.output_stale ==> {
            &&& self.dirty_handle is Some
            &&& self.next is None || (self.val is Anchor && self.next->0.target() == self.val.target())
        }
    }

    open spec fn had(&self) -> bool {
        self.dirty_handle is Some
    }

    open spec fn alias(&self) -> Option<AnchorToken> {
        self.val.target()
    }

    open spec fn own(&self) -> T {
        self.val->Val_0
    }

    open spec fn honest(&self) -> bool {
        false
    }

    open spec fn outside(&self) -> Option<T> {
        match self.latest() {
            ValOrAnchor::Val(v) => Some(v),
            ValOrAnchor::Anchor(_) => None,
        }
    }

    open spec fn displays(handed: T, out: T) -> bool {
        out == handed
    }

    fn output(&self) -> (out: OutputRef<'_, T>) {
        match &self.val {
            ValOrAnchor::Val(v) => OutputRef::Own(v),
            ValOrAnchor::Anchor(anchor) => OutputRef::Of(anchor.token),
        }
    }
}

impl<G: UpdateContext, T> AnchorInner<G> for VarEitherAnchor<T> {
    open spec fn current(&self) -> bool {
        self.next is None || (self.val is Anchor && self.next->0.target() == self.val.target())
    }

    open spec fn holds(&self, told: Map<AnchorToken, G::V>) -> bool {
        true
    }

    open spec fn sound(&self, told: Map<AnchorToken, G::V>) -> bool {
        self.val.target() is Some ==> told.contains_key(self.val.target()->0)
    }

    open spec fn right(&self, seen: Map<AnchorToken, G::V>) -> bool {
        true
    }

    open spec fn hears(&self, later: &Self, edge: AnchorToken) -> bool {
        *later == (VarEitherAnchor {
            output_stale: self.output_stale || self.latest().target() == Some(edge),
            ..*self
        })
    }

    open spec fn polls(&self, later: &Self, before: &G, after: &G, poll: Poll) -> bool {
        self.step(*later, before, after, poll)
    }

    open spec fn leans_on(&self, told: Map<AnchorToken, G::V>, d: AnchorToken) -> bool {
        self.val.target() == Some(d)
    }

    proof fn less_told(&self, told: Map<AnchorToken, G::V>, less: Map<AnchorToken, G::V>) {
        if self.val.target() is Some {
            assert(less.contains_key(self.val.target()->0));
        }
    }

    proof fn more_told(&self, told: Map<AnchorToken, G::V>, more: Map<AnchorToken, G::V>) {
        if self.val.target() is Some && told.contains_key(self.val.target()->0) {
            assert(told.dom().contains(self.val.target()->0));
            assert(more.dom().contains(self.val.target()->0));
        }
    }

    proof fn shows_outside(&self) {
    }

    fn dirty(&mut self, edge: AnchorToken) {
        let reported: bool = match self.get() {
            ValOrAnchor::Anchor(anchor) => anchor.token == edge,
            ValOrAnchor::Val(_) => false,
        };
        if reported {
            self.output_stale = true;
        }
    }

    fn poll_updated(&mut self, ctx: &mut G) -> (poll: Poll) {
        let ghost a = *self;
        let ghost before = *ctx;
        proof {
            before.evolves_reflexive();
            before.evolves_keeps(ctx);
        }
        if !self.output_stale {
            let target: Option<AnchorToken> = match self.get() {
                ValOrAnchor::Anchor(anchor) => Some(anchor.token),
                ValOrAnchor::Val(_) => None,
            };
            return match target {
                Some(token) => {
                    let poll = ctx.request(token, true);
                    proof {
                        before.evolves_keeps(ctx);
                    }
                    poll
                },
                None => Poll::Unchanged,
            };
        }
        if self.dirty_handle.is_none() {
            self.dirty_handle = Some(ctx.dirty_handle());
        }
        let ghost mid = *ctx;
        proof {
            before.evolves_keeps(&mid);
        }
        let old: Option<AnchorToken> = match &self.val {
            ValOrAnchor::Anchor(anchor) => Some(anchor.token),
            ValOrAnchor::Val(_) => None,
        };
        let new: Option<AnchorToken> = match self.get() {
            ValOrAnchor::Anchor(anchor) => Some(anchor.token),
            ValOrAnchor::Val(_) => None,
        };
        let mut kept: bool = false;
        let poll = match (old, new) {
            (None, None) => if self.next.is_some() {
                Poll::Updated
            } else {
                kept = true;
                Poll::Unchanged
            },
            (None, Some(token)) => ctx.request(token, true),
            (Some(outdated), None) => {
                ctx.unrequest(outdated);
                Poll::Updated
            },
            (Some(outdated), Some(token)) => {
                if outdated != token {
                    ctx.unrequest(outdated);
                    let ghost left = *ctx;
                    proof {
                        mid.evolves_keeps(&left);
                    }
                    let poll = ctx.request(token, true);
                    proof {
                        mid.evolves_transitive(&left, ctx);
                    }
                    poll
                } else {
                    let poll = ctx.request(token, true);
                    if poll == Poll::Unchanged {
                        kept = true;
                    }
                    poll
                }
            },
        };
        proof {
            mid.evolves_reflexive();
            mid.evolves_keeps(ctx);
            before.evolves_transitive(&mid, ctx);
            assert(a.taken_up(&before, &mid, ctx, poll, kept));
        }
        if poll.is_waiting() {
            return Poll::Pending;
        }
        self.output_stale = false;
        if kept {
            return Poll::Unchanged;
        }
        if let Some(next) = self.next.take() {
            self.val = next;
        }
        Poll::Updated
    }
}

impl<T> AsVar<ValOrAnchor<T>> for VarEitherAnchor<T> {
    open spec fn is_var(&self) -> bool {
        true
    }

    open spec fn last_set(&self) -> ValOrAnchor<T> {
        self.latest()
    }

    open spec fn handing(&self, val: ValOrAnchor<T>) -> Option<T> {
        match val {
            ValOrAnchor::Val(v) => Some(v),
            ValOrAnchor::Anchor(_) => None,
        }
    }

    open spec fn set_to(&self, later: &Self, val: ValOrAnchor<T>, marks: bool) -> bool {
        &&& *later == (VarEitherAnchor { next: Some(val), output_stale: true, ..*self })
        &&& marks
    }

    fn is_settable(&self) -> (b: bool) {
        true
    }

    fn set_value(&mut self, val: ValOrAnchor<T>) -> (marks: bool) {
        self.next = Some(val);
        self.output_stale = true;
        true
    }
}

impl<G: UpdateContext, T> VarInner<G, ValOrAnchor<T>> for VarEitherAnchor<T> {
    proof fn set_keeps(&self, later: &Self, val: ValOrAnchor<T>, marks: bool) {
    }
}

} // verus!
