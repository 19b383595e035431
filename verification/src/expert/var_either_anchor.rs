//! Another way to write down variables whose value may be that of an anchor.

use crate::expert::var_val_or_anchor::VarEitherAnchor;
use crate::expert::{Anchor, AnchorOutput};
use vstd::prelude::*;
use vstd::std_specs::convert::FromSpecImpl;

verus! {

/// A value, or an anchor with such an output.
pub enum ValOrAnchor<T> {
    EVal(T),
    EAnchor(Anchor<T>),
}

impl<T> ValOrAnchor<T> {
    pub fn is_val(&self) -> (b: bool)
        ensures
            b == (*self is EVal),
    {
        matches!(self, ValOrAnchor::EVal(..))
    }

    pub fn as_anchor(&self) -> (anchor: Option<&Anchor<T>>)
        ensures
            match *self {
                ValOrAnchor::EAnchor(a) => anchor == Some(&a),
                ValOrAnchor::EVal(_) => anchor is None,
            },
    {
        match self {
            ValOrAnchor::EAnchor(v) => Some(v),
            ValOrAnchor::EVal(_) => None,
        }
    }

    /// The same, as variables take it.
    pub open spec fn as_voa(self) -> crate::expert::var_val_or_anchor::ValOrAnchor<T> {
        match self {
            ValOrAnchor::EVal(v) => crate::expert::var_val_or_anchor::ValOrAnchor::Val(v),
            ValOrAnchor::EAnchor(anchor) => crate::expert::var_val_or_anchor::ValOrAnchor::Anchor(anchor),
        }
    }

    /// The same, as variables take it.
    pub fn into_voa(self) -> (voa: crate::expert::var_val_or_anchor::ValOrAnchor<T>)
        ensures
            voa == self.as_voa(),
    {
        match self {
            ValOrAnchor::EVal(v) => crate::expert::var_val_or_anchor::ValOrAnchor::Val(v),
            ValOrAnchor::EAnchor(anchor) => crate::expert::var_val_or_anchor::ValOrAnchor::Anchor(anchor),
        }
    }
}

impl<T> From<T> for ValOrAnchor<T> {
    fn from(value: T) -> (voa: Self) {
        ValOrAnchor::EVal(value)
    }
}

impl<T> FromSpecImpl<T> for ValOrAnchor<T> {
    open spec fn obeys_from_spec() -> bool {
        true
    }

    open spec fn from_spec(value: T) -> Self {
        ValOrAnchor::EVal(value)
    }
}

impl<T> From<Anchor<T>> for ValOrAnchor<T> {
    fn from(value: Anchor<T>) -> (voa: Self) {
        ValOrAnchor::EAnchor(value)
    }
}

impl<T> FromSpecImpl<Anchor<T>> for ValOrAnchor<T> {
    open spec fn obeys_from_spec() -> bool {
        true
    }

    open spec fn from_spec(value: Anchor<T>) -> Self {
        ValOrAnchor::EAnchor(value)
    }
}

impl<T: Clone> Clone for ValOrAnchor<T> {
    fn clone(&self) -> (voa: Self)
        ensures
            match *self {
                ValOrAnchor::EVal(v) => voa is EVal && cloned(v, voa->EVal_0),
                ValOrAnchor::EAnchor(_) => voa == *self,
            },
    {
        match self {
            ValOrAnchor::EVal(v) => ValOrAnchor::EVal(v.clone()),
            ValOrAnchor::EAnchor(anchor) => ValOrAnchor::EAnchor(anchor.clone()),
        }
    }
}

/// A variable whose value may be that of an anchor.
pub struct VarEA<T> {
    pub inner: VarEitherAnchor<T>,
}

impl<T> VarEA<T> {
    pub fn new(val: ValOrAnchor<T>) -> (var: Self)
        ensures
            var.inner == (VarEitherAnchor {
                dirty_handle: None,
                next: None,
                output_stale: true,
                val: val.as_voa(),
            }),
            var.inner.inv(),
    {
        VarEA { inner: VarEitherAnchor::new(val.into_voa()) }
    }

    /// Sets the value, and says whether the anchor now has to be polled again.
    pub fn set(&mut self, val: ValOrAnchor<T>) -> (marks: bool)
        ensures
            final(self).inner == (VarEitherAnchor { next: Some(val.as_voa()), output_stale: true, ..old(self).inner }),
            marks == (old(self).inner.dirty_handle is Some),
    {
        self.inner.next = Some(val.into_voa());
        self.inner.output_stale = true;
        self.inner.dirty_handle.is_some()
    }

    /// What was last set.
    pub fn get(&self) -> (val: &crate::expert::var_val_or_anchor::ValOrAnchor<T>)
        ensures
            *val == self.inner.latest(),
    {
        self.inner.get()
    }
}

} // verus!
