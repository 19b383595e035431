//! Variables.

use crate::expert::{
    Anchor, AnchorInner, AnchorOutput, AnchorToken, AsVar, Call, DirtyHandle, OutputRef, Poll, UpdateContext, VarInner,
};
use vstd::prelude::*;
use vstd::std_specs::cmp::PartialEqSpecImpl;

verus! {

/// An anchor for values that are set from outside the graph.
pub struct VarAnchor<T> {
    pub dirty_handle: Option<DirtyHandle>,
    /// The value that was set and has not been taken up yet.
    pub next: Option<T>,
    /// Something may have been set since the last poll.
    pub value_changed: bool,
    pub val: T,
}

impl<T> VarAnchor<T> {
    /// The value that was last set.
    pub open spec fn latest(self) -> T {
        match self.next {
            Some(next) => next,
            None => self.val,
        }
    }

    pub fn new(val: T) -> (var: Self)
        ensures
            var == (VarAnchor { dirty_handle: None, next: None, value_changed: true, val }),
            var.inv(),
    {
        VarAnchor { dirty_handle: None, next: None, value_changed: true, val }
    }

    /// The value that was last set.
    pub fn get(&self) -> (val: &T)
        ensures
            *val == self.latest(),
    {
        match &self.next {
            Some(next) => next,
            None => &self.val,
        }
    }

    /// What a poll makes of a variable.
    pub open spec fn step<G: UpdateContext>(self, later: Self, before: &G, after: &G, poll: Poll) -> bool {
        &&& before.evolves(after)
        &&& after.calls() == (if self.dirty_handle is None {
            before.calls().push(Call::DirtyHandle)
        } else {
            before.calls()
        })
        &&& later.dirty_handle is Some
        &&& self.dirty_handle is Some ==> later.dirty_handle == self.dirty_handle
        &&& later == (VarAnchor {
            dirty_handle: later.dirty_handle,
            next: None,
            value_changed: false,
            val: self.latest(),
        })
        &&& poll == (if self.next is Some {
            Poll::Updated
        } else {
            Poll::Unchanged
        })
    }
}

impl<T> AnchorOutput for VarAnchor<T> {
    type Output = T;

    type Handed = T;

    open spec fn inv(&self) -> bool {
        self.next is Some ==> self.value_changed
    }

    open spec fn had(&self) -> bool {
        self.dirty_handle is Some
    }

    open spec fn alias(&self) -> Option<AnchorToken> {
        None
    }

    open spec fn own(&self) -> T {
        self.val
    }

    open spec fn honest(&self) -> bool {
        true
    }

    open spec fn outside(&self) -> Option<T> {
        Some(self.latest())
    }

    open spec fn displays(handed: T, out: T) -> bool {
        out == handed
    }

    fn output(&self) -> (out: OutputRef<'_, T>) {
        OutputRef::Own(&self.val)
    }
}

impl<G: UpdateContext, T> AnchorInner<G> for VarAnchor<T> {
    /// The output is the value that was last set.
    open spec fn current(&self) -> bool {
        self.next is None
    }

    open spec fn holds(&self, told: Map<AnchorToken, G::V>) -> bool {
        true
    }

    open spec fn sound(&self, told: Map<AnchorToken, G::V>) -> bool {
        true
    }

    open spec fn right(&self, seen: Map<AnchorToken, G::V>) -> bool {
        true
    }

    open spec fn hears(&self, later: &Self, edge: AnchorToken) -> bool {
        *later == *self
    }

    open spec fn polls(&self, later: &Self, before: &G, after: &G, poll: Poll) -> bool {
        self.step(*later, before, after, poll)
    }

    open spec fn leans_on(&self, told: Map<AnchorToken, G::V>, d: AnchorToken) -> bool {
        false
    }

    proof fn less_told(&self, told: Map<AnchorToken, G::V>, less: Map<AnchorToken, G::V>) {
    }

    proof fn more_told(&self, told: Map<AnchorToken, G::V>, more: Map<AnchorToken, G::V>) {
    }

    proof fn shows_outside(&self) {
    }

    /// A variable has no inputs, so it has nothing to hear of.
    fn dirty(&mut self, edge: AnchorToken) {
    }

    fn poll_updated(&mut self, ctx: &mut G) -> (poll: Poll) {
        let ghost before = *ctx;
        proof {
            before.evolves_reflexive();
        }
        if self.dirty_handle.is_none() {
            self.dirty_handle = Some(ctx.dirty_handle());
        }
        proof {
            before.evolves_keeps(ctx);
        }
        if self.value_changed {
            self.value_changed = false;
            match self.next.take() {
                Some(next) => {
                    self.val = next;
                    Poll::Updated
                },
                None => Poll::Unchanged,
            }
        } else {
            Poll::Unchanged
        }
    }
}

impl<T> AsVar<T> for VarAnchor<T> {
    open spec fn is_var(&self) -> bool {
        true
    }

    open spec fn last_set(&self) -> T {
        self.latest()
    }

    open spec fn handing(&self, val: T) -> Option<T> {
        Some(val)
    }

    open spec fn set_to(&self, later: &Self, val: T, marks: bool) -> bool {
        &&& *later == (VarAnchor { next: Some(val), value_changed: true, ..*self })
        &&& marks
    }

    fn is_settable(&self) -> (b: bool) {
        true
    }

    fn set_value(&mut self, val: T) -> (marks: bool) {
        self.next = Some(val);
        self.value_changed = true;
        true
    }
}

impl<G: UpdateContext, T> VarInner<G, T> for VarAnchor<T> {
    proof fn set_keeps(&self, later: &Self, val: T, marks: bool) {
    }
}

/// A variable that has been mounted.
pub struct Var<T> {
    pub anchor: Anchor<T>,
}

impl<T> PartialEq for Var<T> {
    fn eq(&self, other: &Self) -> (b: bool) {
        self.anchor.same(&other.anchor)
    }
}

impl<T> PartialEqSpecImpl for Var<T> {
    open spec fn obeys_eq_spec() -> bool {
        true
    }

    open spec fn eq_spec(&self, other: &Self) -> bool {
        self.anchor.token == other.anchor.token
    }
}

impl<T> Eq for Var<T> {

}

impl<T> Var<T> {
    /// The variable of an anchor that is one.
    pub fn new(anchor: Anchor<T>) -> (var: Self)
        ensures
            var.anchor == anchor,
    {
        Var { anchor }
    }

    /// A handle on the variable's anchor.
    pub fn watch(&self) -> (anchor: Anchor<T>)
        ensures
            anchor == self.anchor,
    {
        self.anchor.clone()
    }
}

/// An anchor for values that never change.
pub struct Constant<T> {
    pub val: T,
    pub first_poll: bool,
}

impl<T> Constant<T> {
    pub fn new_internal(val: T) -> (constant: Self)
        ensures
            constant == (Constant { val, first_poll: true }),
            constant.inv(),
    {
        Constant { val, first_poll: true }
    }
}

impl<T> AnchorOutput for Constant<T> {
    type Output = T;

    type Handed = T;

    open spec fn inv(&self) -> bool {
        true
    }

    open spec fn had(&self) -> bool {
        true
    }

    open spec fn alias(&self) -> Option<AnchorToken> {
        None
    }

    open spec fn own(&self) -> T {
        self.val
    }

    open spec fn honest(&self) -> bool {
        true
    }

    open spec fn outside(&self) -> Option<T> {
        Some(self.val)
    }

    open spec fn displays(handed: T, out: T) -> bool {
        out == handed
    }

    fn output(&self) -> (out: OutputRef<'_, T>) {
        OutputRef::Own(&self.val)
    }
}

impl<G: UpdateContext, T> AnchorInner<G> for Constant<T> {
    open spec fn current(&self) -> bool {
        true
    }

    open spec fn holds(&self, told: Map<AnchorToken, G::V>) -> bool {
        true
    }

    open spec fn sound(&self, told: Map<AnchorToken, G::V>) -> bool {
        true
    }

    open spec fn right(&self, seen: Map<AnchorToken, G::V>) -> bool {
        true
    }

    open spec fn hears(&self, later: &Self, edge: AnchorToken) -> bool {
        *later == *self
    }

    open spec fn polls(&self, later: &Self, before: &G, after: &G, poll: Poll) -> bool {
        &&& *later == (Constant { first_poll: false, ..*self })
        &&& *after == *before
        &&& poll == (if self.first_poll {
            Poll::Updated
        } else {
            Poll::Unchanged
        })
    }

    open spec fn leans_on(&self, told: Map<AnchorToken, G::V>, d: AnchorToken) -> bool {
        false
    }

    proof fn less_told(&self, told: Map<AnchorToken, G::V>, less: Map<AnchorToken, G::V>) {
    }

    proof fn more_told(&self, told: Map<AnchorToken, G::V>, more: Map<AnchorToken, G::V>) {
    }

    proof fn shows_outside(&self) {
    }

    fn dirty(&mut self, edge: AnchorToken) {
    }

    fn poll_updated(&mut self, ctx: &mut G) -> (poll: Poll) {
        proof {
            ctx.evolves_reflexive();
        }
        let poll = if self.first_poll {
            Poll::Updated
        } else {
            Poll::Unchanged
        };
        self.first_poll = false;
        poll
    }
}

} // verus!
