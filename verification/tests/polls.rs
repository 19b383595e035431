//! Single anchors, polled with answers that are laid down beforehand.

use std::any::Any;
use std::cell::Cell;
use std::collections::HashMap;
use std::rc::Rc;

use anchors::collections::collect::{VecCollect, VectorVOACollect};
use anchors::collections::dynamic_keyed_vector_collect::DynamicKeyedVectorCollect;
use anchors::collections::ord_map_collect::OrdMapVOACollectStream;
use anchors::expert::ext::cutoff::{Cutoff, Debounce};
use anchors::expert::ext::dirty_observer::DirtyObserverAnchor;
use anchors::expert::ext::either::Either;
use anchors::expert::ext::map::MapAnchor;
use anchors::expert::ext::map_mut::MapMut;
use anchors::expert::ext::then_clone::ThenClone1;
use anchors::expert::ext::then_dedupe::ThenDedupe1;
use anchors::expert::ext::thens::Then;
use anchors::expert::ext::update_observer::UpdateObserverAnchor;
use anchors::expert::var::VarAnchor;
use anchors::expert::var_val_or_anchor::{ValOrAnchor, VarEitherAnchor};
use anchors::expert::{
    Anchor, AnchorInner, AnchorOutput, AsVar, Calls, DirtyHandle, OutputRef, Outputs, Poll, Reads, UpdateContext,
};
use im_rc::{OrdMap, Vector};

struct Script {
    polls: HashMap<usize, Poll>,
    otherwise: Option<Poll>,
    vals: HashMap<usize, Box<dyn Any>>,
    requested: Vec<usize>,
    unrequested: Vec<usize>,
    may_unrequest: bool,
    handle: Option<usize>,
}

impl Script {
    /// Only the tokens that are given an answer may be asked for.
    fn strict() -> Self {
        Script {
            polls: HashMap::new(),
            otherwise: None,
            vals: HashMap::new(),
            requested: Vec::new(),
            unrequested: Vec::new(),
            may_unrequest: false,
            handle: None,
        }
    }

    fn always(poll: Poll) -> Self {
        let mut script = Script::strict();
        script.otherwise = Some(poll);
        script.may_unrequest = true;
        script
    }

    fn answer(&mut self, token: usize, poll: Poll) {
        self.polls.insert(token, poll);
    }

    fn value<O: 'static>(&mut self, token: usize, val: O) {
        self.vals.insert(token, Box::new(val));
    }

    fn times_requested(&self, token: usize) -> usize {
        self.requested.iter().filter(|t| **t == token).count()
    }

    fn times_unrequested(&self, token: usize) -> usize {
        self.unrequested.iter().filter(|t| **t == token).count()
    }
}

impl UpdateContext for Script {
    type V = ();

    fn valid(&self) -> bool {
        unreachable!()
    }

    fn calls(&self) -> Calls {
        unreachable!()
    }

    fn now(&self) -> Outputs<()> {
        unreachable!()
    }

    fn told(&self) -> Outputs<()> {
        unreachable!()
    }

    fn seen(&self) -> Outputs<()> {
        unreachable!()
    }

    fn completed(&self) -> bool {
        unreachable!()
    }

    fn degraded(&self) -> bool {
        unreachable!()
    }

    fn evolves(&self, _later: &Self) -> bool {
        unreachable!()
    }

    fn evolves_reflexive(&self) {
    }

    fn evolves_transitive(&self, _mid: &Self, _later: &Self) {
    }

    fn evolves_keeps(&self, _later: &Self) {
    }

    fn request(&mut self, token: usize, _necessary: bool) -> Poll {
        self.requested.push(token);
        match self.polls.get(&token) {
            Some(poll) => *poll,
            None => match self.otherwise {
                Some(poll) => poll,
                None => panic!("unexpected token requested: {token}"),
            },
        }
    }

    fn unrequest(&mut self, token: usize) {
        if !self.may_unrequest {
            panic!("unexpected token unrequested: {token}");
        }
        self.unrequested.push(token);
    }

    fn dirty_handle(&mut self) -> DirtyHandle {
        match self.handle {
            Some(num) => DirtyHandle { num },
            None => panic!("unexpected dirty handle"),
        }
    }
}

impl<O: 'static> Reads<O> for Script {
    fn cast(_v: ()) -> O {
        unreachable!()
    }

    fn reading(&self, _token: usize) -> Option<O> {
        unreachable!()
    }

    fn reading_kept(&self, _later: &Self, _token: usize) {
    }

    fn reading_is_now(&self, _token: usize) {
    }

    fn get(&self, anchor: &Anchor<O>) -> Option<&O> {
        match self.vals.get(&anchor.token()) {
            Some(val) => val.downcast_ref::<O>(),
            None => panic!("unexpected read of {}", anchor.token()),
        }
    }
}

fn at<O>(token: usize) -> Anchor<O> {
    Anchor::new_from_expert(token)
}

fn shown<A: AnchorOutput>(a: &A) -> Option<&A::Output> {
    match a.output() {
        OutputRef::Own(v) => Some(v),
        _ => None,
    }
}

#[test]
fn reorder_reuses_child_anchors_and_only_reorders_output() {
    let created_count = Rc::new(Cell::new(0u32));
    let created_count_for_closure = Rc::clone(&created_count);
    let make_anchor = move |key: &usize| -> Anchor<usize> {
        created_count_for_closure.set(created_count_for_closure.get() + 1);
        at(100 + *key)
    };
    let mut inner: DynamicKeyedVectorCollect<Vector<usize>, usize, _> =
        DynamicKeyedVectorCollect::new_to_anchor_with_vals_pool(at(1), 16, make_anchor);

    let mut ctx = Script::always(Poll::Unchanged);
    ctx.answer(1, Poll::Updated);
    ctx.value(1, Vector::from(vec![1usize, 2, 3]));
    ctx.value(101, 10usize);
    ctx.value(102, 20usize);
    ctx.value(103, 30usize);
    assert_eq!(inner.poll_updated(&mut ctx), Poll::Updated);
    assert_eq!(created_count.get(), 3);
    assert_eq!(inner.vals.clone().unwrap(), Vector::from(vec![10usize, 20, 30]));

    ctx.answer(1, Poll::Updated);
    ctx.value(1, Vector::from(vec![3usize, 2, 1]));
    inner.dirty = true;
    assert_eq!(inner.poll_updated(&mut ctx), Poll::Updated);
    assert_eq!(created_count.get(), 3);
    assert_eq!(inner.vals.clone().unwrap(), Vector::from(vec![30usize, 20, 10]));
}

#[test]
fn removed_key_unrequests_child_anchor() {
    let make_anchor = |key: &usize| -> Anchor<usize> { at(200 + *key) };
    let mut inner: DynamicKeyedVectorCollect<Vector<usize>, usize, _> =
        DynamicKeyedVectorCollect::new_to_anchor_with_vals_pool(at(1), 16, make_anchor);

    let mut ctx = Script::always(Poll::Unchanged);
    ctx.answer(1, Poll::Updated);
    ctx.value(1, Vector::from(vec![1usize, 2, 3]));
    ctx.value(201, 10usize);
    ctx.value(202, 20usize);
    ctx.value(203, 30usize);
    assert_eq!(inner.poll_updated(&mut ctx), Poll::Updated);
    assert!(ctx.unrequested.is_empty());

    ctx.answer(1, Poll::Updated);
    ctx.value(1, Vector::from(vec![1usize, 2]));
    inner.dirty = true;
    assert_eq!(inner.poll_updated(&mut ctx), Poll::Updated);
    assert!(ctx.unrequested.contains(&203));
}

#[test]
fn append_only_creates_child_anchor_for_new_key() {
    let created_count = Rc::new(Cell::new(0u32));
    let created_count_for_closure = Rc::clone(&created_count);
    let make_anchor = move |key: &usize| -> Anchor<usize> {
        created_count_for_closure.set(created_count_for_closure.get() + 1);
        at(400 + *key)
    };
    let mut inner: DynamicKeyedVectorCollect<Vector<usize>, usize, _> =
        DynamicKeyedVectorCollect::new_to_anchor_with_vals_pool(at(1), 16, make_anchor);

    let mut ctx = Script::always(Poll::Unchanged);
    ctx.answer(1, Poll::Updated);
    ctx.value(1, Vector::from(vec![1usize, 2]));
    ctx.value(401, 10usize);
    ctx.value(402, 20usize);
    assert_eq!(inner.poll_updated(&mut ctx), Poll::Updated);
    assert_eq!(created_count.get(), 2);
    assert_eq!(inner.vals.clone().unwrap(), Vector::from(vec![10usize, 20]));
    assert!(ctx.unrequested.is_empty());

    ctx.answer(1, Poll::Updated);
    ctx.value(1, Vector::from(vec![1usize, 2, 3]));
    ctx.value(403, 30usize);
    ctx.unrequested.clear();
    inner.dirty = true;
    assert_eq!(inner.poll_updated(&mut ctx), Poll::Updated);
    assert_eq!(created_count.get(), 3);
    assert_eq!(inner.vals.clone().unwrap(), Vector::from(vec![10usize, 20, 30]));
    assert!(ctx.unrequested.is_empty());
}

#[test]
fn invalid_child_token_is_removed_and_unrequested_and_not_requested_again() {
    let make_anchor = |key: &usize| -> Anchor<usize> { at(300 + *key) };
    let mut inner: DynamicKeyedVectorCollect<Vector<usize>, usize, _> =
        DynamicKeyedVectorCollect::new_to_anchor_with_vals_pool(at(1), 16, make_anchor);

    let mut ctx = Script::always(Poll::Unchanged);
    ctx.answer(1, Poll::Updated);
    ctx.value(1, Vector::from(vec![1usize, 2]));
    ctx.value(301, 10usize);
    ctx.answer(302, Poll::PendingInvalidToken);
    assert_eq!(inner.poll_updated(&mut ctx), Poll::Updated);
    assert_eq!(inner.vals.clone().unwrap(), Vector::from(vec![10usize]));
    assert!(ctx.unrequested.contains(&302));

    ctx.requested.clear();
    inner.dirty = true;
    ctx.answer(1, Poll::Unchanged);
    assert_eq!(inner.poll_updated(&mut ctx), Poll::Unchanged);
    assert!(!ctx.requested.contains(&302));
}

/// A new order that has to wait for one of its anchors still shows, in the end, its own values.
#[test]
fn a_new_order_that_waits_is_shown_when_it_is_complete() {
    let make_anchor = |key: &usize| -> Anchor<usize> { at(500 + *key) };
    let mut inner: DynamicKeyedVectorCollect<Vec<usize>, usize, _> =
        DynamicKeyedVectorCollect::new_to_anchor(at(1), make_anchor);
    assert_eq!(inner.pool_size, 256);

    let mut ctx = Script::always(Poll::Unchanged);
    ctx.value(1, Vector::from(vec![1usize, 2]));
    ctx.value(501, 10usize);
    ctx.value(502, 20usize);
    assert_eq!(inner.poll_updated(&mut ctx), Poll::Updated);
    assert_eq!(inner.vals, Some(vec![10, 20]));

    ctx.answer(1, Poll::Updated);
    ctx.value(1, Vector::from(vec![2usize, 1]));
    ctx.answer(501, Poll::Pending);
    inner.dirty = true;
    assert_eq!(inner.poll_updated(&mut ctx), Poll::Pending);

    ctx.answer(1, Poll::Unchanged);
    ctx.answer(501, Poll::Unchanged);
    assert_eq!(inner.poll_updated(&mut ctx), Poll::Updated);
    assert_eq!(inner.vals, Some(vec![20, 10]));
}

#[test]
fn voa_collect_stream_should_drop_invalid_token_instead_of_pending_forever() {
    let mut dict_in: OrdMap<usize, (bool, usize)> = OrdMap::new();
    dict_in.insert(1, (false, 10));
    dict_in.insert(2, (true, 1));
    dict_in.insert(3, (true, 2));
    let mut inner = OrdMapVOACollectStream::new_to_anchor(at(100));

    let mut ctx = Script::always(Poll::Unchanged);
    ctx.answer(100, Poll::Unchanged);
    ctx.answer(1, Poll::Unchanged);
    ctx.answer(2, Poll::PendingInvalidToken);
    ctx.value(100, dict_in);
    ctx.value(1, 5usize);
    assert_eq!(inner.poll_updated(&mut ctx), Poll::Updated);
    let out = inner.vals.clone().unwrap();
    let mut expected: OrdMap<usize, usize> = OrdMap::new();
    expected.insert(1, 10);
    expected.insert(2, 5);
    assert_eq!(out, expected);

    ctx.requested.clear();
    inner.dirty = true;
    assert_eq!(inner.poll_updated(&mut ctx), Poll::Updated);
    assert!(!ctx.requested.contains(&2));
}

#[test]
fn collect_should_drop_invalid_token_instead_of_pending_forever() {
    let mut inner = VectorVOACollect::new_to_anchor(
        vec![ValOrAnchor::Val(10), ValOrAnchor::Anchor(at(1)), ValOrAnchor::Anchor(at(2))],
    );
    let mut ctx = Script::always(Poll::Unchanged);
    ctx.answer(1, Poll::Unchanged);
    ctx.answer(2, Poll::PendingInvalidToken);
    ctx.value(1, 5usize);
    assert_eq!(inner.poll_updated(&mut ctx), Poll::Updated);
    assert_eq!(inner.vals.clone().unwrap(), Vector::from(vec![10usize, 5]));
    assert_eq!(inner.poll_updated(&mut ctx), Poll::Unchanged);
}

#[test]
fn a_collection_waits_and_then_takes_up_what_changed() {
    let mut inner: VecCollect<u32> = VecCollect::new_to_anchor(vec![at(1), at(2)]);
    let mut ctx = Script::strict();
    ctx.answer(1, Poll::Updated);
    ctx.answer(2, Poll::Pending);
    ctx.value(1, 7u32);
    ctx.value(2, 8u32);
    assert_eq!(inner.poll_updated(&mut ctx), Poll::Pending);
    assert_eq!(inner.vals, None);
    ctx.answer(2, Poll::Updated);
    assert_eq!(inner.poll_updated(&mut ctx), Poll::Updated);
    assert_eq!(inner.vals, Some(vec![7, 8]));

    ctx.requested.clear();
    assert_eq!(inner.poll_updated(&mut ctx), Poll::Unchanged);
    assert!(ctx.requested.is_empty());

    AnchorInner::<Script>::dirty(&mut inner, 2);
    ctx.answer(1, Poll::Unchanged);
    ctx.value(1, 99u32);
    ctx.value(2, 9u32);
    assert_eq!(inner.poll_updated(&mut ctx), Poll::Updated);
    assert_eq!(inner.vals, Some(vec![7, 9]));
}

#[test]
fn either_should_degrade_on_pending_invalid_token_when_has_old_output() {
    let mut either: Either<(Anchor<u32>,), u32, _> = Either {
        anchors: (at(1),),
        f: |_x: &u32| -> ValOrAnchor<u32> { panic!("an input is gone") },
        either_anchor: Some(ValOrAnchor::Val(123)),
        output_stale: true,
        degraded_on_invalid: false,
        switched: false,
    };
    let mut ctx = Script::always(Poll::PendingInvalidToken);
    let poll_1 = either.poll_updated(&mut ctx);
    assert_eq!(Poll::Unchanged, poll_1);
    assert!(either.degraded_on_invalid);
    assert!(!either.output_stale);
    assert_eq!(1, ctx.requested.len());

    let poll_2 = either.poll_updated(&mut ctx);
    assert_eq!(Poll::Unchanged, poll_2);
    assert_eq!(1, ctx.requested.len());
}

#[test]
fn either_should_propagate_pending_invalid_token_when_no_old_output() {
    let mut either: Either<(Anchor<u32>,), u32, _> = Either {
        anchors: (at(1),),
        f: |_x: &u32| -> ValOrAnchor<u32> { panic!("an input is gone") },
        either_anchor: None,
        output_stale: true,
        degraded_on_invalid: false,
        switched: false,
    };
    let mut ctx = Script::always(Poll::PendingInvalidToken);
    let poll = either.poll_updated(&mut ctx);
    assert_eq!(Poll::PendingInvalidToken, poll);
    assert!(!either.degraded_on_invalid);
}

#[test]
fn map_should_degrade_on_pending_invalid_token_when_has_old_output() {
    let mut mapped: MapAnchor<(Anchor<u32>,), _, u32> = MapAnchor {
        anchors: (at(1),),
        f: |_x: &u32| -> u32 { panic!("an input is gone") },
        output: Some(123),
        output_stale: true,
        degraded_on_invalid: false,
    };
    let mut ctx = Script::always(Poll::PendingInvalidToken);
    let poll_1 = mapped.poll_updated(&mut ctx);
    assert_eq!(Poll::Unchanged, poll_1);
    assert!(mapped.degraded_on_invalid);
    assert!(!mapped.output_stale);
    assert_eq!(Some(123), mapped.output);
    assert_eq!(1, ctx.requested.len());

    let poll_2 = mapped.poll_updated(&mut ctx);
    assert_eq!(Poll::Unchanged, poll_2);
    assert_eq!(1, ctx.requested.len());
}

#[test]
fn map_should_propagate_pending_invalid_token_when_no_old_output() {
    let mut mapped: MapAnchor<(Anchor<u32>,), _, u32> = MapAnchor {
        anchors: (at(1),),
        f: |_x: &u32| -> u32 { panic!("an input is gone") },
        output: None,
        output_stale: true,
        degraded_on_invalid: false,
    };
    let mut ctx = Script::always(Poll::PendingInvalidToken);
    let poll = mapped.poll_updated(&mut ctx);
    assert_eq!(Poll::PendingInvalidToken, poll);
    assert!(!mapped.degraded_on_invalid);
}

#[test]
fn map_mut_should_degrade_on_pending_invalid_token() {
    let mut mapped: MapMut<(Anchor<u32>, Anchor<u32>), _, u32> = MapMut {
        anchors: (at(1), at(2)),
        output: 123,
        output_stale: true,
        degraded_on_invalid: false,
        f: |_out: &mut u32, _x: &u32, _y: &u32| -> bool { panic!("an input is gone") },
    };
    let mut ctx = Script::always(Poll::PendingInvalidToken);
    let poll = mapped.poll_updated(&mut ctx);
    assert_eq!(Poll::Unchanged, poll);
    assert!(!mapped.output_stale);
    assert_eq!(123, mapped.output);
}

#[test]
fn then_should_degrade_on_pending_invalid_token_when_has_output() {
    let called = Rc::new(Cell::new(false));
    let called2 = called.clone();
    let output: Anchor<u32> = at(2);
    let output_for_f = output.clone();
    let mut inner: Then<(Anchor<u32>,), u32, _> = Then {
        f: move |_v: &u32| {
            called2.set(true);
            output_for_f.clone()
        },
        f_anchor: Some(output),
        output_stale: true,
        switched: false,
        anchors: (at(1),),
    };
    let mut ctx = Script::strict();
    ctx.answer(1, Poll::PendingInvalidToken);
    ctx.answer(2, Poll::Unchanged);
    let poll = inner.poll_updated(&mut ctx);
    assert_eq!(poll, Poll::Unchanged);
    assert!(!called.get());
    assert_eq!(ctx.times_requested(1), 1);
    assert_eq!(ctx.times_requested(2), 1);
}

#[test]
fn then_dedupe1_should_degrade_on_pending_invalid_token_when_has_output() {
    let called = Rc::new(Cell::new(false));
    let called2 = called.clone();
    let output: Anchor<u32> = at(2);
    let output_for_f = output.clone();
    let mut inner: ThenDedupe1<u32, u32, _> = ThenDedupe1 {
        f: move |_v: &u32| {
            called2.set(true);
            output_for_f.clone()
        },
        f_anchor: Some(output),
        cached_inputs: Some((123,)),
        output_stale: true,
        switched: false,
        anchors: (at(1),),
    };
    let mut ctx = Script::strict();
    ctx.answer(1, Poll::PendingInvalidToken);
    ctx.answer(2, Poll::Unchanged);
    let poll = inner.poll_updated(&mut ctx);
    assert_eq!(poll, Poll::Unchanged);
    assert!(!called.get());
    assert_eq!(ctx.times_requested(1), 1);
    assert_eq!(ctx.times_requested(2), 1);
}

#[test]
fn then_clone1_output_should_not_call_ctx_get() {
    let output: Anchor<u32> = at(2);
    let output_for_f = output.clone();
    let inner: ThenClone1<u32, u32, _> = ThenClone1 {
        f: move |_v: &u32| output_for_f.clone(),
        f_anchor: Some(output),
        cached_output: 777,
        degraded_on_invalid: false,
        switched: false,
        output_stale: false,
        output_dirty: false,
        anchor: at(1),
    };
    assert_eq!(shown(&inner), Some(&777));
}

#[test]
fn then_clone1_remembers_a_switch_over_a_waiting_answer() {
    let mut inner: ThenClone1<u32, u32, _> = ThenClone1 {
        f: |_v: &u32| at(3),
        f_anchor: Some(at(2)),
        cached_output: 42,
        degraded_on_invalid: false,
        switched: false,
        output_stale: true,
        output_dirty: false,
        anchor: at(1),
    };
    let mut ctx = Script::always(Poll::Unchanged);
    ctx.value(1, 7u32);
    ctx.value(3, 99u32);
    ctx.answer(3, Poll::Pending);
    assert_eq!(inner.poll_updated(&mut ctx), Poll::Pending);
    assert_eq!(inner.cached_output, 42);
    ctx.answer(3, Poll::Unchanged);
    assert_eq!(inner.poll_updated(&mut ctx), Poll::Updated);
    assert_eq!(inner.cached_output, 99);
    assert_eq!(inner.poll_updated(&mut ctx), Poll::Unchanged);
}

#[test]
fn then_clone1_says_that_an_anchor_is_gone_only_where_it_cannot_be_read() {
    let mut inner: ThenClone1<u32, u32, _> = ThenClone1::new(at(1), 42, |_v: &u32| at(3));
    let mut ctx = Script::always(Poll::Unchanged);
    ctx.value(1, "not a number");
    ctx.value(3, "not a number");
    assert_eq!(inner.poll_updated(&mut ctx), Poll::PendingInvalidToken);
    ctx.value(1, 7u32);
    assert_eq!(inner.poll_updated(&mut ctx), Poll::PendingInvalidToken);
    ctx.value(3, 99u32);
    assert_eq!(inner.poll_updated(&mut ctx), Poll::Updated);
    assert_eq!(inner.cached_output, 99);
}

#[test]
fn then_remembers_a_switch_over_a_waiting_answer() {
    let mut inner: Then<(Anchor<u32>,), u32, _> = Then {
        f: |_v: &u32| at(3),
        f_anchor: Some(at(2)),
        output_stale: true,
        switched: false,
        anchors: (at(1),),
    };
    let mut ctx = Script::always(Poll::Unchanged);
    ctx.value(1, 7u32);
    ctx.answer(3, Poll::Pending);
    assert_eq!(inner.poll_updated(&mut ctx), Poll::Pending);
    ctx.answer(3, Poll::Unchanged);
    assert_eq!(inner.poll_updated(&mut ctx), Poll::Updated);
    assert_eq!(inner.poll_updated(&mut ctx), Poll::Unchanged);
}

#[test]
fn then_clone1_should_freeze_on_pending_invalid_token_input() {
    let called = Rc::new(Cell::new(false));
    let called2 = called.clone();
    let output: Anchor<u32> = at(2);
    let output_for_f = output.clone();
    let mut inner: ThenClone1<u32, u32, _> = ThenClone1 {
        f: move |_v: &u32| {
            called2.set(true);
            output_for_f.clone()
        },
        f_anchor: Some(output),
        cached_output: 42,
        degraded_on_invalid: false,
        switched: false,
        output_stale: true,
        output_dirty: false,
        anchor: at(1),
    };
    let mut ctx = Script::strict();
    ctx.answer(1, Poll::PendingInvalidToken);
    ctx.answer(2, Poll::Unchanged);
    let poll = inner.poll_updated(&mut ctx);
    assert_eq!(poll, Poll::Unchanged);
    assert!(!called.get());
    assert_eq!(ctx.times_requested(1), 1);
    assert_eq!(ctx.times_requested(2), 0);
    assert!(inner.degraded_on_invalid);
}

#[test]
fn then_clone1_degraded_should_request_input() {
    let mut inner: ThenClone1<u32, u32, _> = ThenClone1 {
        f: |_v: &u32| -> Anchor<u32> { panic!("there is nothing to choose") },
        f_anchor: Some(at(2)),
        cached_output: 42,
        degraded_on_invalid: true,
        switched: false,
        output_stale: false,
        output_dirty: false,
        anchor: at(1),
    };
    let mut ctx = Script::strict();
    ctx.answer(1, Poll::Unchanged);
    let poll = inner.poll_updated(&mut ctx);
    assert_eq!(poll, Poll::Unchanged);
    assert_eq!(ctx.times_requested(1), 1);
    assert!(inner.degraded_on_invalid);
}

#[test]
fn then_clone1_degraded_should_recover_on_output_dirty() {
    let output: Anchor<u32> = at(2);
    let output_for_f = output.clone();
    let mut inner: ThenClone1<u32, u32, _> = ThenClone1 {
        f: move |_v: &u32| output_for_f.clone(),
        f_anchor: Some(output.clone()),
        cached_output: 42,
        degraded_on_invalid: true,
        switched: false,
        output_stale: false,
        output_dirty: false,
        anchor: at(1),
    };
    AnchorInner::<Script>::dirty(&mut inner, output.token());

    let mut ctx = Script::strict();
    ctx.answer(1, Poll::Unchanged);
    ctx.answer(2, Poll::Updated);
    ctx.value(1, 1u32);
    ctx.value(2, 99u32);
    let poll = inner.poll_updated(&mut ctx);
    assert_eq!(poll, Poll::Updated);
    assert_eq!(ctx.times_requested(1), 1);
    assert_eq!(ctx.times_requested(2), 1);
    assert!(!inner.degraded_on_invalid);
    assert!(!inner.output_dirty);
    assert_eq!(inner.cached_output, 99);
}

#[test]
fn then_clone1_should_recover_after_output_invalid_when_input_ready() {
    let called = Rc::new(Cell::new(0));
    let called2 = called.clone();
    let output_for_f: Anchor<u32> = at(3);
    let mut inner: ThenClone1<u32, u32, _> = ThenClone1 {
        f: move |_v: &u32| {
            called2.set(called2.get() + 1);
            output_for_f.clone()
        },
        f_anchor: Some(at(2)),
        cached_output: 42,
        degraded_on_invalid: false,
        switched: false,
        output_stale: false,
        output_dirty: false,
        anchor: at(1),
    };
    let mut ctx = Script::strict();
    ctx.may_unrequest = true;
    ctx.answer(1, Poll::Unchanged);
    ctx.answer(2, Poll::PendingInvalidToken);
    ctx.answer(3, Poll::PendingInvalidToken);
    ctx.value(1, 1u32);
    ctx.value(3, 777u32);
    let poll0 = inner.poll_updated(&mut ctx);
    assert_eq!(poll0, Poll::Unchanged);
    assert!(inner.degraded_on_invalid);
    assert_eq!(called.get(), 0);

    ctx.answer(3, Poll::Updated);
    let poll1 = inner.poll_updated(&mut ctx);
    assert_eq!(poll1, Poll::Updated);
    assert_eq!(inner.cached_output, 777);
    assert_eq!(called.get(), 1);
    assert_eq!(ctx.times_requested(3), 1);
    assert_eq!(ctx.times_unrequested(2), 1);
    assert_eq!(ctx.unrequested.len(), 1);
}

#[test]
fn then_clone1_should_recover_after_input_dirty() {
    let output: Anchor<u32> = at(2);
    let output_for_f = output.clone();
    let mut inner: ThenClone1<u32, u32, _> = ThenClone1 {
        f: move |_v: &u32| output_for_f.clone(),
        f_anchor: Some(output),
        cached_output: 42,
        degraded_on_invalid: false,
        switched: false,
        output_stale: false,
        output_dirty: false,
        anchor: at(1),
    };
    let mut ctx = Script::strict();
    ctx.answer(1, Poll::Unchanged);
    ctx.answer(2, Poll::PendingInvalidToken);
    ctx.value(1, 1u32);
    ctx.value(2, 999u32);
    let poll0 = inner.poll_updated(&mut ctx);
    assert_eq!(poll0, Poll::Unchanged);
    assert!(inner.degraded_on_invalid);

    let input_token = inner.anchor.token();
    AnchorInner::<Script>::dirty(&mut inner, input_token);
    assert!(!inner.degraded_on_invalid);
    assert!(inner.output_stale);

    ctx.answer(1, Poll::Updated);
    ctx.answer(2, Poll::Updated);
    let poll1 = inner.poll_updated(&mut ctx);
    assert_eq!(poll1, Poll::Updated);
    assert_eq!(inner.cached_output, 999);
    assert_eq!(ctx.times_requested(1), 2);
    assert_eq!(ctx.times_requested(2), 2);
}

#[test]
fn update_observer_should_degrade_on_pending_invalid_token_when_has_history() {
    let mut obs: UpdateObserverAnchor<(Anchor<u32>,)> =
        UpdateObserverAnchor { anchors: (at(1),), version: 1, output_stale: true, degraded_on_invalid: false };
    let mut ctx = Script::always(Poll::PendingInvalidToken);
    let poll_1 = obs.poll_updated(&mut ctx);
    assert_eq!(Poll::Unchanged, poll_1);
    assert!(obs.degraded_on_invalid);
    assert!(!obs.output_stale);
    assert_eq!(1, obs.version);
    assert_eq!(1, ctx.requested.len());

    let poll_2 = obs.poll_updated(&mut ctx);
    assert_eq!(Poll::Unchanged, poll_2);
    assert_eq!(1, ctx.requested.len());
}

#[test]
fn update_observer_should_propagate_pending_invalid_token_when_no_history() {
    let mut obs: UpdateObserverAnchor<(Anchor<u32>,)> =
        UpdateObserverAnchor { anchors: (at(1),), version: 0, output_stale: true, degraded_on_invalid: false };
    let mut ctx = Script::always(Poll::PendingInvalidToken);
    let poll = obs.poll_updated(&mut ctx);
    assert_eq!(Poll::PendingInvalidToken, poll);
    assert!(!obs.degraded_on_invalid);
}

#[test]
fn a_map_asks_again_only_after_a_change() {
    let mut mapped: MapAnchor<(Anchor<u32>, Anchor<u32>), _, u32> = MapAnchor::new((at(1), at(2)), |x: &u32, y: &u32| x * y);
    let mut ctx = Script::strict();
    ctx.answer(1, Poll::Unchanged);
    ctx.answer(2, Poll::PendingDefer);
    ctx.value(1, 6u32);
    ctx.value(2, 7u32);
    assert!(mapped.poll_updated(&mut ctx).is_waiting());
    assert_eq!(mapped.output, None);
    ctx.answer(2, Poll::Unchanged);
    assert_eq!(mapped.poll_updated(&mut ctx), Poll::Updated);
    assert_eq!(shown(&mapped), Some(&42));

    let asked = ctx.requested.len();
    assert_eq!(mapped.poll_updated(&mut ctx), Poll::Unchanged);
    assert_eq!(ctx.requested.len(), asked);

    AnchorInner::<Script>::dirty(&mut mapped, 1);
    ctx.answer(1, Poll::Updated);
    ctx.value(1, 10u32);
    assert_eq!(mapped.poll_updated(&mut ctx), Poll::Updated);
    assert_eq!(shown(&mapped), Some(&70));
}

#[test]
fn a_map_mut_reports_what_its_function_says() {
    let mut mapped: MapMut<(Anchor<u32>,), _, u32> = MapMut::new(
        (at(1),),
        100,
        |out: &mut u32, x: &u32| {
            *out += *x;
            *x > 5
        },
    );
    let mut ctx = Script::strict();
    ctx.answer(1, Poll::Updated);
    ctx.value(1, 3u32);
    assert_eq!(mapped.poll_updated(&mut ctx), Poll::Unchanged);
    assert_eq!(mapped.output, 103);
    AnchorInner::<Script>::dirty(&mut mapped, 1);
    ctx.value(1, 7u32);
    assert_eq!(mapped.poll_updated(&mut ctx), Poll::Updated);
    assert_eq!(mapped.output, 110);
}

#[test]
fn a_cutoff_passes_on_what_its_function_lets_through() {
    let mut cutoff: Cutoff<u32, _> = Cutoff::new(at(1), |x: &u32| *x % 2 == 0);
    let mut ctx = Script::strict();
    ctx.answer(1, Poll::Updated);
    ctx.value(1, 4u32);
    assert_eq!(cutoff.poll_updated(&mut ctx), Poll::Updated);
    ctx.value(1, 5u32);
    assert_eq!(cutoff.poll_updated(&mut ctx), Poll::Unchanged);
    ctx.answer(1, Poll::Unchanged);
    ctx.value(1, 6u32);
    assert_eq!(cutoff.poll_updated(&mut ctx), Poll::Unchanged);
    ctx.answer(1, Poll::Pending);
    assert_eq!(cutoff.poll_updated(&mut ctx), Poll::Pending);
    assert!(matches!(cutoff.output(), OutputRef::Of(1)));
}

#[test]
fn a_debounce_reports_each_value_once() {
    let mut debounce: Debounce<u32> = Debounce::new(at(1));
    let mut ctx = Script::strict();
    ctx.answer(1, Poll::Updated);
    ctx.value(1, 4u32);
    assert_eq!(debounce.poll_updated(&mut ctx), Poll::Updated);
    assert_eq!(debounce.poll_updated(&mut ctx), Poll::Unchanged);
    ctx.value(1, 5u32);
    assert_eq!(debounce.poll_updated(&mut ctx), Poll::Updated);
}

#[test]
fn a_dirty_observer_counts_changes() {
    let mut obs: DirtyObserverAnchor<(Anchor<u32>, Anchor<u32>)> = DirtyObserverAnchor::new((at(1), at(2)));
    let mut ctx = Script::always(Poll::Unchanged);
    ctx.answer(2, Poll::PendingDefer);
    assert_eq!(obs.poll_updated(&mut ctx), Poll::Pending);
    ctx.answer(2, Poll::Unchanged);
    assert_eq!(obs.poll_updated(&mut ctx), Poll::Updated);
    assert_eq!(obs.version, 1);
    assert_eq!(obs.poll_updated(&mut ctx), Poll::Unchanged);
    AnchorInner::<Script>::dirty(&mut obs, 2);
    assert_eq!(obs.poll_updated(&mut ctx), Poll::Updated);
    assert_eq!(obs.version, 2);
}

#[test]
fn a_then_moves_on_to_the_anchor_that_is_chosen() {
    let mut inner: Then<(Anchor<bool>,), u32, _> =
        Then::new((at(1),), |b: &bool| -> Anchor<u32> { at(if *b { 10 } else { 20 }) });
    let mut ctx = Script::strict();
    ctx.may_unrequest = true;
    ctx.answer(1, Poll::Updated);
    ctx.answer(10, Poll::Updated);
    ctx.answer(20, Poll::Updated);
    ctx.value(1, true);
    assert_eq!(inner.poll_updated(&mut ctx), Poll::Updated);
    assert!(matches!(inner.output(), OutputRef::Of(10)));
    AnchorInner::<Script>::dirty(&mut inner, 1);
    ctx.value(1, false);
    assert_eq!(inner.poll_updated(&mut ctx), Poll::Updated);
    assert!(matches!(inner.output(), OutputRef::Of(20)));
    assert_eq!(ctx.unrequested, vec![10]);
    ctx.answer(20, Poll::Unchanged);
    assert_eq!(inner.poll_updated(&mut ctx), Poll::Unchanged);
}

#[test]
fn a_variable_takes_up_what_was_set_at_its_next_poll() {
    let mut var = VarAnchor::new(1u32);
    let mut ctx = Script::strict();
    ctx.handle = Some(17);
    assert!(var.set_value(2));
    assert_eq!(*var.get(), 2);
    assert_eq!(var.poll_updated(&mut ctx), Poll::Updated);
    assert_eq!(shown(&var), Some(&2));
    assert_eq!(var.dirty_handle, Some(DirtyHandle { num: 17 }));
    assert_eq!(var.poll_updated(&mut ctx), Poll::Unchanged);
    assert!(var.set_value(3));
    assert_eq!(shown(&var), Some(&2));
    assert_eq!(var.poll_updated(&mut ctx), Poll::Updated);
    assert_eq!(shown(&var), Some(&3));
}

#[test]
fn a_variable_shows_the_anchor_that_was_set() {
    let mut var = VarEitherAnchor::new(ValOrAnchor::Val(1u32));
    let mut ctx = Script::strict();
    ctx.may_unrequest = true;
    ctx.handle = Some(17);
    ctx.answer(5, Poll::Unchanged);
    assert_eq!(var.poll_updated(&mut ctx), Poll::Unchanged);
    assert_eq!(shown(&var), Some(&1));
    assert!(var.set_value(ValOrAnchor::Anchor(at(5))));
    assert_eq!(var.poll_updated(&mut ctx), Poll::Updated);
    assert!(matches!(var.output(), OutputRef::Of(5)));
    assert!(var.set_value(ValOrAnchor::Val(6)));
    assert_eq!(var.poll_updated(&mut ctx), Poll::Updated);
    assert_eq!(shown(&var), Some(&6));
    assert_eq!(ctx.unrequested, vec![5]);
}

#[test]
fn a_handle_leaves_its_mark() {
    let mut marks = vec![3];
    DirtyHandle { num: 8 }.mark_dirty(&mut marks);
    assert_eq!(marks, vec![3, 8]);
}

#[test]
fn either_remembers_a_switch_over_a_waiting_answer() {
    let mut either: Either<(Anchor<u32>,), u32, _> = Either {
        anchors: (at(1),),
        f: |x: &u32| -> ValOrAnchor<u32> { ValOrAnchor::Anchor(at(*x as usize)) },
        either_anchor: Some(ValOrAnchor::Anchor(at(2))),
        output_stale: true,
        degraded_on_invalid: false,
        switched: false,
    };
    let mut ctx = Script::strict();
    ctx.may_unrequest = true;
    ctx.answer(1, Poll::Updated);
    ctx.value(1, 3u32);
    ctx.answer(3, Poll::Pending);
    assert_eq!(either.poll_updated(&mut ctx), Poll::Pending);
    assert!(either.switched);
    assert_eq!(ctx.times_unrequested(2), 1);
    ctx.answer(3, Poll::Unchanged);
    assert_eq!(either.poll_updated(&mut ctx), Poll::Updated);
    assert!(!either.switched);
    assert_eq!(either.poll_updated(&mut ctx), Poll::Unchanged);
}

#[test]
fn either_announces_a_value_after_a_switch_that_was_never_completed() {
    let mut either: Either<(Anchor<u32>,), u32, _> = Either {
        anchors: (at(1),),
        f: |x: &u32| -> ValOrAnchor<u32> {
            if *x == 0 {
                ValOrAnchor::Val(7)
            } else {
                ValOrAnchor::Anchor(at(*x as usize))
            }
        },
        either_anchor: Some(ValOrAnchor::Val(7)),
        output_stale: true,
        degraded_on_invalid: false,
        switched: false,
    };
    let mut ctx = Script::strict();
    ctx.may_unrequest = true;
    ctx.answer(1, Poll::Updated);
    ctx.value(1, 3u32);
    ctx.answer(3, Poll::Pending);
    assert_eq!(either.poll_updated(&mut ctx), Poll::Pending);
    AnchorInner::<Script>::dirty(&mut either, 1);
    ctx.value(1, 0u32);
    assert_eq!(either.poll_updated(&mut ctx), Poll::Updated);
    assert!(!either.switched);
}

#[test]
fn either_chooses_again_while_a_switch_is_not_announced() {
    let mut either: Either<(Anchor<u32>,), u32, _> = Either {
        anchors: (at(1),),
        f: |x: &u32| -> ValOrAnchor<u32> { ValOrAnchor::Anchor(at(*x as usize)) },
        either_anchor: Some(ValOrAnchor::Anchor(at(2))),
        output_stale: true,
        degraded_on_invalid: false,
        switched: false,
    };
    let mut ctx = Script::strict();
    ctx.may_unrequest = true;
    ctx.answer(1, Poll::Updated);
    ctx.value(1, 3u32);
    ctx.answer(3, Poll::Pending);
    assert_eq!(either.poll_updated(&mut ctx), Poll::Pending);
    AnchorInner::<Script>::dirty(&mut either, 1);
    ctx.answer(1, Poll::Unchanged);
    ctx.value(1, 2u32);
    ctx.answer(2, Poll::Unchanged);
    assert_eq!(either.poll_updated(&mut ctx), Poll::Updated);
    assert!(matches!(AnchorOutput::output(&either), OutputRef::Of(2)));
    assert_eq!(ctx.times_unrequested(3), 1);
    assert!(!either.switched);
}

#[test]
fn then_clone1_forgets_a_reported_change_when_it_chooses_the_same_again() {
    let mut inner: ThenClone1<u32, u32, _> = ThenClone1 {
        f: |_v: &u32| at(2),
        f_anchor: Some(at(2)),
        cached_output: 42,
        degraded_on_invalid: false,
        switched: false,
        output_stale: true,
        output_dirty: true,
        anchor: at(1),
    };
    let mut ctx = Script::strict();
    ctx.answer(1, Poll::Updated);
    ctx.value(1, 1u32);
    ctx.answer(2, Poll::Unchanged);
    ctx.value(2, 42u32);
    assert_eq!(inner.poll_updated(&mut ctx), Poll::Unchanged);
    assert!(!inner.output_dirty);
    assert_eq!(inner.cached_output, 42);
}

#[test]
fn then_clone1_thaws_with_a_switch_that_is_still_waited_for() {
    let mut inner: ThenClone1<u32, u32, _> = ThenClone1 {
        f: |_v: &u32| at(2),
        f_anchor: Some(at(2)),
        cached_output: 42,
        degraded_on_invalid: true,
        switched: true,
        output_stale: false,
        output_dirty: true,
        anchor: at(1),
    };
    let mut ctx = Script::strict();
    ctx.answer(1, Poll::Unchanged);
    ctx.answer(2, Poll::Unchanged);
    ctx.value(2, 99u32);
    assert_eq!(inner.poll_updated(&mut ctx), Poll::Updated);
    assert!(!inner.switched);
    assert_eq!(inner.cached_output, 99);
}
