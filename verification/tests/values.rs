use anchors::collections::collect::pool_for;
use anchors::expert::var::Var;
use anchors::expert::var_either_anchor::ValOrAnchor as EitherOf;
use anchors::expert::var_val_or_anchor::{force_op, into_ea, voa, Casted, CastIntoValOrAnchor, Forced, ValOrAnchor};
use anchors::expert::{Anchor, Poll};
use anchors::singlethread::pending::{PendingEnqueueOutcome, PendingPriority, PendingQueue, PendingRequest};
use anchors::singlethread::stabilize::spin_limit_for;
use anchors::singlethread::stats::{
    rss_bytes_from_raw, should_log_invalid_token, should_log_unexpected_pending, AnchorsPendingStats, TokenLog,
};

#[test]
fn test_into() {
    let x: Var<i32> = Var::new(Anchor::new_from_expert(3));
    let xw = x.watch();
    let n = 1i32;
    let nn: i64 = n.into();
    assert_eq!(nn, 1);
    let b: Casted<i64, i32> = xw.cast_into();
    let mut map = b.mapped().unwrap();
    assert_eq!(map.anchors.0.token(), 3);
    assert_eq!((map.f)(&8i32), 8i64);
    let v: Casted<i64, i32> = ValOrAnchor::Val(n).cast_into();
    assert!(v.mapped().is_none());
    assert!(matches!(v, Casted::Val(1i64)));
}

#[test]
fn a_value_is_told_from_an_anchor() {
    let val: ValOrAnchor<u32> = ValOrAnchor::new_val(7);
    assert!(val.is_val());
    assert_eq!(val.as_val(), Some(&7));
    assert!(val.as_anchor().is_none());
    assert!(matches!(val.try_into_val(), Ok(7)));
    let anchor: ValOrAnchor<u32> = into_ea(Anchor::new_from_expert(5));
    assert!(!anchor.is_val());
    assert_eq!(anchor.as_val(), None);
    assert_eq!(anchor.as_anchor().map(|a| a.token()), Some(5));
    assert!(anchor.clone().try_into_val().is_err());
    assert!(matches!(anchor.try_into_anchor(), Ok(a) if a.token() == 5));
    let wide: ValOrAnchor<u64> = voa(9u32);
    assert_eq!(wide.as_val(), Some(&9u64));
    assert!(wide.try_into_anchor().is_err());
    let e: EitherOf<u32> = EitherOf::EVal(4);
    assert!(e.is_val());
    assert!(e.as_anchor().is_none());
    assert_eq!(e.into_voa().as_val(), Some(&4));
}

#[test]
fn values_are_compared_and_calculated_with() {
    let a: ValOrAnchor<u32> = 7.into();
    let b: ValOrAnchor<u32> = 7.into();
    let c: ValOrAnchor<u32> = Anchor::new_from_expert(7).into();
    assert!(a == b);
    assert!(a != c);
    assert!(c == c.clone());
    let mut sum: ValOrAnchor<u32> = 7.into();
    sum.add_assign(5);
    assert_eq!(sum.as_val(), Some(&12));
    sum.sub_assign(2);
    assert_eq!(sum.as_val(), Some(&10));
    assert!(matches!(force_op(a).add(3), Forced::Val(10)));
    assert!(matches!(force_op(b).sub(3), Forced::Val(4)));
    match force_op(c.clone()).sub(3) {
        Forced::Mapped(mut map) => {
            assert_eq!(map.anchors.0.token(), 7);
            assert_eq!((map.f)(&10), 7);
        },
        Forced::Val(_) => panic!("not a value"),
    }
    let mut forced = force_op(c);
    let mut map = forced.add_assign(5, 12).unwrap();
    assert_eq!(map.anchors.0.token(), 7);
    assert_eq!((map.f)(&10), 15);
    assert_eq!(forced.0.as_anchor().map(|a| a.token()), Some(12));
    let mut forced = force_op(ValOrAnchor::Val(9u32));
    assert!(forced.sub_assign(5, 12).is_none());
    assert_eq!(forced.0.as_val(), Some(&4));
}

#[test]
fn answers_tell_waiting_from_gone() {
    assert!(Poll::Pending.is_waiting());
    assert!(Poll::PendingDefer.is_waiting());
    assert!(!Poll::PendingInvalidToken.is_waiting());
    assert!(Poll::PendingInvalidToken.is_invalid_token());
    assert!(!Poll::Updated.is_invalid_token());
}

#[test]
fn occurrences_are_counted_and_reported_now_and_then() {
    let mut log = TokenLog::new();
    assert_eq!(log.bump(4), 1);
    assert_eq!(log.bump(4), 2);
    assert_eq!(log.bump(5), 1);
    let reported: Vec<u32> = (1..=3000).filter(|n| should_log_invalid_token(*n)).collect();
    assert_eq!(reported, vec![1, 10, 100, 1000, 2000, 3000]);
    assert!(should_log_unexpected_pending(10));
    assert!(!should_log_unexpected_pending(11));
}

#[test]
fn memory_is_told_in_bytes() {
    assert_eq!(rss_bytes_from_raw(2048), 2097152);
    assert_eq!(rss_bytes_from_raw(999_999_999), 1_023_999_998_976);
    assert_eq!(rss_bytes_from_raw(1_000_000_000), 1_000_000_000);
}

#[test]
fn requests_that_are_put_down_are_counted() {
    let mut stats = AnchorsPendingStats::default();
    stats.record_enqueue(PendingEnqueueOutcome::Inserted, 1);
    stats.record_drain(1);
    stats.record_enqueue(PendingEnqueueOutcome::Replaced, 3);
    stats.record_len(2);
    assert_eq!(stats.total_enqueued_raw, 2);
    assert_eq!(stats.total_enqueued_unique, 1);
    assert_eq!(stats.dedup_hits, 1);
    assert_eq!(stats.max_queue_len, 3);
    assert_eq!(stats.last_enqueue_len, 2);
    assert_eq!(stats.total_drained, 1);
    assert_eq!(stats.last_drain_drained, 1);
    stats.record_drain(0);
    assert_eq!(stats.last_drain_drained, 1);
}

#[test]
fn a_child_is_tried_once() {
    let mut queue = PendingQueue::new();
    assert!(matches!(queue.insert(request(1, 7, false, PendingPriority::BackgroundLow)), PendingEnqueueOutcome::Inserted));
    assert!(matches!(queue.insert(request(1, 8, false, PendingPriority::RenderCritical)), PendingEnqueueOutcome::Inserted));
    assert_eq!(queue.len(), 2);
    assert!(matches!(queue.insert(request(2, 7, true, PendingPriority::LayoutHigh)), PendingEnqueueOutcome::Replaced));
    assert_eq!(queue.len(), 2);
    let children: Vec<usize> = queue.drain_all().iter().map(|r| r.child).collect();
    assert_eq!(children, vec![8, 7]);
    assert!(queue.is_empty());
}

#[test]
fn a_pool_has_a_block_for_each_item_within_bounds() {
    assert_eq!(pool_for(0), 0);
    assert_eq!(pool_for(12), 12);
    assert_eq!(pool_for(0x0fff_ffff), 0x0fff_ffff);
    assert_eq!(pool_for(0x1000_0000), 0x0fff_ffff);
}

fn request(parent: usize, child: usize, necessary: bool, priority: PendingPriority) -> PendingRequest {
    PendingRequest { parent, child, necessary, priority }
}

#[test]
fn requests_are_tried_again_by_their_priority() {
    let mut queue = PendingQueue::new();
    assert!(queue.is_empty());
    let low = PendingPriority::default_for(false, false);
    let normal = PendingPriority::default_for(true, false);
    let high = PendingPriority::default_for(false, true);
    let critical = PendingPriority::default_for(true, true);
    assert_eq!([low.as_u8(), normal.as_u8(), high.as_u8(), critical.as_u8()], [0, 1, 2, 3]);
    assert_eq!(queue.insert(request(1, 10, false, low)), PendingEnqueueOutcome::Inserted);
    assert_eq!(queue.insert(request(1, 11, true, critical)), PendingEnqueueOutcome::Inserted);
    assert_eq!(queue.insert(request(1, 12, true, critical)), PendingEnqueueOutcome::Inserted);
    assert_eq!(queue.insert(request(1, 13, false, high)), PendingEnqueueOutcome::Inserted);
    assert_eq!(queue.insert(request(2, 10, true, normal)), PendingEnqueueOutcome::Replaced);
    assert_eq!(queue.len(), 4);
    assert_eq!(queue.pop_front(), Some(request(1, 11, true, critical)));
    assert_eq!(
        queue.drain_all(),
        vec![request(1, 12, true, critical), request(1, 13, false, high), request(2, 10, true, normal)]
    );
    assert_eq!(queue.pop_front(), None);
    queue.insert(request(1, 10, true, critical));
    queue.insert(request(3, 10, false, low));
    assert_eq!(queue.pop_front(), Some(request(3, 10, true, critical)));
    queue.insert(request(1, 10, false, low));
    queue.clear();
    assert!(queue.is_empty());
    assert_eq!(low.raised_to(high), high);
    assert_eq!(high.raised_to(low), high);
}

#[test]
fn the_limit_of_recalculations_goes_by_the_size_of_the_graph() {
    assert_eq!(spin_limit_for(false, Some(7), 1000), 0);
    assert_eq!(spin_limit_for(true, Some(7), 1000), 7);
    assert_eq!(spin_limit_for(true, None, 10), 5000);
    assert_eq!(spin_limit_for(true, None, 1000), 64000);
    assert_eq!(spin_limit_for(true, None, usize::MAX), usize::MAX);
}

#[test]
fn values_are_compared_with_what_stands_for_them() {
    let val: ValOrAnchor<u32> = 7.into();
    let anchor: ValOrAnchor<u32> = Anchor::new_from_expert(5).into();
    assert!(val == 7);
    assert!(val != 8);
    assert!(anchor != 5);
    assert!(anchor == Anchor::new_from_expert(5));
    assert!(val != Anchor::new_from_expert(7));
    let a: Var<u32> = Var::new(Anchor::new_from_expert(3));
    let b: Var<u32> = Var::new(Anchor::new_from_expert(4));
    assert!(a == a);
    assert!(a != b);
    let e: EitherOf<u32> = 4.into();
    assert!(e.is_val());
    let e: EitherOf<u32> = Anchor::new_from_expert(4).into();
    assert_eq!(e.as_anchor().map(|a| a.token()), Some(4));
    let cast: Casted<u64, u32> = a.cast_into();
    assert!(matches!(cast, Casted::Mapped(anchor) if anchor.token() == 3));
    let default: ValOrAnchor<u32> = ValOrAnchor::default();
    assert!(default == 0);
}
