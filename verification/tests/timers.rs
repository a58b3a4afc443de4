use actor_rs::timer_table::{expired_step, ExpiredAction, ExpiredKind, WatchedReceivers};

#[test]
fn expired_schedules_deliver_and_reschedule() {
    assert_eq!(
        expired_step(ExpiredKind::Once),
        ExpiredAction { send_message: true, reschedule_after: None, drop_index: true, unwatch: true }
    );
    assert_eq!(
        expired_step(ExpiredKind::OnceWith),
        ExpiredAction { send_message: false, reschedule_after: None, drop_index: true, unwatch: false }
    );
    assert_eq!(
        expired_step(ExpiredKind::FixedDelay { interval: 5 }),
        ExpiredAction { send_message: true, reschedule_after: Some(5), drop_index: false, unwatch: false }
    );
    assert_eq!(
        expired_step(ExpiredKind::FixedDelayWith { interval: 7 }),
        ExpiredAction { send_message: false, reschedule_after: Some(7), drop_index: false, unwatch: false }
    );
}

#[test]
fn receivers_are_unwatched_when_their_last_schedule_ends() {
    let mut w = WatchedReceivers::new();
    assert!(w.watch(10, 1));
    assert!(!w.watch(10, 2));
    assert!(!w.watch(10, 2));
    assert!(w.watch(20, 3));
    assert_eq!(w.unwatch_index(1), Vec::<u64>::new());
    assert_eq!(w.unwatch_index(3), vec![20]);
    assert_eq!(w.unwatch_index(2), vec![10]);
    assert_eq!(w.unwatch_index(2), Vec::<u64>::new());
    assert!(w.watch(30, 4));
    assert!(w.watch(40, 5));
    assert_eq!(w.clear(), vec![30, 40]);
    assert_eq!(w.clear(), Vec::<u64>::new());
}
