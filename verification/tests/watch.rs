use actor_rs::clock_model::ClockOrdering;
use actor_rs::death_watch::{DeathWatch, SubscriptionChange, WatchError, WatchedActor};
use actor_rs::reachability::ReachabilityStatus;
use actor_rs::stash::Stash;

fn local(id: u64) -> WatchedActor {
    WatchedActor { id, local: true }
}

fn remote(id: u64) -> WatchedActor {
    WatchedActor { id, local: false }
}

#[test]
fn stash_keeps_order_and_drops_the_oldest() {
    let mut s = Stash::new(Some(2));
    assert_eq!(s.stash(1), None);
    assert_eq!(s.stash(2), None);
    assert_eq!(s.stash(3), Some(1));
    assert_eq!(s.len(), 2);
    assert_eq!(s.unstash(), Some(2));
    assert_eq!(s.unstash_all(), vec![3]);
    assert_eq!(s.unstash(), None);
    let mut unbounded = Stash::new(None);
    for i in 0..10 {
        assert_eq!(unbounded.stash(i), None);
    }
    assert_eq!(unbounded.len(), 10);
}

#[test]
fn watch_refuses_self_and_duplicates() {
    let mut w: DeathWatch<&str> = DeathWatch::new(1);
    assert_eq!(w.watch(local(1), None), Err(WatchError::CannotWatchSelf));
    assert_eq!(w.watch(local(2), None), Ok(SubscriptionChange::Unchanged));
    assert_eq!(w.watch(local(2), None), Err(WatchError::Duplicate));
    assert!(w.is_watching(2));
    assert_eq!(w.watch(remote(3), Some("gone")), Ok(SubscriptionChange::Subscribe));
}

#[test]
fn unwatch_drops_the_watch_and_its_queue_entry() {
    let mut w: DeathWatch<&str> = DeathWatch::new(1);
    assert!(w.watch(remote(3), None).is_ok());
    assert_eq!(w.unwatch(local(9)), None);
    assert_eq!(w.unwatch(remote(3)), Some(SubscriptionChange::Unsubscribe));
    assert!(!w.is_watching(3));
}

#[test]
fn terminated_watchee_is_queued_once() {
    let mut w: DeathWatch<&str> = DeathWatch::new(1);
    assert!(w.watch(local(2), Some("bye")).is_ok());
    assert_eq!(w.watched_actor_terminated(local(2), false), (true, Some(SubscriptionChange::Unchanged), true));
    assert_eq!(w.watched_actor_terminated(local(2), false), (false, None, false));
    assert!(w.watch(local(4), None).is_ok());
    assert_eq!(w.watched_actor_terminated(local(4), true), (true, Some(SubscriptionChange::Unchanged), false));
}

#[test]
fn watchers_are_told_remote_first_without_the_parent() {
    let mut w: DeathWatch<()> = DeathWatch::new(1);
    assert_eq!(w.add_watcher(local(5)), Some(SubscriptionChange::Unchanged));
    assert_eq!(w.add_watcher(remote(6)), Some(SubscriptionChange::Subscribe));
    assert_eq!(w.add_watcher(local(7)), Some(SubscriptionChange::Unchanged));
    assert_eq!(w.add_watcher(local(7)), None);
    let (told, change) = w.tell_watchers_we_died(Some(7));
    assert_eq!(told, vec![6, 5]);
    assert_eq!(change, SubscriptionChange::Unsubscribe);
}

#[test]
fn unwatching_all_clears_everything() {
    let mut w: DeathWatch<()> = DeathWatch::new(1);
    assert!(w.unwatch_watched_actors().is_none());
    assert!(w.watch(local(2), None).is_ok());
    assert!(w.watch(local(3), None).is_ok());
    let (ids, change) = w.unwatch_watched_actors().unwrap();
    assert_eq!(ids, vec![2, 3]);
    assert_eq!(change, SubscriptionChange::Subscribe);
    assert!(!w.is_watching(2));
}

#[test]
fn statuses_and_orderings_render() {
    assert_eq!(ReachabilityStatus::Unreachable.to_display_string(), "Unreachable");
    assert_eq!(ClockOrdering::Concurrent.to_display_string(), "Concurrent");
}
