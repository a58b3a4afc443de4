use actor_rs::fault_handling::{
    default_strategy, handle_failure, max_nr_or_retries_option, stopping_strategy,
    within_time_range_option, AllForOneStrategy, ChildRestartStats, ChildVerdict,
    ChildrenVerdict, Directive, FailureStep, OneForOneStrategy,
};

fn stats(count: i32, start: i64) -> ChildRestartStats {
    ChildRestartStats { max_nr_of_retries_count: count, restart_time_window_start_nanos: start }
}

#[test]
fn directive_defaults_to_restart() {
    assert_eq!(Directive::default(), Directive::Restart);
}

#[test]
fn handle_failure_follows_the_directive() {
    assert_eq!(handle_failure(Directive::Resume), FailureStep::Resume);
    assert_eq!(handle_failure(Directive::Restart), FailureStep::Process { restart: true });
    assert_eq!(handle_failure(Directive::Stop), FailureStep::Process { restart: false });
    assert_eq!(handle_failure(Directive::Escalate), FailureStep::Escalate);
    assert!(handle_failure(Directive::Resume).handled());
    assert!(!handle_failure(Directive::Escalate).handled());
}

#[test]
fn retries_limit_is_none_when_negative() {
    assert_eq!(max_nr_or_retries_option(-1), None);
    assert_eq!(max_nr_or_retries_option(0), Some(0));
    assert_eq!(max_nr_or_retries_option(7), Some(7));
}

#[test]
fn time_range_is_none_when_zero() {
    assert_eq!(within_time_range_option(None), None);
    assert_eq!(within_time_range_option(Some(0)), None);
    assert_eq!(within_time_range_option(Some(5)), Some(5));
}

#[test]
fn retries_window_converts_nanoseconds_to_milliseconds() {
    let s = OneForOneStrategy { max_nr_of_retries: 3, within_time_range: Some(2_500_000_000), directive: Directive::Restart };
    assert_eq!(s.retries_window(), (Some(3), Some(2500)));
    let s = AllForOneStrategy { max_nr_of_retries: -1, within_time_range: Some(999_999), directive: Directive::Stop };
    assert_eq!(s.retries_window(), (None, Some(0)));
}

#[test]
fn no_limits_always_permit() {
    let mut s = stats(0, 0);
    assert!(s.request_restart_permission((None, None)));
    assert_eq!(s.max_nr_of_retries_count, 0);
}

#[test]
fn limit_below_one_refuses() {
    let mut s = stats(0, 0);
    assert!(!s.request_restart_permission((Some(0), None)));
    assert!(!s.request_restart_permission((Some(-3), Some(10))));
    assert_eq!(s.max_nr_of_retries_count, 0);
}

#[test]
fn counted_limit_permits_up_to_the_limit() {
    let mut s = stats(0, 0);
    assert!(s.request_restart_permission((Some(2), None)));
    assert!(s.request_restart_permission((Some(2), None)));
    assert!(!s.request_restart_permission((Some(2), None)));
    assert_eq!(s.max_nr_of_retries_count, 3);
}

#[test]
fn window_inside_counts_against_the_limit() {
    let mut s = stats(0, 0);
    assert!(s.retries_in_window_okay_at(2, 1000, 5_000_000_000));
    assert_eq!(s.restart_time_window_start_nanos, 5_000_000_000);
    assert_eq!(s.max_nr_of_retries_count, 1);
    assert!(s.retries_in_window_okay_at(2, 1000, 5_500_000_000));
    assert!(!s.retries_in_window_okay_at(2, 1000, 5_900_000_000));
    assert_eq!(s.max_nr_of_retries_count, 3);
}

#[test]
fn window_after_opens_a_new_window() {
    let mut s = stats(5, 1_000_000_000);
    assert!(s.retries_in_window_okay_at(2, 1000, 3_000_000_000));
    assert_eq!(s.max_nr_of_retries_count, 1);
    assert_eq!(s.restart_time_window_start_nanos, 3_000_000_000);
}

#[test]
fn request_at_uses_one_retry_without_a_limit() {
    let mut s = stats(0, 0);
    assert!(s.request_restart_permission_at((None, Some(1000)), 10));
    assert!(!s.request_restart_permission_at((None, Some(1000)), 20));
}

#[test]
fn clock_window_check_counts() {
    let mut s = stats(0, 0);
    assert!(s.retries_in_window_okay(5, 60_000));
    assert_eq!(s.max_nr_of_retries_count, 1);
    assert!(s.restart_time_window_start_nanos != 0);
}

#[test]
fn one_for_one_stops_without_restart() {
    let s = default_strategy();
    let mut st = stats(0, 0);
    assert_eq!(s.process_failure(false, &mut st), ChildVerdict::Stop);
    assert_eq!(s.process_failure(true, &mut st), ChildVerdict::Restart);
    assert_eq!(stopping_strategy().directive(), Directive::Stop);
    assert_eq!(default_strategy().directive(), Directive::Restart);
}

#[test]
fn all_for_one_restarts_all_or_stops_all() {
    let s = AllForOneStrategy { max_nr_of_retries: 1, within_time_range: None, directive: Directive::Restart };
    let mut none: Vec<ChildRestartStats> = vec![];
    assert_eq!(s.process_failure(true, &mut none), ChildrenVerdict::Nothing);
    let mut children = vec![stats(0, 0), stats(0, 0)];
    assert_eq!(s.process_failure(true, &mut children), ChildrenVerdict::RestartAll);
    assert_eq!(s.process_failure(true, &mut children), ChildrenVerdict::StopAll);
    assert_eq!(children[0].max_nr_of_retries_count, 2);
    assert_eq!(children[1].max_nr_of_retries_count, 1);
    assert_eq!(s.process_failure(false, &mut children), ChildrenVerdict::StopAll);
}

#[test]
fn windowed_request_is_the_window_check() {
    for (retries, limit) in [(None, 1), (Some(2), 2), (Some(3), 3)] {
        let mut a = stats(0, 0);
        let mut b = stats(0, 0);
        for now in [10i64, 20, 30, 2_000_000_000] {
            let ra = a.request_restart_permission_at((retries, Some(1000)), now);
            let rb = b.retries_in_window_okay_at(limit, 1000, now);
            assert_eq!(ra, rb);
            assert_eq!(a.max_nr_of_retries_count, b.max_nr_of_retries_count);
            assert_eq!(a.restart_time_window_start_nanos, b.restart_time_window_start_nanos);
        }
    }
}

#[test]
fn clock_reading_gives_a_window_check() {
    let mut s = stats(0, 0);
    assert!(s.retries_in_window_okay(3, 60_000));
    assert!(s.restart_time_window_start_nanos > 0);
    assert_eq!(s.max_nr_of_retries_count, 1);
}

#[test]
fn reading_out_of_range_refuses_and_keeps_stats() {
    let mut s = stats(2, i64::MAX - 5);
    assert!(!s.retries_in_window_okay_at(10, 1000, i64::MIN));
    assert_eq!(s.max_nr_of_retries_count, 2);
    assert_eq!(s.restart_time_window_start_nanos, i64::MAX - 5);
    let mut t = stats(2, i64::MAX - 5);
    assert!(!t.request_restart_permission_at((Some(10), Some(1000)), i64::MIN));
    assert_eq!(t.max_nr_of_retries_count, 2);
    let mut u = stats(2, 1_000_000_000);
    assert!(u.retries_in_window_okay_at(10, 1000, 1_500_000_000));
    assert_eq!(u.max_nr_of_retries_count, 3);
}
