use actor_rs::coordinated_shutdown::{
    check_task, ActorSystemStartFailedReason, ActorSystemTerminateReason, CoordinatedShutdown, CtrlCExitReason, Phase, Reason,
    ShutdownError,
};
use actor_rs::phase_order::{known_phases, topological_sort};

fn phase(deps: &[&str]) -> Phase {
    Phase { depends_on: deps.iter().map(|d| d.to_string()).collect(), timeout: 1_000, enabled: true }
}

fn position(order: &[String], name: &str) -> usize {
    order.iter().position(|n| n == name).unwrap()
}

#[test]
fn phase_defaults() {
    let p = Phase::default();
    assert!(p.depends_on.is_empty());
    assert_eq!(p.timeout, 10_000_000_000);
    assert!(p.enabled);
}

#[test]
fn sort_puts_dependencies_first() {
    let phases = vec![
        ("c".to_string(), phase(&["b"])),
        ("b".to_string(), phase(&["a"])),
        ("d".to_string(), phase(&["a", "c"])),
    ];
    let order = topological_sort(&phases).unwrap();
    assert_eq!(order, vec!["a", "b", "c", "d"]);
    assert!(position(&order, "a") < position(&order, "b"));
}

#[test]
fn sort_visits_names_in_ascending_order() {
    let phases = vec![("z".to_string(), phase(&[])), ("m".to_string(), phase(&[])), ("a".to_string(), phase(&[]))];
    assert_eq!(topological_sort(&phases).unwrap(), vec!["a", "m", "z"]);
}

#[test]
fn sort_refuses_a_cycle() {
    let phases = vec![
        ("a".to_string(), phase(&["b"])),
        ("b".to_string(), phase(&["c"])),
        ("c".to_string(), phase(&["a"])),
    ];
    match topological_sort(&phases) {
        Err(ShutdownError::Cycle { phase }) => assert!(["a", "b", "c"].contains(&phase.as_str())),
        _ => panic!("cycle not detected"),
    }
    let self_loop = vec![("x".to_string(), phase(&["x"]))];
    assert!(matches!(topological_sort(&self_loop), Err(ShutdownError::Cycle { .. })));
}

#[test]
fn known_phases_include_dependencies() {
    let phases = vec![("b".to_string(), phase(&["a", "c"])), ("a".to_string(), phase(&[]))];
    assert_eq!(known_phases(&phases), vec!["a", "b", "c"]);
}

#[test]
fn add_task_checks_phase_and_name() {
    let phases = vec![("b".to_string(), phase(&["a"]))];
    assert!(matches!(check_task(&phases, "zzz", "t"), Err(ShutdownError::UnknownPhase { .. })));
    assert!(matches!(check_task(&phases, "a", ""), Err(ShutdownError::EmptyTaskName)));
    assert!(check_task(&phases, "a", "t").is_ok());
}

#[test]
fn run_plans_enabled_phases_in_order_once() {
    let mut disabled = phase(&["a"]);
    disabled.enabled = false;
    let phases = vec![
        ("a".to_string(), phase(&[])),
        ("b".to_string(), phase(&["a"])),
        ("c".to_string(), disabled),
    ];
    let mut shutdown: CoordinatedShutdown<u32> = CoordinatedShutdown::new(phases).unwrap();
    assert!(shutdown.add_task("b", "t1".to_string(), 1).is_ok());
    assert!(shutdown.add_task("a", "t2".to_string(), 2).is_ok());
    assert!(shutdown.add_task("b", "t3".to_string(), 3).is_ok());
    assert!(shutdown.add_task("c", "t4".to_string(), 4).is_ok());
    assert!(matches!(shutdown.add_task("q", "t5".to_string(), 5), Err(ShutdownError::UnknownPhase { .. })));
    assert_eq!(shutdown.timeout(&"b".to_string()), Some(1_000));
    assert_eq!(shutdown.timeout(&"q".to_string()), None);
    assert!(!shutdown.run_started());
    let (runs, error) = shutdown.run(&ActorSystemTerminateReason).unwrap();
    assert_eq!(error, None);
    assert!(shutdown.is_terminating());
    assert_eq!(runs.len(), 2);
    assert_eq!(runs[0].phase, "a");
    assert_eq!(runs[0].tasks.len(), 1);
    assert_eq!(runs[0].tasks[0].task, 2);
    assert_eq!(runs[1].phase, "b");
    assert_eq!(runs[1].tasks.iter().map(|t| t.task).collect::<Vec<_>>(), vec![1, 3]);
    assert_eq!(runs[1].tasks[0].name, "t1");
    assert!(shutdown.run(&ActorSystemTerminateReason).is_none());
}

#[test]
fn new_refuses_cyclic_phases() {
    let phases = vec![("a".to_string(), phase(&["b"])), ("b".to_string(), phase(&["a"]))];
    assert!(CoordinatedShutdown::<u32>::new(phases).is_err());
}

#[test]
fn reasons_describe_themselves() {
    assert_eq!(CtrlCExitReason.describe(), "actor_rs::coordinated_shutdown::CtrlCExitReason");
    assert!(ActorSystemStartFailedReason("boom".to_string()).into_error().is_none());
}

#[test]
fn shutdown_ends_with_the_given_error_once() {
    let phases = vec![("a".to_string(), Phase::default())];
    let mut shutdown: CoordinatedShutdown<u32> = CoordinatedShutdown::new(phases).unwrap();
    assert!(shutdown.add_task("a", "t".to_string(), 7).is_ok());
    let (runs, error) = shutdown.run_with_error(Some("start failed".to_string())).unwrap();
    assert_eq!(error, Some("start failed".to_string()));
    assert_eq!(runs.len(), 1);
    assert_eq!(runs[0].tasks[0].task, 7);
    assert!(shutdown.run_with_error(None).is_none());
    assert!(shutdown.run(&ActorSystemTerminateReason).is_none());
}

#[test]
fn phases_run_in_depth_first_order_by_name() {
    let phases = vec![
        ("m".to_string(), phase(&["n", "l"])),
        ("b".to_string(), phase(&["c"])),
        ("a".to_string(), phase(&[])),
    ];
    let order = topological_sort(&phases).unwrap();
    assert_eq!(order, vec!["a", "c", "b", "l", "n", "m"]);
}
