use actor_rs::actor_path::{ActorPath, RootActorPath};
use actor_rs::address::{Address, Protocol};
use actor_rs::children::ChildRegistry;

fn root() -> ActorPath {
    ActorPath::RootActorPath(RootActorPath::new(Address::new(Protocol::Tcp, "sys", None), "/".to_string()))
}

#[test]
fn children_register_once_and_leave_on_termination() {
    let mut reg = ChildRegistry::new();
    let user = reg.make_child(&root(), "user", 1).unwrap();
    assert_eq!(user.uid(), 0);
    assert_eq!(user.elements(), vec!["user".to_string()]);
    let worker = reg.make_child(&root(), "worker", 2).unwrap();
    assert_ne!(worker.uid(), 0);
    assert_eq!(reg.make_child(&root(), "worker", 3).unwrap_err(), "duplicate actor name worker");
    assert_eq!(reg.len(), 2);
    assert_eq!(reg.child("worker"), Some(2));
    assert_eq!(reg.names(), vec!["user".to_string(), "worker".to_string()]);
    assert_eq!(reg.remove_child("user"), Some(1));
    assert_eq!(reg.remove_child("user"), None);
    assert_eq!(reg.child("user"), None);
    assert_eq!(reg.len(), 1);
}

#[test]
fn child_names_may_hold_a_slash() {
    let p = root().child("a/b#7");
    assert_eq!(p.name(), "a/b");
    assert_eq!(p.uid(), 7);
}
