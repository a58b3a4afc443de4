use actor_rs::actor_path::{address_to_string, protocol_from_str, protocol_to_string, ActorPath, RootActorPath};
use actor_rs::actor_rc::Arc;
use actor_rs::address::{Address, Protocol, SocketAddress};
use actor_rs::config::{ActorConfig, Config, CoreConfig};
use actor_rs::coordinated_shutdown::Phase;
use actor_rs::dead_letters::{DeadLetterListener, DeadMessage, Dropped};
use actor_rs::extension::{Extension, ExtensionError, SystemExtension};
use actor_rs::patterns::{is_auto_received_message, is_system_message, AskError, AskReply, MessageKind, Patterns};
use actor_rs::provider::{
    check_child_name_free, child_uid, default_address, is_local_root, lookup_step, resolve_route,
    send_error_message, standard_paths, stop_via, LookupStep, Route, SendFailure, StopVia,
};
use actor_rs::states::{ActorState, ClusterMember, Directive, MemberState};

#[test]
fn states_render_their_names() {
    assert_eq!(ActorState::CanTerminate.to_display_string(), "CanTerminate");
    assert_eq!(Directive::default(), Directive::Resume);
    assert_eq!(Directive::Escalate.to_display_string(), "Escalate");
    let m = ClusterMember { addr: SocketAddress { a: 1, b: 2, c: 3, d: 4, port: 5 }, state: MemberState::Connected, heartbeat: 9 };
    assert_eq!(m.state, MemberState::Connected);
}

#[test]
fn dead_message_renders() {
    assert_eq!(DeadMessage("hello".to_string()).to_display_string(), "DeadMessage(hello)");
    let _ = DeadLetterListener;
    let _ = Dropped::new("m".to_string(), "full".to_string(), None);
}

#[test]
fn shared_value_is_read_by_its_owner() {
    let a = Arc::new(3, 41u32);
    let b = a.clone(3);
    assert_eq!(**b.get(3), 41);
}

#[test]
fn core_config_merge_prefers_the_other() {
    let mut slow = Phase::default();
    slow.timeout = 5;
    let a = CoreConfig::new(vec![("x".to_string(), Phase::default()), ("y".to_string(), Phase::default())]);
    let b = CoreConfig::new(vec![("y".to_string(), slow), ("z".to_string(), Phase::default())]);
    let m = a.merge(b);
    let names: Vec<&str> = m.phases().iter().map(|(n, _)| n.as_str()).collect();
    assert_eq!(names, vec!["x", "y", "z"]);
    assert_eq!(m.phases()[1].1.timeout, 5);
    let _ = ActorConfig {};
}

struct Counter(bool);

impl Extension for Counter {
    fn init(&self) -> Result<(), String> {
        if self.0 { Ok(()) } else { Err("no".to_string()) }
    }
}

#[test]
fn extensions_register_once() {
    let mut ext = SystemExtension::new();
    assert!(ext.register("a".to_string(), Counter(true)).is_ok());
    assert!(matches!(ext.register("a".to_string(), Counter(true)), Err(ExtensionError::AlreadyRegistered { .. })));
    assert!(matches!(ext.register("b".to_string(), Counter(false)), Err(ExtensionError::InitFailed { .. })));
    assert!(ext.contains("b"));
    assert!(ext.get("a").is_some());
    assert!(ext.get("c").is_none());
}

#[test]
fn ask_outcomes() {
    assert_eq!(Patterns::handle_resp("t", "Req", "Resp", "1s", AskReply::Orphan { value: Some(5) }).unwrap(), 5);
    match Patterns::handle_resp::<u8>("t", "Req", "Resp", "1s", AskReply::TimedOut) {
        Err(AskError::TimedOut(m)) => assert_eq!(
            m,
            "ask t with Req timeout after 1s, a typical reason is that the recipient actor didn't send a reply"
        ),
        _ => panic!(),
    }
    match Patterns::handle_resp::<u8>("t", "Req", "Resp", "1s", AskReply::Orphan { value: None }) {
        Err(AskError::WrongType(m)) => assert_eq!(m, "ask t with Req expect Resp resp, but found other resp"),
        _ => panic!(),
    }
    assert!(matches!(Patterns::handle_resp::<u8>("t", "R", "S", "1s", AskReply::Other), Err(AskError::NotOrphan(_))));
    assert!(matches!(Patterns::handle_resp::<u8>("t", "R", "S", "1s", AskReply::Closed), Err(AskError::Closed(_))));
}

#[test]
fn message_kinds() {
    assert!(is_auto_received_message(MessageKind::PoisonPill));
    assert!(!is_auto_received_message(MessageKind::Watch));
    assert!(is_system_message(MessageKind::Watch));
    assert!(!is_system_message(MessageKind::User));
}

#[test]
fn provider_paths_and_routes() {
    let address = default_address("game");
    assert_eq!(address_to_string(&address), "tcp://game");
    let paths = standard_paths(address.clone());
    assert_eq!(paths.user_guardian.to_serialization_format(), "tcp://game/user");
    assert_eq!(paths.temp.to_display_string(), "tcp://game/temp");
    let extra = vec!["cluster".to_string()];
    assert!(matches!(resolve_route(&paths.temp.child("x"), &address, &extra), Route::Temp { rest } if rest == vec!["x"]));
    assert!(matches!(resolve_route(&paths.dead_letters, &address, &extra), Route::DeadLetters));
    assert!(matches!(resolve_route(&paths.root.child("cluster"), &address, &extra), Route::Extra { name } if name == "cluster"));
    assert!(matches!(resolve_route(&paths.user_guardian.child("a"), &address, &extra), Route::RootChild { elements } if elements == vec!["user", "a"]));
    let other = Address::new(Protocol::Tcp, "other", None);
    assert!(matches!(resolve_route(&paths.user_guardian, &other, &extra), Route::DeadLetters));
    assert!(is_local_root(&address, &address));
    assert!(!is_local_root(&address, &other));
}

#[test]
fn child_naming() {
    assert_eq!(child_uid("system"), 0);
    assert_eq!(child_uid("user"), 0);
    assert_ne!(child_uid("worker"), 0);
    assert!(check_child_name_free("a", &vec!["b".to_string()]).is_ok());
    assert_eq!(check_child_name_free("b", &vec!["b".to_string()]).err().unwrap(), "duplicate actor name b");
    assert_eq!(lookup_step(".."), LookupStep::Parent);
    assert_eq!(lookup_step(""), LookupStep::Stay);
    assert_eq!(lookup_step("x"), LookupStep::Child);
}

#[test]
fn send_errors_are_reported() {
    assert_eq!(
        send_error_message(SendFailure::Full, "Ping", None, "a"),
        "message Ping to a was not delivered because mailbox is full"
    );
    assert_eq!(
        send_error_message(SendFailure::Closed, "Ping", Some("b"), "a"),
        "message Ping from b to a was not delivered because actor stopped"
    );
}

#[test]
fn protocol_text_round_trips() {
    assert_eq!(protocol_to_string(Protocol::Tcp), "tcp");
    assert_eq!(protocol_from_str("tcp"), Some(Protocol::Tcp));
    assert_eq!(protocol_from_str("udp"), None);
    let root = ActorPath::RootActorPath(RootActorPath::new(Address::new(Protocol::Tcp, "s", None), "/".to_string()));
    assert_eq!(root.to_display_string(), "tcp://s/");
}

#[derive(Debug, Clone, PartialEq)]
enum Registered {
    A,
    B,
}

impl Extension for Registered {}

#[test]
fn test_extension() {
    let mut extensions = SystemExtension::new();
    assert!(extensions.get("ExtensionA").is_none());
    assert!(extensions.register("ExtensionA".to_string(), Registered::A).is_ok());
    assert!(extensions.register("ExtensionB".to_string(), Registered::B).is_ok());
    assert!(extensions.get("ExtensionA").is_some());
    assert!(extensions.get("ExtensionB").is_some());
}

#[test]
fn extension_changed_in_place() {
    let mut extensions = SystemExtension::new();
    assert!(extensions.register("ExtensionA".to_string(), Registered::A).is_ok());
    assert!(extensions.get_mut("ExtensionB").is_none());
    if let Some(e) = extensions.get_mut("ExtensionA") {
        *e = Registered::B;
    }
    assert_eq!(extensions.get("ExtensionA"), Some(&Registered::B));
}

#[test]
fn stopping_goes_through_the_guardian_of_the_parent() {
    let paths = standard_paths(Address::new(Protocol::Tcp, "sys", None));
    let user_child = paths.user_guardian.child("worker");
    let system_child = paths.system_guardian.child("logger");
    let grandchild = user_child.child("task");
    assert_eq!(stop_via(&user_child, &paths.user_guardian, &paths.system_guardian), StopVia::UserGuardian);
    assert_eq!(stop_via(&system_child, &paths.user_guardian, &paths.system_guardian), StopVia::SystemGuardian);
    assert_eq!(stop_via(&grandchild, &paths.user_guardian, &paths.system_guardian), StopVia::Itself);
    assert_eq!(stop_via(&paths.user_guardian, &paths.user_guardian, &paths.system_guardian), StopVia::Itself);
}
