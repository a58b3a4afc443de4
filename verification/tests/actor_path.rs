use std::collections::hash_map::DefaultHasher;
use std::hash::{Hash, Hasher};
use actor_rs::actor_path::{address_to_string, ActorPath, ChildActorPath, RootActorPath};
use actor_rs::address::{Address, Protocol, SocketAddress};
use actor_rs::text::Order3;
use actor_rs::url_paths::{ActorPathExtractor, PathError, PathUtils, SerializedActorRef};

fn build_address() -> Address {
    Address::new(Protocol::Tcp, "mikai233", Some(SocketAddress { a: 127, b: 0, c: 0, d: 1, port: 12121 }))
}

fn root_of(address: Address, name: &str) -> ActorPath {
    ActorPath::RootActorPath(RootActorPath::new(address, name.to_string()))
}

fn build_actor_path() -> ActorPath {
    let root = root_of(build_address(), "/");
    root.descendant(&vec![
        "user".to_string(),
        "$a".to_string(),
        "$a".to_string(),
        format!("$aa#{}", ActorPath::new_uid()),
    ])
}

#[test]
fn test_root_actor() {
    let addr = build_address();
    let _ = RootActorPath::new(addr.clone(), "/a".to_string());
    let root = root_of(addr, "a");
    let same = root.with_uid(ActorPath::undefined_uid());
    assert!(same.same_path(&root));
}

#[test]
fn test_actor_path() {
    let root = root_of(build_address(), "/");
    let child = root.child("b121#112223289");
    assert_eq!(child.to_display_string(), format!("{}/b121", address_to_string(&build_address())));
    let c1 = child.child("child1#-12324");
    assert_eq!(c1.to_display_string(), format!("{}/b121/child1", address_to_string(&build_address())));
    let c2 = child.child("child2#3249238");
    assert_eq!(c2.to_display_string(), format!("{}/b121/child2", address_to_string(&build_address())));
}

#[test]
fn test_actor_path_serde() {
    let actor_path = build_actor_path();
    let url = actor_path.to_serialization_format();
    let parse_path = ActorPath::from_str(&url).unwrap();
    assert!(actor_path.same_path(&parse_path));
    assert_eq!(parse_path.uid(), actor_path.uid());
}

#[test]
fn test_to_string_without_address() {
    let root = root_of(build_address(), "/");
    assert_eq!(root.to_string_without_address(), "");
    let actor_path = build_actor_path();
    assert_eq!(actor_path.to_string_without_address(), "user/$a/$a/$aa");
}

#[test]
fn test_to_string_with_address() {
    let actor_path = build_actor_path();
    let address = Address::new(Protocol::Tcp, "mikai", None);
    assert_eq!(actor_path.to_string_with_address(&address), "tcp://mikai/user/$a/$a/$aa");
    let address = Address::new(Protocol::Tcp, "mikai", Some(SocketAddress { a: 127, b: 0, c: 0, d: 1, port: 9988 }));
    assert_eq!(actor_path.to_string_with_address(&address), "tcp://mikai@127.0.0.1:9988/user/$a/$a/$aa");
}

#[test]
fn test_eq() {
    let actor_path = build_actor_path();
    assert!(actor_path.same_path(&actor_path));
    assert!(!actor_path.same_path(&actor_path.child("u")));
    let addr = Address::new(Protocol::Tcp, "mikai233", None);
    let root = root_of(addr, "/");
    let actor_path2 = root.descendant(&vec![
        "user".to_string(),
        "$a".to_string(),
        "$a".to_string(),
        format!("$aa#{}", ActorPath::new_uid()),
    ]);
    assert!(!actor_path.same_path(&actor_path2));
}

#[test]
fn test_order() {
    let actor_path = build_actor_path();
    assert!(!(actor_path.compare(&actor_path) == Order3::Greater));
    assert!(!actor_path.lt(&actor_path));
    let actor_path2 = actor_path.child("u");
    assert!(actor_path.lt(&actor_path2));
    let actor_path3 = actor_path.child("a");
    assert!(actor_path3.lt(&actor_path2));
    let addr = Address::new(Protocol::Tcp, "mikai234", None);
    let root = root_of(addr, "/");
    let actor_path4 = root.descendant(&vec![
        "user".to_string(),
        "$a".to_string(),
        "$a".to_string(),
        format!("$aa#{}", ActorPath::new_uid()),
    ]);
    assert!(actor_path.lt(&actor_path4));
}

#[test]
fn split_name_and_uid_reads_the_suffix() {
    assert_eq!(ActorPath::split_name_and_uid("abc"), ("abc".to_string(), 0));
    assert_eq!(ActorPath::split_name_and_uid("abc#-12"), ("abc".to_string(), -12));
    assert_eq!(ActorPath::split_name_and_uid("a#+7"), ("a".to_string(), 7));
    assert_eq!(ActorPath::split_name_and_uid("#5"), ("".to_string(), 5));
}

#[test]
fn new_uid_is_never_undefined() {
    for _ in 0..100 {
        assert_ne!(ActorPath::new_uid(), ActorPath::undefined_uid());
    }
}

#[test]
fn serialization_format_carries_the_uid() {
    let root = root_of(build_address(), "/");
    let child = root.child("worker#-3");
    assert_eq!(child.to_serialization_format(), "tcp://mikai233@127.0.0.1:12121/worker#-3");
    assert_eq!(root.to_serialization_format(), "tcp://mikai233@127.0.0.1:12121/");
    let other = Address::new(Protocol::Tcp, "x", None);
    assert_eq!(child.to_serialization_format_with_address(&other), "tcp://x/worker#-3");
    let plain = child.with_uid(0);
    assert_eq!(plain.to_serialization_format(), "tcp://mikai233@127.0.0.1:12121/worker");
    assert_eq!(plain.uid(), 0);
    assert_eq!(plain.name(), "worker");
}

#[test]
fn parent_root_and_elements() {
    let root = root_of(build_address(), "/");
    let child = root.child("a").child("b");
    assert_eq!(child.elements(), vec!["a".to_string(), "b".to_string()]);
    assert_eq!(root.elements(), vec!["".to_string()]);
    assert!(child.parent().same_path(&root.child("a")));
    assert!(root.parent().same_path(&root));
    assert_eq!(child.root().name, "/");
    assert!(child.address().same_as(&build_address()));
    let direct = ActorPath::ChildActorPath(ChildActorPath::new(root.clone(), "z".to_string(), 4));
    assert_eq!(direct.uid(), 4);
}

#[test]
fn from_str_reports_errors() {
    assert_eq!(ActorPath::from_str("not a url").err(), Some(PathError::InvalidUrl));
    assert_eq!(ActorPath::from_str("udp://sys@127.0.0.1:1/a").err(), Some(PathError::UnknownProtocol));
    assert_eq!(ActorPath::from_str("tcp://sys@127.0.0.1/a").err(), Some(PathError::NoPort));
    assert_eq!(ActorPath::from_str("tcp://sys@localhost:1/a").err(), Some(PathError::InvalidSocketAddress));
    assert_eq!(ActorPath::from_str("tcp://sys@127.0.0.1:1/a#x").err(), Some(PathError::InvalidUid));
    assert_eq!(ActorPath::from_str("tcp://sys@127.0.0.1:1#5").err(), Some(PathError::RootWithUid));
    let p = ActorPath::from_str("tcp://sys@10.0.0.2:80/user/b#9").unwrap();
    assert_eq!(p.to_serialization_format(), "tcp://sys@10.0.0.2:80/user/b#9");
}

#[test]
fn extractor_reads_address_and_pieces() {
    let (address, pieces) = ActorPathExtractor::extract("tcp://sys@127.0.0.1:2552/user/a#7").unwrap();
    assert_eq!(address.system, "sys");
    assert_eq!(address.protocol, Protocol::Tcp);
    assert_eq!(pieces, vec!["user".to_string(), "a#7".to_string()]);
    assert_eq!(ActorPathExtractor::extract("::").err(), Some(PathError::InvalidUrl));
}

#[test]
fn path_utils_split() {
    assert_eq!(ActorPathExtractor::split("/a/b", None), vec!["", "a", "b"]);
    assert_eq!(ActorPathExtractor::split("/a/b", Some("3")), vec!["", "a", "b#3"]);
    assert_eq!(ActorPathExtractor::split("", None), vec![""]);
}

#[test]
fn serialized_ref_round_trips() {
    let path = root_of(build_address(), "/").child("svc#11");
    let r = SerializedActorRef::from_path(&path);
    assert_eq!(r.to_display_string(), "tcp://mikai233@127.0.0.1:12121/svc#11");
    let back = r.parse_to_path().unwrap();
    assert!(back.same_path(&path));
    assert_eq!(back.uid(), 11);
}

#[test]
fn test_hash() {
    let mut hasher = DefaultHasher::new();
    let actor_path = build_actor_path();
    actor_path.hash(&mut hasher);
    let h1 = hasher.finish();
    let mut hasher = DefaultHasher::new();
    actor_path.hash(&mut hasher);
    let h2 = hasher.finish();
    assert_eq!(h1, h2);
    let actor_path2 = actor_path.child("a");
    let mut hasher = DefaultHasher::new();
    actor_path2.hash(&mut hasher);
    let h3 = hasher.finish();
    assert_ne!(h1, h3);
}
