use actor_rs::actor_selection::{
    ActorSelection, ActorSelectionMessage, Delivery, DeliveryAction, SelectChildPattern,
    SelectionError, SelectionPathElement, empty_ref_path, selection_path,
};
use actor_rs::actor_path::{ActorPath, RootActorPath};
use actor_rs::address::{Address, Protocol};

fn texts(v: &[&str]) -> Vec<String> {
    v.iter().map(|s| s.to_string()).collect()
}

#[test]
fn selection_path_reads_names_patterns_and_parents() {
    let path = selection_path(&texts(&["user", "", "..", "wor*", "a?c"])).unwrap();
    assert_eq!(path.len(), 4);
    assert!(matches!(&path[0], SelectionPathElement::SelectChildName(c) if c.name == "user"));
    assert!(matches!(&path[1], SelectionPathElement::SelectParent(_)));
    assert!(matches!(&path[2], SelectionPathElement::SelectChildPattern(p) if p.as_str() == "wor*"));
    assert!(matches!(&path[3], SelectionPathElement::SelectChildPattern(_)));
}

#[test]
fn selection_path_refuses_an_invalid_pattern() {
    match selection_path(&texts(&["ok", "(*", "b"])) {
        Err(SelectionError::InvalidPattern { pattern }) => assert_eq!(pattern, "(*"),
        _ => panic!("pattern accepted"),
    }
}

#[test]
fn selection_renders_its_path() {
    let sel = ActorSelection::new(7u32, &texts(&["user", "..", "a*"])).unwrap();
    assert_eq!(sel.anchor, 7);
    assert_eq!(sel.path_str(), "user/../a*");
}

#[test]
fn pattern_matches_names() {
    let p = SelectChildPattern::new("^w.*r$").unwrap();
    assert!(p.is_match("worker"));
    assert!(!p.is_match("lead"));
    assert!(SelectChildPattern::new("[").is_none());
}

#[test]
fn message_needs_a_cloneable_payload() {
    assert!(matches!(ActorSelectionMessage::new(1u8, vec![], false, false), Err(SelectionError::NotCloneable)));
    let m = ActorSelectionMessage::new(1u8, vec![], true, true).unwrap();
    let copy = m.copy_with_elements(selection_path(&texts(&["x"])).unwrap(), false);
    assert_eq!(copy.message, 1);
    assert_eq!(copy.elements.len(), 1);
    assert!(!copy.wildcard_fan_out);
}

#[test]
fn delivery_with_no_elements_tells_the_anchor() {
    let (_, first) = Delivery::start(vec![], false);
    assert!(matches!(first, Some(DeliveryAction::TellCurrent)));
}

#[test]
fn delivery_walks_child_names() {
    let (mut d, first) = Delivery::start(selection_path(&texts(&["a", "b"])).unwrap(), false);
    assert!(first.is_none());
    assert!(matches!(d.next(true), DeliveryAction::LookupChild { name } if name == "a"));
    assert!(matches!(d.child_found(true), DeliveryAction::Continue));
    assert!(matches!(d.next(true), DeliveryAction::LookupChild { name } if name == "b"));
    assert!(matches!(d.child_found(true), DeliveryAction::TellFound));
}

#[test]
fn delivery_to_a_missing_child_goes_to_the_empty_actor() {
    let (mut d, _) = Delivery::start(selection_path(&texts(&["a"])).unwrap(), false);
    assert!(matches!(d.next(true), DeliveryAction::LookupChild { .. }));
    assert!(matches!(d.child_found(false), DeliveryAction::TellEmpty));
    let (mut fan, _) = Delivery::start(selection_path(&texts(&["a"])).unwrap(), true);
    assert!(matches!(fan.child_found(false), DeliveryAction::Stop));
}

#[test]
fn delivery_forwards_to_a_remote_actor() {
    let (mut d, _) = Delivery::start(selection_path(&texts(&["a", "b", "c"])).unwrap(), false);
    assert!(matches!(d.child_found(true), DeliveryAction::Continue));
    match d.next(false) {
        DeliveryAction::Forward { elements, wildcard_fan_out } => {
            assert_eq!(elements.len(), 2);
            assert!(!wildcard_fan_out);
        }
        _ => panic!("not forwarded"),
    }
}

#[test]
fn delivery_fans_out_over_matching_children() {
    let (d, _) = Delivery::start(selection_path(&texts(&["w.*", "x"])).unwrap(), false);
    assert!(matches!(d.next(true), DeliveryAction::ListChildren));
    match d.children_listed(&texts(&["w1", "a", "w2"])) {
        DeliveryAction::FanOut { children, elements, wildcard_fan_out } => {
            assert_eq!(children, vec![0, 2]);
            assert_eq!(elements.len(), 1);
            assert!(wildcard_fan_out);
        }
        _ => panic!("no fan out"),
    }
    assert!(matches!(d.children_listed(&texts(&["a"])), DeliveryAction::TellEmpty));
    let (last, _) = Delivery::start(selection_path(&texts(&["w.*"])).unwrap(), false);
    assert!(matches!(last.children_listed(&texts(&["w"])), DeliveryAction::TellChildren { children } if children == vec![0]));
}

#[test]
fn delivery_steps_to_the_parent() {
    let (mut d, _) = Delivery::start(selection_path(&texts(&[".."])).unwrap(), false);
    assert!(matches!(d.next(true), DeliveryAction::LookupParent));
    assert!(matches!(d.parent_found(false), DeliveryAction::Stop));
    assert!(matches!(d.parent_found(true), DeliveryAction::TellFound));
}

#[test]
fn empty_actor_sits_at_the_selected_path() {
    let root = ActorPath::RootActorPath(RootActorPath::new(Address::new(Protocol::Tcp, "sys", None), "/".to_string()));
    let anchor = root.child("user");
    let elements = selection_path(&texts(&["a", "..", "b*"])).unwrap();
    let path = empty_ref_path(&anchor, &elements);
    assert_eq!(path.to_display_string(), "tcp://sys/user/a/../b*");
    let none = empty_ref_path(&anchor, &Vec::new());
    assert_eq!(none.to_display_string(), "tcp://sys/user");
}
