use actor_rs::routing::{
    child_terminated, empty_ref_action, finish_terminate, invoke_failed, mailbox_capacity, next_task_name,
    tell_route, terminate, EmptyRefAction, MessageType, SpecialMessage, TellRoute, TerminateStep,
};
use actor_rs::states::ActorState;

#[test]
fn tell_routes_by_message_kind() {
    assert_eq!(tell_route(MessageType::User, false, false), TellRoute::UserQueue);
    assert_eq!(tell_route(MessageType::System, true, true), TellRoute::SystemQueue);
    assert_eq!(tell_route(MessageType::Orphan, true, true), TellRoute::SelectionMessage);
    assert_eq!(tell_route(MessageType::Orphan, true, false), TellRoute::DeliverSelection);
    assert_eq!(tell_route(MessageType::Orphan, false, true), TellRoute::Unexpected);
}

#[test]
fn empty_ref_answers_watch_identify_and_selection() {
    let watch = SpecialMessage::Watch { watchee_is_self: true, watcher_is_self: false };
    assert_eq!(empty_ref_action(watch), EmptyRefAction::NotifyWatcher);
    let self_watch = SpecialMessage::Watch { watchee_is_self: true, watcher_is_self: true };
    assert_eq!(empty_ref_action(self_watch), EmptyRefAction::Ignore);
    let other_watch = SpecialMessage::Watch { watchee_is_self: false, watcher_is_self: false };
    assert_eq!(empty_ref_action(other_watch), EmptyRefAction::Ignore);
    assert_eq!(empty_ref_action(SpecialMessage::Unwatch), EmptyRefAction::Ignore);
    assert_eq!(empty_ref_action(SpecialMessage::Identify), EmptyRefAction::ReplyNoActor);
    let ask = SpecialMessage::Selection { identify: true, wildcard_fan_out: false };
    assert_eq!(empty_ref_action(ask), EmptyRefAction::ReplyNoActor);
    let fan_out = SpecialMessage::Selection { identify: true, wildcard_fan_out: true };
    assert_eq!(empty_ref_action(fan_out), EmptyRefAction::Ignore);
    let plain = SpecialMessage::Selection { identify: false, wildcard_fan_out: false };
    assert_eq!(empty_ref_action(plain), EmptyRefAction::Ignore);
    assert_eq!(empty_ref_action(SpecialMessage::Other), EmptyRefAction::Ignore);
}

#[test]
fn mailbox_capacity_defaults_to_a_million() {
    assert_eq!(mailbox_capacity(None), 1_000_000);
    assert_eq!(mailbox_capacity(Some(16)), 16);
}

#[test]
fn termination_waits_for_the_last_child() {
    let mut state = ActorState::Started;
    assert_eq!(terminate(&mut state, 2), TerminateStep::StopChildren);
    assert_eq!(state, ActorState::Terminating);
    assert!(!child_terminated(state, 1));
    assert!(child_terminated(state, 0));
    assert!(!child_terminated(ActorState::Started, 0));
    finish_terminate(&mut state);
    assert_eq!(state, ActorState::CanTerminate);

    let mut lone = ActorState::Started;
    assert_eq!(terminate(&mut lone, 0), TerminateStep::Finish);
    assert_eq!(lone, ActorState::Terminating);
}

#[test]
fn task_names_count_up_and_wrap() {
    let (name, next) = next_task_name("fetch", 0);
    assert_eq!(name, "fetch-0");
    assert_eq!(next, 1);
    let (name, next) = next_task_name("tick", 41);
    assert_eq!(name, "tick-41");
    assert_eq!(next, 42);
    let (name, next) = next_task_name("x", usize::MAX);
    assert_eq!(name, format!("x-{}", usize::MAX));
    assert_eq!(next, 0);
}

#[test]
fn failed_handler_suspends_and_tells_parent() {
    let mut state = ActorState::Started;
    assert!(invoke_failed(&mut state, true));
    assert_eq!(state, ActorState::Suspend);
    let mut root = ActorState::Started;
    assert!(!invoke_failed(&mut root, false));
    assert_eq!(root, ActorState::Suspend);
}
