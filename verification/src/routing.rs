//! Where an actor reference sends what it is told, what the empty actor
//! answers, the size of a new mailbox, and the steps by which an actor
//! terminates.

use vstd::prelude::*;
use crate::states::ActorState;
use crate::decimal::{dec, push_text, push_decimal};
use crate::hashing::push_char;

verus! {

/// The kind of a message, as its envelope says.
#[derive(Debug, Clone, Copy, PartialEq, Eq, Structural)]
pub enum MessageType {
    User,
    System,
    Orphan,
}

/// Where a local actor reference puts a message.
#[derive(Debug, Clone, Copy, PartialEq, Eq, Structural)]
pub enum TellRoute {
    /// Into the user message queue.
    UserQueue,
    /// Into the system message queue.
    SystemQueue,
    /// The selection has no elements left: tell its message to the actor.
    SelectionMessage,
    /// Deliver the selection from the actor.
    DeliverSelection,
    /// An orphan message that is not a selection: it is only warned about.
    Unexpected,
}

/// Where a message goes: by its kind; an orphan selection message by
/// whether elements are left to walk.
pub fn tell_route(message_type: MessageType, is_selection: bool, selection_empty: bool) -> (r: TellRoute)
    ensures
        message_type == MessageType::User ==> r == TellRoute::UserQueue,
        message_type == MessageType::System ==> r == TellRoute::SystemQueue,
        message_type == MessageType::Orphan && is_selection && selection_empty ==> r == TellRoute::SelectionMessage,
        message_type == MessageType::Orphan && is_selection && !selection_empty ==> r == TellRoute::DeliverSelection,
        message_type == MessageType::Orphan && !is_selection ==> r == TellRoute::Unexpected,
{
    match message_type {
        MessageType::User => TellRoute::UserQueue,
        MessageType::System => TellRoute::SystemQueue,
        MessageType::Orphan => {
            if is_selection {
                if selection_empty {
                    TellRoute::SelectionMessage
                } else {
                    TellRoute::DeliverSelection
                }
            } else {
                TellRoute::Unexpected
            }
        },
    }
}

/// A message the empty actor reference handles itself.
#[derive(Debug, Clone, Copy, PartialEq, Eq, Structural)]
pub enum SpecialMessage {
    /// A watch: whether the watchee and the watcher are the empty actor.
    Watch { watchee_is_self: bool, watcher_is_self: bool },
    Unwatch,
    Identify,
    /// A selection: whether it asks for identities, and whether it fans out.
    Selection { identify: bool, wildcard_fan_out: bool },
    Other,
}

/// What the empty actor reference does with a message.
#[derive(Debug, Clone, Copy, PartialEq, Eq, Structural)]
pub enum EmptyRefAction {
    /// Tell the watcher that the watchee has terminated.
    NotifyWatcher,
    /// Answer the sender that no actor is there.
    ReplyNoActor,
    /// Nothing.
    Ignore,
}

/// What the empty actor does: a watch of itself by another gets the watcher
/// told of its death; an identify request gets the answer that no actor is
/// there, and so does a selection asking for identities unless it fans out.
pub fn empty_ref_action(m: SpecialMessage) -> (r: EmptyRefAction)
    ensures
        r == (match m {
            SpecialMessage::Watch { watchee_is_self, watcher_is_self } => if watchee_is_self && !watcher_is_self {
                EmptyRefAction::NotifyWatcher
            } else {
                EmptyRefAction::Ignore
            },
            SpecialMessage::Identify => EmptyRefAction::ReplyNoActor,
            SpecialMessage::Selection { identify, wildcard_fan_out } => if identify && !wildcard_fan_out {
                EmptyRefAction::ReplyNoActor
            } else {
                EmptyRefAction::Ignore
            },
            _ => EmptyRefAction::Ignore,
        }),
{
    match m {
        SpecialMessage::Watch { watchee_is_self, watcher_is_self } => {
            if watchee_is_self && !watcher_is_self {
                EmptyRefAction::NotifyWatcher
            } else {
                EmptyRefAction::Ignore
            }
        },
        SpecialMessage::Identify => EmptyRefAction::ReplyNoActor,
        SpecialMessage::Selection { identify, wildcard_fan_out } => {
            if identify && !wildcard_fan_out {
                EmptyRefAction::ReplyNoActor
            } else {
                EmptyRefAction::Ignore
            }
        },
        _ => EmptyRefAction::Ignore,
    }
}

/// The capacity of a new user mailbox: the configured one, else a million.
pub fn mailbox_capacity(configured: Option<usize>) -> (r: usize)
    ensures
        r == (match configured {
            Some(c) => c,
            None => 1_000_000,
        }),
{
    match configured {
        Some(c) => c,
        None => 1_000_000,
    }
}

/// What terminating an actor asks for.
#[derive(Debug, Clone, Copy, PartialEq, Eq, Structural)]
pub enum TerminateStep {
    /// Stop the children first; the actor finishes when the last is gone.
    StopChildren,
    /// Finish terminating now.
    Finish,
}

/// Begins terminating: the actor is terminating, and stops its children
/// first where it has any.
pub fn terminate(state: &mut ActorState, children: usize) -> (r: TerminateStep)
    ensures
        *final(state) == ActorState::Terminating,
        r == (if children > 0 {
            TerminateStep::StopChildren
        } else {
            TerminateStep::Finish
        }),
{
    *state = ActorState::Terminating;
    if children > 0 {
        TerminateStep::StopChildren
    } else {
        TerminateStep::Finish
    }
}

/// A child has terminated and been removed: a terminating actor whose last
/// child it was finishes now.
pub fn child_terminated(state: ActorState, children_left: usize) -> (finish: bool)
    ensures
        finish == (state == ActorState::Terminating && children_left == 0),
{
    state == ActorState::Terminating && children_left == 0
}

/// Finishing termination (after the parent and watchers are told and all
/// watches dropped): the actor can terminate.
pub fn finish_terminate(state: &mut ActorState)
    ensures
        *final(state) == ActorState::CanTerminate,
{
    *state = ActorState::CanTerminate;
}

/// The name of a task an actor spawns: the given name, a hyphen and the
/// actor's task counter; and the counter's next value, which wraps.
pub fn next_task_name(name: &str, task_id: usize) -> (r: (String, usize))
    ensures
        r.0@ == name@ + seq!['-'] + dec(task_id as nat),
        r.1 == (if task_id == usize::MAX { 0 } else { task_id + 1 }),
{
    let mut s = String::new();
    push_text(&mut s, name);
    push_char(&mut s, '-');
    push_decimal(&mut s, task_id as u64);
    assert(s@ =~= name@ + seq!['-'] + dec(task_id as nat));
    (s, task_id.wrapping_add(1))
}

/// An actor whose handler failed is suspended, and so are its children;
/// the result says whether a parent is there to be told of the failure.
pub fn invoke_failed(state: &mut ActorState, has_parent: bool) -> (tell_parent: bool)
    ensures
        *final(state) == ActorState::Suspend,
        tell_parent == has_parent,
{
    *state = ActorState::Suspend;
    has_parent
}

} // verus!
