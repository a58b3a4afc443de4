//! Asking an actor: what an ask gives back for each way its reply can come
//! (or not come), and which messages the runtime handles itself.

use vstd::prelude::*;
use crate::decimal::push_text;

verus! {

/// How the reply to an ask came.
#[derive(Debug)]
pub enum AskReply<R> {
    /// An orphan message came back; `value` is it where it has the
    /// expected type.
    Orphan { value: Option<R> },
    /// A message of another kind came back.
    Other,
    /// The reply channel closed before a reply came.
    Closed,
    /// No reply came within the timeout.
    TimedOut,
}

/// Why an ask gave no reply of the expected type; each holds its message.
#[derive(Debug)]
pub enum AskError {
    WrongType(String),
    NotOrphan(String),
    Closed(String),
    TimedOut(String),
}

/// The text of an error about an ask of `target` with `req`.
pub open spec fn ask_text(target: Seq<char>, req: Seq<char>, tail: Seq<char>) -> Seq<char> {
    "ask "@ + target + " with "@ + req + tail
}

/// Asking actors for replies.
#[derive(Debug)]
pub struct Patterns;

impl Patterns {
    /// The outcome of an ask of `target` with a request of type `req`,
    /// expecting a reply of type `resp`, after `timeout`: the reply where
    /// it is an orphan message of the expected type, otherwise the error
    /// that says what came instead.
    pub fn handle_resp<R>(target: &str, req: &str, resp: &str, timeout: &str, reply: AskReply<R>) -> (r: Result<R, AskError>)
        ensures
            match reply {
                AskReply::Orphan { value: Some(v) } => r == Ok::<R, AskError>(v),
                AskReply::Orphan { value: None } => r matches Err(AskError::WrongType(m)) && m@ == ask_text(
                    target@,
                    req@,
                    " expect "@ + resp@ + " resp, but found other resp"@,
                ),
                AskReply::Other => r matches Err(AskError::NotOrphan(m)) && m@ == ask_text(
                    target@,
                    req@,
                    " expect OrphanMessage resp, but found other type message"@,
                ),
                AskReply::Closed => r matches Err(AskError::Closed(m)) && m@ == ask_text(
                    target@,
                    req@,
                    " got empty resp, because DeferredActorRef is dropped"@,
                ),
                AskReply::TimedOut => r matches Err(AskError::TimedOut(m)) && m@ == ask_text(
                    target@,
                    req@,
                    " timeout after "@ + timeout@ + ", a typical reason is that the recipient actor didn't send a reply"@,
                ),
            },
    {
        let mut m = String::new();
        push_text(&mut m, "ask ");
        push_text(&mut m, target);
        push_text(&mut m, " with ");
        push_text(&mut m, req);
        let ghost head = m@;
        match reply {
            AskReply::Orphan { value: Some(v) } => Ok(v),
            AskReply::Orphan { value: None } => {
                push_text(&mut m, " expect ");
                push_text(&mut m, resp);
                push_text(&mut m, " resp, but found other resp");
                assert(m@ =~= ask_text(target@, req@, " expect "@ + resp@ + " resp, but found other resp"@));
                Err(AskError::WrongType(m))
            },
            AskReply::Other => {
                push_text(&mut m, " expect OrphanMessage resp, but found other type message");
                assert(m@ =~= ask_text(target@, req@, " expect OrphanMessage resp, but found other type message"@));
                Err(AskError::NotOrphan(m))
            },
            AskReply::Closed => {
                push_text(&mut m, " got empty resp, because DeferredActorRef is dropped");
                assert(m@ =~= ask_text(target@, req@, " got empty resp, because DeferredActorRef is dropped"@));
                Err(AskError::Closed(m))
            },
            AskReply::TimedOut => {
                push_text(&mut m, " timeout after ");
                push_text(&mut m, timeout);
                push_text(&mut m, ", a typical reason is that the recipient actor didn't send a reply");
                assert(m@ =~= ask_text(
                    target@,
                    req@,
                    " timeout after "@ + timeout@ + ", a typical reason is that the recipient actor didn't send a reply"@,
                ));
                Err(AskError::TimedOut(m))
            },
        }
    }
}

/// The kinds of message the runtime treats specially.
#[derive(Debug, Clone, Copy, PartialEq, Eq, Structural)]
pub enum MessageKind {
    Terminated,
    AddressTerminated,
    PoisonPill,
    Kill,
    ActorSelectionMessage,
    Identify,
    TaskFinish,
    Watch,
    Terminate,
    Failed,
    Unwatch,
    DeathWatchNotification,
    Resume,
    Suspend,
    /// Any other message.
    User,
}

/// Whether the actor handles a message of the kind itself, before its
/// behaviour sees it.
pub fn is_auto_received_message(kind: MessageKind) -> (r: bool)
    ensures
        r <==> (kind == MessageKind::Terminated || kind == MessageKind::AddressTerminated || kind
            == MessageKind::PoisonPill || kind == MessageKind::Kill || kind == MessageKind::ActorSelectionMessage
            || kind == MessageKind::Identify || kind == MessageKind::TaskFinish),
{
    match kind {
        MessageKind::Terminated | MessageKind::AddressTerminated | MessageKind::PoisonPill | MessageKind::Kill
        | MessageKind::ActorSelectionMessage | MessageKind::Identify | MessageKind::TaskFinish => true,
        _ => false,
    }
}

/// Whether a message of the kind is a system message.
pub fn is_system_message(kind: MessageKind) -> (r: bool)
    ensures
        r <==> (kind == MessageKind::Watch || kind == MessageKind::Terminate || kind == MessageKind::Failed
            || kind == MessageKind::Unwatch || kind == MessageKind::DeathWatchNotification || kind
            == MessageKind::Resume || kind == MessageKind::Suspend),
{
    match kind {
        MessageKind::Watch | MessageKind::Terminate | MessageKind::Failed | MessageKind::Unwatch
        | MessageKind::DeathWatchNotification | MessageKind::Resume | MessageKind::Suspend => true,
        _ => false,
    }
}

} // verus!
