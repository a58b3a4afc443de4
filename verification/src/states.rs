//! Small state and directive types: the state of a cluster member as seen
//! by a node, the life-cycle state of an actor, and the directive an actor
//! gives for a failed child.

use vstd::prelude::*;
use crate::address::SocketAddress;
use crate::decimal::owned_text;

verus! {

/// The state of a cluster member as seen by this node.
#[derive(Debug, Clone, Copy, PartialEq, Eq, Structural)]
pub enum MemberState {
    Unknown,
    Connecting,
    Connected,
    Unreachable,
}

/// A cluster member: its socket address, its state and the time of its
/// last heartbeat.
#[derive(Debug, Clone, Copy)]
pub struct ClusterMember {
    pub addr: SocketAddress,
    pub state: MemberState,
    pub heartbeat: u128,
}

/// The life-cycle state of an actor.
#[derive(Debug, Clone, Copy, PartialEq, Eq, Structural)]
pub enum ActorState {
    Init,
    Started,
    Suspend,
    CanTerminate,
    Terminating,
    Terminated,
}

/// The name of an actor state, as `Display` writes it.
pub open spec fn actor_state_text(s: ActorState) -> Seq<char> {
    match s {
        ActorState::Init => "Init"@,
        ActorState::Started => "Started"@,
        ActorState::Suspend => "Suspend"@,
        ActorState::CanTerminate => "CanTerminate"@,
        ActorState::Terminating => "Terminating"@,
        ActorState::Terminated => "Terminated"@,
    }
}

impl ActorState {
    /// The state's name, as `Display` writes it.
    pub fn to_display_string(&self) -> (r: String)
        ensures
            r@ == actor_state_text(*self),
    {
        match self {
            ActorState::Init => owned_text("Init"),
            ActorState::Started => owned_text("Started"),
            ActorState::Suspend => owned_text("Suspend"),
            ActorState::CanTerminate => owned_text("CanTerminate"),
            ActorState::Terminating => owned_text("Terminating"),
            ActorState::Terminated => owned_text("Terminated"),
        }
    }
}

/// What an actor decides for a failed child.
#[derive(Debug, Clone, Copy, PartialEq, Eq, Structural)]
pub enum Directive {
    Resume,
    Stop,
    Escalate,
}

impl Default for Directive {
    fn default() -> (d: Self)
        ensures
            d == Directive::Resume,
    {
        Directive::Resume
    }
}

/// The name of a directive, as `Display` writes it.
pub open spec fn directive_text(d: Directive) -> Seq<char> {
    match d {
        Directive::Resume => "Resume"@,
        Directive::Stop => "Stop"@,
        Directive::Escalate => "Escalate"@,
    }
}

impl Directive {
    /// The directive's name, as `Display` writes it.
    pub fn to_display_string(&self) -> (r: String)
        ensures
            r@ == directive_text(*self),
    {
        match self {
            Directive::Resume => owned_text("Resume"),
            Directive::Stop => owned_text("Stop"),
            Directive::Escalate => owned_text("Escalate"),
        }
    }
}

} // verus!
