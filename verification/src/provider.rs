//! The local actor reference provider's decisions: the standard paths of an
//! actor system, where a path resolves to, the uid a new child gets, which
//! step a name lookup takes, and how a failed send is reported.

use vstd::prelude::*;
use crate::address::{Address, AddressView, Protocol};
use crate::text::{compare_text, Order3};
use crate::decimal::{push_text, owned_text};
use crate::actor_path::{ActorPath, ActorPathView, RootActorPath, elements_of, spec_undefined_uid, path_eq};

verus! {

/// The address of a system that has no remote address: the protocol and
/// the system's name.
pub fn default_address(system_name: &str) -> (r: Address)
    ensures
        r@ == (AddressView { protocol: Protocol::Tcp, system: system_name@, addr: None }),
{
    Address::new(Protocol::Tcp, system_name, None)
}

/// The standard paths of an actor system.
pub struct StandardPaths {
    pub root: ActorPath,
    pub system_guardian: ActorPath,
    pub user_guardian: ActorPath,
    pub dead_letters: ActorPath,
    pub temp: ActorPath,
}

/// The root "/" at the address with the given children below it.
pub open spec fn under_root(a: AddressView, children: Seq<(Seq<char>, i32)>) -> ActorPathView {
    ActorPathView { address: a, root_name: seq!['/'], children }
}

/// The standard paths at an address: the root "/", and below it the
/// guardians "system" and "user", "dead_letters" and "temp", all with the
/// undefined uid.
pub fn standard_paths(address: Address) -> (r: StandardPaths)
    ensures
        r.root@ == under_root(address@, Seq::empty()),
        r.system_guardian@ == under_root(address@, seq![("system"@, 0i32)]),
        r.user_guardian@ == under_root(address@, seq![("user"@, 0i32)]),
        r.dead_letters@ == under_root(address@, seq![("dead_letters"@, 0i32)]),
        r.temp@ == under_root(address@, seq![("temp"@, 0i32)]),
{
    let ghost a = address@;
    proof {
        reveal_strlit("/");
    }
    let slash = owned_text("/");
    assert(slash@ =~= seq!['/']);
    let root = ActorPath::RootActorPath(RootActorPath::new(address, slash));
    assert(root@ =~= under_root(a, Seq::empty()));
    let system_guardian = ActorPath::ChildActorPath(crate::actor_path::ChildActorPath::new(root.clone(), guardian_name("system"), 0));
    let user_guardian = ActorPath::ChildActorPath(crate::actor_path::ChildActorPath::new(root.clone(), guardian_name("user"), 0));
    let dead_letters = ActorPath::ChildActorPath(crate::actor_path::ChildActorPath::new(root.clone(), guardian_name("dead_letters"), 0));
    let temp = ActorPath::ChildActorPath(crate::actor_path::ChildActorPath::new(root.clone(), guardian_name("temp"), 0));
    assert(system_guardian@ =~= under_root(a, seq![("system"@, 0i32)]));
    assert(user_guardian@ =~= under_root(a, seq![("user"@, 0i32)]));
    assert(dead_letters@ =~= under_root(a, seq![("dead_letters"@, 0i32)]));
    assert(temp@ =~= under_root(a, seq![("temp"@, 0i32)]));
    StandardPaths { root, system_guardian, user_guardian, dead_letters, temp }
}

fn guardian_name(t: &str) -> (r: String)
    requires
        t@ == "system"@ || t@ == "user"@ || t@ == "dead_letters"@ || t@ == "temp"@,
    ensures
        r@ == t@,
        crate::actor_path::valid_child_name(r@),
{
    proof {
        reveal_strlit("system");
        reveal_strlit("user");
        reveal_strlit("dead_letters");
        reveal_strlit("temp");
    }
    owned_text(t)
}

/// Where a path resolves in the provider.
#[derive(Debug)]
pub enum Route {
    /// To the dead letters.
    DeadLetters,
    /// Below the temporary container, along these names.
    Temp { rest: Vec<String> },
    /// To the extra actor of this name.
    Extra { name: String },
    /// Below the root guardian, along these names.
    RootChild { elements: Vec<String> },
}

/// Where a path resolves: a path of another address to the dead letters;
/// otherwise by its first element: "temp" below the temporary container,
/// "dead_letters" to the dead letters, an extra name to that actor, and
/// anything else below the root guardian.
pub open spec fn route_of(p: ActorPathView, root: AddressView, extra: Seq<Seq<char>>, r: Route) -> bool {
    let e = elements_of(p);
    if p.address != root {
        r is DeadLetters
    } else if e[0] == "temp"@ {
        r matches Route::Temp { rest } && rest@.map_values(|s: String| s@) == e.drop_first()
    } else if e[0] == "dead_letters"@ {
        r is DeadLetters
    } else if extra.contains(e[0]) {
        r matches Route::Extra { name } && name@ == e[0]
    } else {
        r matches Route::RootChild { elements } && elements@.map_values(|s: String| s@) == e
    }
}

/// Where the path resolves, as `route_of` says.
pub fn resolve_route(path: &ActorPath, root_address: &Address, extra_names: &Vec<String>) -> (r: Route)
    ensures
        route_of(path@, root_address@, extra_names@.map_values(|s: String| s@), r),
{
    let address = path.address();
    if !address.same_as(root_address) {
        return Route::DeadLetters;
    }
    let mut elements = path.elements();
    let ghost ev = elements@.map_values(|s: String| s@);
    assert(ev == elements_of(path@));
    assert(elements.len() > 0);
    assert(ev[0] == elements@[0]@);
    let temp = "temp";
    let dead = "dead_letters";
    proof {
        reveal_strlit("temp");
        reveal_strlit("dead_letters");
    }
    if compare_text(elements[0].as_str(), temp) == Order3::Equal {
        elements.remove(0);
        assert(elements@.map_values(|s: String| s@) =~= ev.drop_first());
        return Route::Temp { rest: elements };
    }
    if compare_text(elements[0].as_str(), dead) == Order3::Equal {
        return Route::DeadLetters;
    }
    let mut i: usize = 0;
    let ghost xv = extra_names@.map_values(|s: String| s@);
    while i < extra_names.len()
        invariant
            0 <= i <= extra_names.len(),
            xv == extra_names@.map_values(|s: String| s@),
            elements.len() > 0,
            ev == elements@.map_values(|s: String| s@),
            ev == elements_of(path@),
            ev[0] == elements@[0]@,
            path@.address == root_address@,
            ev[0] != "temp"@,
            ev[0] != "dead_letters"@,
            forall|j: int| 0 <= j < i ==> #[trigger] xv[j] != elements@[0]@,
        decreases extra_names.len() - i,
    {
        assert(xv[i as int] == extra_names@[i as int]@);
        if compare_text(extra_names[i].as_str(), elements[0].as_str()) == Order3::Equal {
            return Route::Extra { name: extra_names[i].clone() };
        }
        i = i + 1;
    }
    proof {
        if xv.contains(ev[0]) {
            let j = choose|j: int| 0 <= j < xv.len() && xv[j] == ev[0];
            assert(xv[j] != elements@[0]@);
        }
    }
    Route::RootChild { elements }
}

/// Whether `address` is the provider's own, so that its root guardian is
/// the root guardian there (otherwise the dead letters stand in).
pub fn is_local_root(root_address: &Address, address: &Address) -> (r: bool)
    ensures
        r == (root_address@ == address@),
{
    root_address.same_as(address)
}

/// The uid of a new child of the given name: the guardians "system" and
/// "user" have the undefined uid, every other child a random one.
pub fn child_uid(name: &str) -> (r: i32)
    ensures
        (name@ == "system"@ || name@ == "user"@) <==> r == spec_undefined_uid(),
{
    proof {
        reveal_strlit("system");
        reveal_strlit("user");
    }
    if compare_text(name, "system") == Order3::Equal || compare_text(name, "user") == Order3::Equal {
        ActorPath::undefined_uid()
    } else {
        ActorPath::new_uid()
    }
}

/// Checks that no child has the name already.
pub fn check_child_name_free(name: &str, children: &Vec<String>) -> (r: Result<(), String>)
    ensures
        r is Ok <==> !children@.map_values(|s: String| s@).contains(name@),
        r matches Err(m) ==> m@ == "duplicate actor name "@ + name@,
{
    let ghost cv = children@.map_values(|s: String| s@);
    let mut i: usize = 0;
    while i < children.len()
        invariant
            0 <= i <= children.len(),
            cv == children@.map_values(|s: String| s@),
            forall|j: int| 0 <= j < i ==> #[trigger] cv[j] != name@,
        decreases children.len() - i,
    {
        assert(cv[i as int] == children@[i as int]@);
        if compare_text(children[i].as_str(), name) == Order3::Equal {
            let mut m = String::new();
            push_text(&mut m, "duplicate actor name ");
            push_text(&mut m, name);
            assert(m@ =~= "duplicate actor name "@ + name@);
            return Err(m);
        }
        i = i + 1;
    }
    proof {
        if cv.contains(name@) {
            let j = choose|j: int| 0 <= j < cv.len() && cv[j] == name@;
            assert(cv[j] != name@);
        }
    }
    Ok(())
}

/// The step a name takes in a lookup below a local actor.
#[derive(Debug, PartialEq, Eq, Structural, Clone, Copy)]
pub enum LookupStep {
    /// ".." goes to the parent.
    Parent,
    /// "" stays where it is.
    Stay,
    /// Any other name goes to the child of that name.
    Child,
}

/// The step the name takes.
pub fn lookup_step(name: &str) -> (r: LookupStep)
    ensures
        name@ == ".."@ ==> r == LookupStep::Parent,
        name@.len() == 0 ==> r == LookupStep::Stay,
        name@ != ".."@ && name@.len() > 0 ==> r == LookupStep::Child,
{
    proof {
        reveal_strlit("..");
    }
    if compare_text(name, "..") == Order3::Equal {
        LookupStep::Parent
    } else if name.is_empty() {
        LookupStep::Stay
    } else {
        LookupStep::Child
    }
}

/// Why a send to a mailbox failed.
#[derive(Debug, PartialEq, Eq, Structural, Clone, Copy)]
pub enum SendFailure {
    /// The mailbox is full.
    Full,
    /// The actor has stopped.
    Closed,
}

/// The warning for a message that could not be delivered.
pub open spec fn send_error_text(failure: SendFailure, message: Seq<char>, sender: Option<Seq<char>>, actor: Seq<char>) -> Seq<char> {
    let cause = match failure {
        SendFailure::Full => "mailbox is full"@,
        SendFailure::Closed => "actor stopped"@,
    };
    match sender {
        None => "message "@ + message + " to "@ + actor + " was not delivered because "@ + cause,
        Some(s) => "message "@ + message + " from "@ + s + " to "@ + actor + " was not delivered because "@ + cause,
    }
}

/// The warning logged when a message to `actor` could not be delivered.
pub fn send_error_message(failure: SendFailure, message: &str, sender: Option<&str>, actor: &str) -> (r: String)
    ensures
        r@ == send_error_text(failure, message@, match sender {
            Some(s) => Some(s@),
            None => None,
        }, actor@),
{
    let mut m = String::new();
    push_text(&mut m, "message ");
    push_text(&mut m, message);
    match sender {
        Some(s) => {
            push_text(&mut m, " from ");
            push_text(&mut m, s);
        },
        None => {},
    }
    push_text(&mut m, " to ");
    push_text(&mut m, actor);
    push_text(&mut m, " was not delivered because ");
    match failure {
        SendFailure::Full => push_text(&mut m, "mailbox is full"),
        SendFailure::Closed => push_text(&mut m, "actor stopped"),
    }
    proof {
        let sv = match sender {
            Some(s) => Some(s@),
            None => None,
        };
        assert(m@ =~= send_error_text(failure, message@, sv, actor@));
    }
    m
}

/// The path one level up (a root is its own parent).
pub open spec fn parent_view(v: ActorPathView) -> ActorPathView {
    if v.children.len() == 0 {
        v
    } else {
        ActorPathView { children: v.children.drop_last(), ..v }
    }
}

/// Through whom the system stops an actor.
#[derive(Debug, Clone, Copy, PartialEq, Eq, Structural)]
pub enum StopVia {
    /// The user guardian, whose child the actor is.
    UserGuardian,
    /// The system guardian, whose child the actor is.
    SystemGuardian,
    /// The actor is told to stop itself.
    Itself,
}

/// How the system stops an actor: a child of the user or the system
/// guardian through that guardian, any other actor directly.
pub fn stop_via(actor: &ActorPath, user_guardian: &ActorPath, system_guardian: &ActorPath) -> (r: StopVia)
    ensures
        r == (if path_eq(parent_view(actor@), user_guardian@) {
            StopVia::UserGuardian
        } else if path_eq(parent_view(actor@), system_guardian@) {
            StopVia::SystemGuardian
        } else {
            StopVia::Itself
        }),
{
    let parent = actor.parent();
    assert(parent@ == parent_view(actor@));
    if parent.same_path(user_guardian) {
        StopVia::UserGuardian
    } else if parent.same_path(system_guardian) {
        StopVia::SystemGuardian
    } else {
        StopVia::Itself
    }
}

} // verus!
