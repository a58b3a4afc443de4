//! Actor paths: a root (an actor system's address and a root name) and a
//! chain of named children below it, each child with a uid.

use vstd::prelude::*;
use crate::address::{Address, AddressView, Protocol, SocketAddress, UniqueAddress};
use crate::hashing::push_char;
use crate::text::{text_chars, text_lt, Order3, compare_text};
use crate::decimal::{dec, signed_dec, parse_i32, push_text, push_decimal, push_signed_decimal, read_i32};

verus! {

/// The text of a protocol.
pub open spec fn protocol_text(p: Protocol) -> Seq<char> {
    match p {
        Protocol::Tcp => seq!['t', 'c', 'p'],
    }
}

/// The text of a socket address: "a.b.c.d:port".
pub open spec fn socket_text(s: SocketAddress) -> Seq<char> {
    dec(s.a as nat) + seq!['.'] + dec(s.b as nat) + seq!['.'] + dec(s.c as nat) + seq!['.'] + dec(
        s.d as nat,
    ) + seq![':'] + dec(s.port as nat)
}

/// The text of an address: "protocol://system", followed by "@" and the
/// socket address where there is one.
pub open spec fn address_text(a: AddressView) -> Seq<char> {
    let base = protocol_text(a.protocol) + seq![':', '/', '/'] + a.system;
    match a.addr {
        None => base,
        Some(s) => base + seq!['@'] + socket_text(s),
    }
}

/// Appends the text of a protocol.
pub fn push_protocol(s: &mut String, p: Protocol)
    ensures
        final(s)@ == old(s)@ + protocol_text(p),
{
    match p {
        Protocol::Tcp => {
            push_char(s, 't');
            push_char(s, 'c');
            push_char(s, 'p');
            assert(final(s)@ =~= old(s)@ + protocol_text(p));
        },
    }
}

/// Appends the text of a socket address.
pub fn push_socket(s: &mut String, a: SocketAddress)
    ensures
        final(s)@ == old(s)@ + socket_text(a),
{
    let ghost s0 = s@;
    push_decimal(s, a.a as u64);
    push_char(s, '.');
    push_decimal(s, a.b as u64);
    push_char(s, '.');
    push_decimal(s, a.c as u64);
    push_char(s, '.');
    push_decimal(s, a.d as u64);
    push_char(s, ':');
    push_decimal(s, a.port as u64);
    assert(s@ =~= s0 + socket_text(a));
}

impl UniqueAddress {
    /// The member's socket address and uid as `address/uid`, where it has a
    /// socket address.
    pub fn socket_addr_with_uid(&self) -> (r: Option<String>)
        ensures
            r is None <==> self.address.addr is None,
            r matches Some(t) ==> t@ == socket_text(self.address.addr->0) + seq!['/'] + signed_dec(self.uid as int),
    {
        match self.address.addr {
            None => None,
            Some(sa) => {
                let mut s = String::new();
                push_socket(&mut s, sa);
                push_char(&mut s, '/');
                push_signed_decimal(&mut s, self.uid);
                assert(s@ =~= socket_text(sa) + seq!['/'] + signed_dec(self.uid as int));
                Some(s)
            },
        }
    }
}

/// Appends the text of an address.
pub fn push_address(s: &mut String, a: &Address)
    ensures
        final(s)@ == old(s)@ + address_text(a@),
{
    let ghost s0 = s@;
    push_protocol(s, a.protocol);
    push_char(s, ':');
    push_char(s, '/');
    push_char(s, '/');
    push_text(s, a.system.as_str());
    match a.addr {
        None => {
            assert(s@ =~= s0 + address_text(a@));
        },
        Some(sa) => {
            push_char(s, '@');
            push_socket(s, sa);
            assert(s@ =~= s0 + address_text(a@));
        },
    }
}

/// The text of an address, as `Display` writes it.
pub fn address_to_string(a: &Address) -> (r: String)
    ensures
        r@ == address_text(a@),
{
    let mut s = String::new();
    push_address(&mut s, a);
    assert(s@ =~= address_text(a@));
    s
}

/// The text of a protocol, as `Display` writes it.
pub fn protocol_to_string(p: Protocol) -> (r: String)
    ensures
        r@ == protocol_text(p),
{
    let mut s = String::new();
    push_protocol(&mut s, p);
    assert(s@ =~= protocol_text(p));
    s
}

/// Reads a protocol from its text; only "tcp" is known.
pub fn protocol_from_str(s: &str) -> (r: Option<Protocol>)
    ensures
        r is Some <==> s@ == protocol_text(Protocol::Tcp),
        r matches Some(p) ==> p == Protocol::Tcp,
{
    let tcp = "tcp";
    proof {
        reveal_strlit("tcp");
    }
    if compare_text(s, tcp) == Order3::Equal {
        assert(s@ == protocol_text(Protocol::Tcp));
        Some(Protocol::Tcp)
    } else {
        assert(tcp@ =~= protocol_text(Protocol::Tcp));
        None
    }
}

/// The position of the first `c` in `s`.
pub open spec fn first_index(s: Seq<char>, c: char) -> int {
    choose|i: int| 0 <= i < s.len() && s[i] == c && forall|j: int| 0 <= j < i ==> s[j] != c
}

/// Where `c` occurs in `s`, there is a first position of it.
pub proof fn lemma_first_index(s: Seq<char>, c: char)
    requires
        s.contains(c),
    ensures
        0 <= first_index(s, c) < s.len(),
        s[first_index(s, c)] == c,
        forall|j: int| 0 <= j < first_index(s, c) ==> s[j] != c,
    decreases s.len(),
{
    if s[0] == c {
        assert(0 <= 0 < s.len() && s[0] == c && forall|j: int| 0 <= j < 0 ==> s[j] != c);
    } else {
        let k = choose|k: int| 0 <= k < s.len() && s[k] == c;
        assert(s.drop_first()[k - 1] == c);
        lemma_first_index(s.drop_first(), c);
        let i = first_index(s.drop_first(), c);
        assert(forall|j: int| 0 <= j < i + 1 ==> s[j] != c || j == i + 1) by {
            assert forall|j: int| 0 < j < i + 1 implies s[j] != c by {
                assert(s.drop_first()[j - 1] == s[j]);
            }
        }
        assert(0 <= i + 1 < s.len() && s[i + 1] == c && forall|j: int| 0 <= j < i + 1 ==> s[j] != c);
    }
}

/// A name with an optional "#uid" suffix, split at the first '#' into the
/// name and the uid (0 where there is no suffix).
pub open spec fn split_spec(s: Seq<char>) -> (Seq<char>, i32) {
    if s.contains('#') {
        let i = first_index(s, '#');
        (s.take(i), parse_i32(s.skip(i + 1)).unwrap())
    } else {
        (s, 0)
    }
}

/// The uid suffix, where there is one, reads as an `i32`.
pub open spec fn uid_suffix_valid(s: Seq<char>) -> bool {
    s.contains('#') ==> parse_i32(s.skip(first_index(s, '#') + 1)) is Some
}

/// The uid of a path that has none.
pub open spec fn spec_undefined_uid() -> i32 {
    0
}

/// Copies `chars[from..to]` into a string.
fn string_of(chars: &Vec<char>, from: usize, to: usize) -> (r: String)
    requires
        from <= to <= chars.len(),
    ensures
        r@ == chars@.subrange(from as int, to as int),
{
    let mut s = String::new();
    let mut i = from;
    while i < to
        invariant
            from <= i <= to <= chars.len(),
            s@ == chars@.subrange(from as int, i as int),
        decreases to - i,
    {
        push_char(&mut s, chars[i]);
        assert(chars@.subrange(from as int, i + 1) =~= chars@.subrange(from as int, i as int).push(chars@[i as int]));
        i = i + 1;
    }
    s
}

/// Where the path stands: the address and root name, and the names and uids
/// of the children from the root down.
pub struct ActorPathView {
    pub address: AddressView,
    pub root_name: Seq<char>,
    pub children: Seq<(Seq<char>, i32)>,
}

/// The root of a path: an actor system's address and the root's name.
#[derive(Debug, Hash)]
pub struct RootActorPath {
    pub address: Address,
    pub name: String,
}

/// A child path: its parent, its name and its uid.
#[derive(Debug, Hash)]
pub struct ChildInner {
    pub parent: ActorPath,
    pub name: String,
    pub uid: i32,
}

/// A path below the root.
#[derive(Debug, Hash)]
pub struct ChildActorPath {
    pub inner: Box<ChildInner>,
}

/// An actor path: a root, or a child of another path.
#[derive(Debug, Hash)]
pub enum ActorPath {
    RootActorPath(RootActorPath),
    ChildActorPath(ChildActorPath),
}

/// What a path stands for.
pub open spec fn path_view(p: ActorPath) -> ActorPathView
    decreases p,
{
    match p {
        ActorPath::RootActorPath(r) => ActorPathView {
            address: r.address@,
            root_name: r.name@,
            children: Seq::empty(),
        },
        ActorPath::ChildActorPath(c) => {
            let pv = path_view(c.inner.parent);
            ActorPathView {
                address: pv.address,
                root_name: pv.root_name,
                children: pv.children.push((c.inner.name@, c.inner.uid)),
            }
        },
    }
}

impl View for ActorPath {
    type V = ActorPathView;

    open spec fn view(&self) -> ActorPathView {
        path_view(*self)
    }
}

/// The names of the children, from the root down.
pub open spec fn child_names(c: Seq<(Seq<char>, i32)>) -> Seq<Seq<char>> {
    c.map_values(|e: (Seq<char>, i32)| e.0)
}

/// The elements of a path: the names of its children, or a single empty
/// name for a root.
pub open spec fn elements_of(v: ActorPathView) -> Seq<Seq<char>> {
    if v.children.len() == 0 {
        seq![Seq::<char>::empty()]
    } else {
        child_names(v.children)
    }
}

/// The uid of a path: that of its last child, undefined for a root.
pub open spec fn uid_of(v: ActorPathView) -> i32 {
    if v.children.len() == 0 {
        0
    } else {
        v.children.last().1
    }
}

/// The name of a path: that of its last child, or the root's.
pub open spec fn name_of(v: ActorPathView) -> Seq<char> {
    if v.children.len() == 0 {
        v.root_name
    } else {
        v.children.last().0
    }
}

/// The texts joined with `sep` between them.
pub open spec fn join(s: Seq<Seq<char>>, sep: Seq<char>) -> Seq<char>
    decreases s.len(),
{
    if s.len() == 0 {
        Seq::empty()
    } else if s.len() == 1 {
        s[0]
    } else {
        join(s.drop_last(), sep) + sep + s.last()
    }
}

/// The text of a path as `Display` writes it: the address, the root name
/// and the children's names joined with '/'.
pub open spec fn path_text(v: ActorPathView) -> Seq<char> {
    address_text(v.address) + v.root_name + join(child_names(v.children), seq!['/'])
}

/// The "#uid" suffix of a defined uid; nothing for an undefined one.
pub open spec fn uid_suffix(uid: i32) -> Seq<char> {
    if uid == 0 {
        Seq::empty()
    } else {
        seq!['#'] + signed_dec(uid as int)
    }
}

/// The text of a path under another address: for a root, the given address
/// where the root's own has no socket address; for a child, the given
/// address, '/' and the elements joined with '/'.
pub open spec fn text_with_address(v: ActorPathView, a: AddressView) -> Seq<char> {
    if v.children.len() == 0 {
        match v.address.addr {
            None => address_text(a) + v.root_name,
            Some(_) => address_text(v.address) + v.root_name,
        }
    } else {
        address_text(a) + seq!['/'] + join(child_names(v.children), seq!['/'])
    }
}

/// A root name may hold '/' only at its start, and no '#'.
pub open spec fn valid_root_name(s: Seq<char>) -> bool {
    &&& forall|i: int| 0 < i < s.len() ==> #[trigger] s[i] != '/'
    &&& !s.contains('#')
}

/// A child name holds neither '/' nor '#'.
pub open spec fn valid_child_name(s: Seq<char>) -> bool {
    !s.contains('/') && !s.contains('#')
}

/// A name with an optional "#uid" suffix that `child` accepts: the suffix
/// reads as an `i32` and the name holds no '/'.
pub open spec fn valid_child_spec(s: Seq<char>) -> bool {
    uid_suffix_valid(s) && !split_spec(s).0.contains('/')
}

proof fn lemma_take_first_no_hash(s: Seq<char>, i: int)
    requires
        0 <= i < s.len(),
        s[i] == '#',
        forall|j: int| 0 <= j < i ==> s[j] != '#',
    ensures
        !s.take(i).contains('#'),
{
    if s.take(i).contains('#') {
        let k = choose|k: int| 0 <= k < s.take(i).len() && s.take(i)[k] == '#';
        assert(s[k] == '#');
    }
}

impl RootActorPath {
    /// A root path; its name may hold '/' only at its start, and no '#'.
    pub fn new(address: Address, name: String) -> (r: RootActorPath)
        requires
            valid_root_name(name@),
        ensures
            r.address@ == address@,
            r.name@ == name@,
    {
        RootActorPath { address, name }
    }
}

impl ChildActorPath {
    /// A child path; its name holds neither '/' nor '#'.
    pub fn new(parent: ActorPath, name: String, uid: i32) -> (r: ChildActorPath)
        requires
            valid_child_name(name@),
        ensures
            r.inner.parent@ == parent@,
            r.inner.name@ == name@,
            r.inner.uid == uid,
    {
        ChildActorPath { inner: Box::new(ChildInner { parent, name, uid }) }
    }
}

impl Clone for ActorPath {
    fn clone(&self) -> (r: Self)
        ensures
            r@ == self@,
        decreases self,
    {
        match self {
            ActorPath::RootActorPath(root) => ActorPath::RootActorPath(
                RootActorPath { address: root.address.clone(), name: root.name.clone() },
            ),
            ActorPath::ChildActorPath(c) => {
                let parent = c.inner.parent.clone();
                ActorPath::ChildActorPath(
                    ChildActorPath {
                        inner: Box::new(ChildInner { parent, name: c.inner.name.clone(), uid: c.inner.uid }),
                    },
                )
            },
        }
    }
}

/// Calls `rand::random::<NonZeroU32>()`: a number from the thread-local
/// generator.  Trusted: it is not zero, as no `NonZeroU32` is; nothing else
/// is stated of it.
#[verifier::external_body]
fn random_nonzero_u32() -> (r: u32)
    ensures
        r != 0,
{
    rand::random::<std::num::NonZeroU32>().get()
}

impl ActorPath {
    /// A random uid, never the undefined one: the bits of a random non-zero
    /// 32-bit number, so that every defined uid is equally likely.
    pub fn new_uid() -> (r: i32)
        ensures
            r != spec_undefined_uid(),
    {
        let bits = random_nonzero_u32();
        let r = bits as i32;
        assert(bits != 0 ==> (bits as i32) != 0) by (bit_vector);
        r
    }

    /// The uid of a path that has none.
    pub fn undefined_uid() -> (r: i32)
        ensures
            r == spec_undefined_uid(),
    {
        0
    }

    /// Splits a name at the first '#' into the name and the uid that
    /// follows it (undefined where there is no '#').  The uid text must read
    /// as an `i32`.
    pub fn split_name_and_uid(name: &str) -> (r: (String, i32))
        requires
            uid_suffix_valid(name@),
        ensures
            (r.0@, r.1) == split_spec(name@),
    {
        let chars = text_chars(name);
        let mut i: usize = 0;
        while i < chars.len()
            invariant
                0 <= i <= chars.len(),
                chars@ == name@,
                forall|j: int| 0 <= j < i ==> chars@[j] != '#',
            ensures
                0 <= i <= chars.len(),
                forall|j: int| 0 <= j < i ==> chars@[j] != '#',
                i < chars.len() ==> chars@[i as int] == '#',
            decreases chars.len() - i,
        {
            if chars[i] == '#' {
                break;
            }
            i = i + 1;
        }
        assert(i < chars.len() ==> chars@[i as int] == '#');
        if i == chars.len() {
            proof {
                if name@.contains('#') {
                    let k = choose|k: int| 0 <= k < name@.len() && name@[k] == '#';
                    assert(chars@[k] != '#');
                }
            }
            (name.to_owned(), 0)
        } else {
            proof {
                assert(name@.contains('#')) by {
                    assert(name@[i as int] == '#');
                }
                lemma_first_index(name@, '#');
                let f = first_index(name@, '#');
                if f < i {
                    assert(chars@[f] != '#');
                } else if f > i {
                    assert(name@[i as int] != '#');
                }
                assert(f == i);
            }
            let n = string_of(&chars, 0, i);
            assert(chars@.subrange(0, i as int) =~= name@.take(i as int));
            let uid = read_i32(&chars, i + 1).unwrap();
            (n, uid)
        }
    }

    /// The address of the path's root.
    pub fn address(&self) -> (r: Address)
        ensures
            r@ == self@.address,
        decreases self,
    {
        match self {
            ActorPath::RootActorPath(root) => root.address.clone(),
            ActorPath::ChildActorPath(c) => c.inner.parent.address(),
        }
    }

    /// The name of the path: that of its last child, or the root's.
    pub fn name(&self) -> (r: &String)
        ensures
            r@ == name_of(self@),
    {
        match self {
            ActorPath::RootActorPath(root) => &root.name,
            ActorPath::ChildActorPath(c) => &c.inner.name,
        }
    }

    /// The uid of the path; undefined for a root.
    pub fn uid(&self) -> (r: i32)
        ensures
            r == uid_of(self@),
    {
        match self {
            ActorPath::RootActorPath(_) => 0,
            ActorPath::ChildActorPath(c) => c.inner.uid,
        }
    }

    /// The parent of the path; a root is its own parent.
    pub fn parent(&self) -> (r: ActorPath)
        ensures
            self@.children.len() == 0 ==> r@ == self@,
            self@.children.len() > 0 ==> r@ == (ActorPathView { children: self@.children.drop_last(), ..self@ }),
    {
        match self {
            ActorPath::RootActorPath(_) => self.clone(),
            ActorPath::ChildActorPath(c) => {
                let r = c.inner.parent.clone();
                assert(self@.children.drop_last() =~= r@.children);
                r
            },
        }
    }

    /// The root of the path.
    pub fn root(&self) -> (r: RootActorPath)
        ensures
            r.address@ == self@.address,
            r.name@ == self@.root_name,
        decreases self,
    {
        match self {
            ActorPath::RootActorPath(root) => RootActorPath { address: root.address.clone(), name: root.name.clone() },
            ActorPath::ChildActorPath(c) => c.inner.parent.root(),
        }
    }

    /// The child of this path with the given name, which may carry a
    /// "#uid" suffix (which must read as an `i32`).
    pub fn child(&self, child: &str) -> (r: ActorPath)
        requires
            uid_suffix_valid(child@),
        ensures
            r@ == (ActorPathView { children: self@.children.push(split_spec(child@)), ..self@ }),
    {
        let (child_name, uid) = Self::split_name_and_uid(child);
        proof {
            if child@.contains('#') {
                lemma_first_index(child@, '#');
                let i = first_index(child@, '#');
                lemma_take_first_no_hash(child@, i);
            }
        }
        let c = ChildActorPath { inner: Box::new(ChildInner { parent: self.clone(), name: child_name, uid }) };
        let r = ActorPath::ChildActorPath(c);
        assert(r@.children =~= self@.children.push(split_spec(child@)));
        r
    }

    /// The path below this one along the given names, skipping empty ones.
    pub fn descendant(&self, names: &Vec<String>) -> (r: ActorPath)
        requires
            forall|i: int| 0 <= i < names.len() ==> uid_suffix_valid(#[trigger] names@[i]@),
        ensures
            r@ == (ActorPathView { children: self@.children + descend(names@.map_values(|s: String| s@)), ..self@ }),
    {
        let ghost nv = names@.map_values(|s: String| s@);
        let mut path = self.clone();
        let mut i: usize = 0;
        while i < names.len()
            invariant
                0 <= i <= names.len(),
                nv == names@.map_values(|s: String| s@),
                forall|j: int| 0 <= j < names.len() ==> uid_suffix_valid(#[trigger] names@[j]@),
                path@ == (ActorPathView { children: self@.children + descend(nv.take(i as int)), ..self@ }),
            decreases names.len() - i,
        {
            assert(nv.take(i + 1).drop_last() =~= nv.take(i as int));
            assert(nv[i as int] == names@[i as int]@);
            if names[i].as_str().is_empty() {
                assert(path@.children =~= self@.children + descend(nv.take(i + 1)));
            } else {
                path = path.child(names[i].as_str());
                assert(path@.children =~= self@.children + descend(nv.take(i + 1)));
            }
            i = i + 1;
        }
        assert(nv.take(i as int) =~= nv);
        path
    }

    /// The names of the children from the root down, pushed onto `out`.
    fn push_names(&self, out: &mut Vec<String>)
        ensures
            final(out)@.map_values(|s: String| s@) == old(out)@.map_values(|s: String| s@) + child_names(self@.children),
        decreases self,
    {
        match self {
            ActorPath::RootActorPath(_) => {
                assert(final(out)@.map_values(|s: String| s@) =~= old(out)@.map_values(|s: String| s@) + child_names(self@.children));
            },
            ActorPath::ChildActorPath(c) => {
                c.inner.parent.push_names(out);
                let ghost mid = out@.map_values(|s: String| s@);
                out.push(c.inner.name.clone());
                assert(out@.map_values(|s: String| s@) =~= mid.push(c.inner.name@));
                assert(child_names(self@.children) =~= child_names(c.inner.parent@.children).push(c.inner.name@));
            },
        }
    }

    /// The elements of the path: the names of its children, or a single
    /// empty name for a root.
    pub fn elements(&self) -> (r: Vec<String>)
        ensures
            r@.map_values(|s: String| s@) == elements_of(self@),
    {
        let mut out: Vec<String> = Vec::new();
        if self.is_root() {
            out.push(String::new());
            assert(out@.map_values(|s: String| s@) =~= elements_of(self@));
        } else {
            assert(out@.map_values(|s: String| s@) =~= Seq::<Seq<char>>::empty());
            self.push_names(&mut out);
            assert(out@.map_values(|s: String| s@) =~= elements_of(self@));
        }
        out
    }

    /// Whether the path is a root.
    pub fn is_root(&self) -> (r: bool)
        ensures
            r == (self@.children.len() == 0),
    {
        match self {
            ActorPath::RootActorPath(_) => true,
            ActorPath::ChildActorPath(_) => false,
        }
    }

    /// The path with the given uid.  A root has the undefined uid only.
    pub fn with_uid(&self, uid: i32) -> (r: ActorPath)
        requires
            self@.children.len() == 0 ==> uid == 0,
        ensures
            self@.children.len() == 0 ==> r@ == self@,
            self@.children.len() > 0 ==> r@ == (ActorPathView {
                children: self@.children.update(self@.children.len() - 1, (name_of(self@), uid)),
                ..self@
            }),
    {
        match self {
            ActorPath::RootActorPath(_) => self.clone(),
            ActorPath::ChildActorPath(c) => {
                if uid == c.inner.uid {
                    let r = self.clone();
                    assert(r@.children =~= self@.children.update(self@.children.len() - 1, (name_of(self@), uid)));
                    r
                } else {
                    let r = ActorPath::ChildActorPath(
                        ChildActorPath {
                            inner: Box::new(ChildInner { parent: c.inner.parent.clone(), name: c.inner.name.clone(), uid }),
                        },
                    );
                    assert(r@.children =~= self@.children.update(self@.children.len() - 1, (name_of(self@), uid)));
                    r
                }
            },
        }
    }
}

/// The children that a list of names adds, empty names skipped.
pub open spec fn descend(names: Seq<Seq<char>>) -> Seq<(Seq<char>, i32)>
    decreases names.len(),
{
    if names.len() == 0 {
        Seq::empty()
    } else if names.last().len() == 0 {
        descend(names.drop_last())
    } else {
        descend(names.drop_last()).push(split_spec(names.last()))
    }
}

/// Appends the texts of `v` joined with '/'.
fn push_joined(s: &mut String, v: &Vec<String>)
    ensures
        final(s)@ == old(s)@ + join(v@.map_values(|x: String| x@), seq!['/']),
{
    let ghost vv = v@.map_values(|x: String| x@);
    let mut i: usize = 0;
    while i < v.len()
        invariant
            0 <= i <= v.len(),
            vv == v@.map_values(|x: String| x@),
            s@ == old(s)@ + join(vv.take(i as int), seq!['/']),
        decreases v.len() - i,
    {
        let ghost before = s@;
        if i > 0 {
            push_char(s, '/');
        }
        push_text(s, v[i].as_str());
        proof {
            let t = vv.take(i + 1);
            assert(t.drop_last() =~= vv.take(i as int));
            assert(t.last() == v@[i as int]@);
            if i == 0 {
                assert(join(vv.take(0), seq!['/']) =~= Seq::<char>::empty());
                assert(s@ =~= old(s)@ + join(t, seq!['/']));
            } else {
                assert(s@ =~= old(s)@ + join(t, seq!['/']));
            }
        }
        i = i + 1;
    }
    assert(vv.take(i as int) =~= vv);
}

impl ActorPath {
    /// Appends the path's text as `Display` writes it.
    fn push_text_of(&self, s: &mut String)
        ensures
            final(s)@ == old(s)@ + path_text(self@),
        decreases self,
    {
        match self {
            ActorPath::RootActorPath(root) => {
                push_address(s, &root.address);
                push_text(s, root.name.as_str());
                assert(join(child_names(self@.children), seq!['/']) =~= Seq::<char>::empty());
                assert(final(s)@ =~= old(s)@ + path_text(self@));
            },
            ActorPath::ChildActorPath(c) => {
                let parent = &c.inner.parent;
                parent.push_text_of(s);
                let ghost pv = parent@;
                if !parent.is_root() {
                    push_char(s, '/');
                }
                push_text(s, c.inner.name.as_str());
                proof {
                    let names = child_names(self@.children);
                    assert(names.drop_last() =~= child_names(pv.children));
                    assert(names.last() == c.inner.name@);
                    if pv.children.len() == 0 {
                        assert(child_names(pv.children) =~= Seq::<Seq<char>>::empty());
                        assert(names.len() == 1);
                    }
                    assert(final(s)@ =~= old(s)@ + path_text(self@));
                }
            },
        }
    }

    /// The path's text as `Display` writes it: the address, the root name
    /// and the children's names joined with '/'.
    pub fn to_display_string(&self) -> (r: String)
        ensures
            r@ == path_text(self@),
    {
        let mut s = String::new();
        self.push_text_of(&mut s);
        assert(s@ =~= path_text(self@));
        s
    }

    /// The elements joined with '/'.
    pub fn to_string_without_address(&self) -> (r: String)
        ensures
            r@ == join(elements_of(self@), seq!['/']),
    {
        let elements = self.elements();
        let mut s = String::new();
        push_joined(&mut s, &elements);
        assert(s@ =~= join(elements_of(self@), seq!['/']));
        s
    }

    /// The path's text under the given address.
    pub fn to_string_with_address(&self, address: &Address) -> (r: String)
        ensures
            r@ == text_with_address(self@, address@),
    {
        let mut s = String::new();
        match self {
            ActorPath::RootActorPath(root) => {
                match root.address.addr {
                    None => push_address(&mut s, address),
                    Some(_) => push_address(&mut s, &root.address),
                }
                push_text(&mut s, root.name.as_str());
            },
            ActorPath::ChildActorPath(_) => {
                push_address(&mut s, address);
                push_char(&mut s, '/');
                let elements = self.elements();
                push_joined(&mut s, &elements);
            },
        }
        assert(s@ =~= text_with_address(self@, address@));
        s
    }

    /// The path's text with its uid: the `Display` text, followed by
    /// "#uid" where the uid is defined.
    pub fn to_serialization_format(&self) -> (r: String)
        ensures
            r@ == path_text(self@) + uid_suffix(uid_of(self@)),
    {
        let mut s = String::new();
        self.push_text_of(&mut s);
        let uid = self.uid();
        if uid != 0 {
            push_char(&mut s, '#');
            push_signed_decimal(&mut s, uid as i64);
        }
        assert(s@ =~= path_text(self@) + uid_suffix(uid_of(self@)));
        s
    }

    /// The path's text under the given address, followed by "#uid" where
    /// the uid is defined.
    pub fn to_serialization_format_with_address(&self, address: &Address) -> (r: String)
        ensures
            r@ == text_with_address(self@, address@) + uid_suffix(uid_of(self@)),
    {
        let mut s = self.to_string_with_address(address);
        let uid = self.uid();
        if uid != 0 {
            push_char(&mut s, '#');
            push_signed_decimal(&mut s, uid as i64);
        }
        assert(s@ =~= text_with_address(self@, address@) + uid_suffix(uid_of(self@)));
        s
    }
}

/// Three-way comparison of numbers.
pub open spec fn int_order(x: int, y: int) -> Order3 {
    if x < y {
        Order3::Less
    } else if x == y {
        Order3::Equal
    } else {
        Order3::Greater
    }
}

/// The first of two comparisons that is not equal.
pub open spec fn chain_order(first: Order3, second: Order3) -> Order3 {
    if first == Order3::Equal {
        second
    } else {
        first
    }
}

/// Three-way lexicographic comparison of texts.
pub open spec fn text_order(a: Seq<char>, b: Seq<char>) -> Order3 {
    if a == b {
        Order3::Equal
    } else if text_lt(a, b) {
        Order3::Less
    } else {
        Order3::Greater
    }
}

/// Lexicographic comparison of sequences of texts.
pub open spec fn texts_order(a: Seq<Seq<char>>, b: Seq<Seq<char>>) -> Order3
    decreases a.len(),
{
    if a.len() == 0 && b.len() == 0 {
        Order3::Equal
    } else if a.len() == 0 {
        Order3::Less
    } else if b.len() == 0 {
        Order3::Greater
    } else {
        chain_order(text_order(a[0], b[0]), texts_order(a.drop_first(), b.drop_first()))
    }
}

/// Socket addresses compare by their octets, then by port.
pub open spec fn socket_order(x: SocketAddress, y: SocketAddress) -> Order3 {
    chain_order(
        int_order(x.a as int, y.a as int),
        chain_order(
            int_order(x.b as int, y.b as int),
            chain_order(
                int_order(x.c as int, y.c as int),
                chain_order(int_order(x.d as int, y.d as int), int_order(x.port as int, y.port as int)),
            ),
        ),
    )
}

/// Addresses compare by system name, then by socket address, a missing
/// one first (all have the one protocol).
pub open spec fn address_order(x: AddressView, y: AddressView) -> Order3 {
    chain_order(
        text_order(x.system, y.system),
        match (x.addr, y.addr) {
            (None, None) => Order3::Equal,
            (None, Some(_)) => Order3::Less,
            (Some(_), None) => Order3::Greater,
            (Some(p), Some(q)) => socket_order(p, q),
        },
    )
}

/// Paths compare by address, then by their elements.
pub open spec fn path_order(a: ActorPathView, b: ActorPathView) -> Order3 {
    chain_order(address_order(a.address, b.address), texts_order(elements_of(a), elements_of(b)))
}

/// Paths are equal when their addresses and elements are.
pub open spec fn path_eq(a: ActorPathView, b: ActorPathView) -> bool {
    a.address == b.address && elements_of(a) == elements_of(b)
}

fn order_ints(x: u32, y: u32) -> (r: Order3)
    ensures
        r == int_order(x as int, y as int),
{
    if x < y {
        Order3::Less
    } else if x == y {
        Order3::Equal
    } else {
        Order3::Greater
    }
}

fn then_order(first: Order3, second: Order3) -> (r: Order3)
    ensures
        r == chain_order(first, second),
{
    if first == Order3::Equal {
        second
    } else {
        first
    }
}

fn order_of_texts(a: &str, b: &str) -> (r: Order3)
    ensures
        r == text_order(a@, b@),
{
    let r = compare_text(a, b);
    proof {
        if a@ == b@ {
            crate::text::lemma_text_lt_irreflexive(a@);
        }
    }
    r
}

fn order_of_sockets(x: SocketAddress, y: SocketAddress) -> (r: Order3)
    ensures
        r == socket_order(x, y),
{
    then_order(
        order_ints(x.a as u32, y.a as u32),
        then_order(
            order_ints(x.b as u32, y.b as u32),
            then_order(
                order_ints(x.c as u32, y.c as u32),
                then_order(order_ints(x.d as u32, y.d as u32), order_ints(x.port as u32, y.port as u32)),
            ),
        ),
    )
}

/// Three-way comparison of addresses.
pub fn compare_addresses(x: &Address, y: &Address) -> (r: Order3)
    ensures
        r == address_order(x@, y@),
{
    let sys = order_of_texts(x.system.as_str(), y.system.as_str());
    let sock = match (x.addr, y.addr) {
        (None, None) => Order3::Equal,
        (None, Some(_)) => Order3::Less,
        (Some(_), None) => Order3::Greater,
        (Some(p), Some(q)) => order_of_sockets(p, q),
    };
    then_order(sys, sock)
}

fn compare_text_lists(a: &Vec<String>, b: &Vec<String>) -> (r: Order3)
    ensures
        r == texts_order(a@.map_values(|s: String| s@), b@.map_values(|s: String| s@)),
{
    let ghost av = a@.map_values(|s: String| s@);
    let ghost bv = b@.map_values(|s: String| s@);
    let mut i: usize = 0;
    assert(av.skip(0) =~= av);
    assert(bv.skip(0) =~= bv);
    while i < a.len() && i < b.len()
        invariant
            0 <= i <= a.len(),
            i <= b.len(),
            av == a@.map_values(|s: String| s@),
            bv == b@.map_values(|s: String| s@),
            texts_order(av, bv) == texts_order(av.skip(i as int), bv.skip(i as int)),
        decreases a.len() - i,
    {
        let c = order_of_texts(a[i].as_str(), b[i].as_str());
        proof {
            let sa = av.skip(i as int);
            let sb = bv.skip(i as int);
            assert(sa[0] == a@[i as int]@);
            assert(sb[0] == b@[i as int]@);
            assert(sa.drop_first() =~= av.skip(i + 1));
            assert(sb.drop_first() =~= bv.skip(i + 1));
        }
        if c != Order3::Equal {
            return c;
        }
        i = i + 1;
    }
    proof {
        let sa = av.skip(i as int);
        let sb = bv.skip(i as int);
        assert(sa.len() == a.len() - i);
        assert(sb.len() == b.len() - i);
    }
    if a.len() == b.len() {
        Order3::Equal
    } else if i == a.len() {
        Order3::Less
    } else {
        Order3::Greater
    }
}

impl ActorPath {
    /// Three-way comparison: by address, then by elements.
    pub fn compare(&self, other: &ActorPath) -> (r: Order3)
        ensures
            r == path_order(self@, other@),
    {
        let a = self.address();
        let b = other.address();
        let first = compare_addresses(&a, &b);
        let ea = self.elements();
        let eb = other.elements();
        let second = compare_text_lists(&ea, &eb);
        then_order(first, second)
    }

    /// Whether the path orders before `other`.
    pub fn lt(&self, other: &ActorPath) -> (r: bool)
        ensures
            r == (path_order(self@, other@) == Order3::Less),
    {
        self.compare(other) == Order3::Less
    }

    /// Whether two paths are equal: the same address and elements (uids
    /// and the root's name do not count).
    pub fn same_path(&self, other: &ActorPath) -> (r: bool)
        ensures
            r == path_eq(self@, other@),
    {
        let a = self.address();
        let b = other.address();
        let ea = self.elements();
        let eb = other.elements();
        let same_elements = compare_text_lists(&ea, &eb) == Order3::Equal;
        proof {
            lemma_texts_order_equal(ea@.map_values(|s: String| s@), eb@.map_values(|s: String| s@));
        }
        a.same_as(&b) && same_elements
    }
}

/// Texts compare equal exactly when they are equal.
pub proof fn lemma_texts_order_equal(a: Seq<Seq<char>>, b: Seq<Seq<char>>)
    ensures
        (texts_order(a, b) == Order3::Equal) <==> a == b,
    decreases a.len(),
{
    if a.len() > 0 && b.len() > 0 {
        lemma_texts_order_equal(a.drop_first(), b.drop_first());
        if a == b {
            assert(a.drop_first() == b.drop_first());
        }
        if a[0] == b[0] && a.drop_first() == b.drop_first() {
            assert(a =~= seq![a[0]] + a.drop_first());
            assert(b =~= seq![b[0]] + b.drop_first());
        }
    } else if a.len() == 0 && b.len() == 0 {
        assert(a =~= b);
    }
}

} // verus!
