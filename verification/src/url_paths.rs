//! Reading actor paths and addresses from URLs such as
//! "tcp://system@127.0.0.1:2552/user/a#42".  The `url` crate parses the
//! URL; what is read from its parts is this module's own logic.

use vstd::prelude::*;
use crate::address::{Address, AddressView, Protocol, SocketAddress};
use crate::hashing::push_char;
use crate::text::text_chars;
use crate::decimal::{all_digits, digits_value, is_digit, parse_i32, read_i32, push_text};
use crate::actor_path::{
    ActorPath, ActorPathView, RootActorPath, protocol_from_str, protocol_text, split_spec,
    valid_child_spec, uid_suffix_valid,
};

verus! {

#[verifier::external_type_specification]
#[verifier::external_body]
pub struct ExUrl(url::Url);

/// Whether the `url` crate accepts the text as an absolute URL.
pub uninterp spec fn url_accepts(s: Seq<char>) -> bool;

/// The scheme `url` reads from a URL text.
pub uninterp spec fn url_scheme_of(s: Seq<char>) -> Seq<char>;

/// The username `url` reads from a URL text.
pub uninterp spec fn url_username_of(s: Seq<char>) -> Seq<char>;

/// The domain `url` reads from a URL text, where its host is a domain.
pub uninterp spec fn url_domain_of(s: Seq<char>) -> Option<Seq<char>>;

/// The octets of the IPv4 host `url` reads from a URL text, where its host
/// is one.
pub uninterp spec fn url_ipv4_of(s: Seq<char>) -> Option<(u8, u8, u8, u8)>;

/// The port `url` reads from a URL text, where it has one other than the
/// scheme's default.
pub uninterp spec fn url_port_of(s: Seq<char>) -> Option<u16>;

/// The path `url` reads from a URL text.
pub uninterp spec fn url_path_of(s: Seq<char>) -> Seq<char>;

/// The fragment `url` reads from a URL text, where it has one.
pub uninterp spec fn url_fragment_of(s: Seq<char>) -> Option<Seq<char>>;

/// An optional text by its view.
pub open spec fn opt_text(o: Option<String>) -> Option<Seq<char>> {
    match o {
        Some(t) => Some(t@),
        None => None,
    }
}

/// Optional octets as a tuple.
pub open spec fn opt_octets(o: Option<[u8; 4]>) -> Option<(u8, u8, u8, u8)> {
    match o {
        Some(a) => Some((a[0], a[1], a[2], a[3])),
        None => None,
    }
}

/// Calls `url::Url::parse`.  Trusted: it gives a URL exactly where the
/// crate accepts the text, which depends on the text alone.
#[verifier::external_body]
fn url_parse(s: &str) -> (r: Option<url::Url>)
    ensures
        r is Some <==> url_accepts(s@),
{
    url::Url::parse(s).ok()
}

/// A URL that the `url` crate parsed, with the text it was parsed from;
/// the text is its view.  Only `parse_url` makes one.
pub struct ParsedUrl {
    url: url::Url,
    source: Ghost<Seq<char>>,
}

impl View for ParsedUrl {
    type V = Seq<char>;

    closed spec fn view(&self) -> Seq<char> {
        self.source@
    }
}

/// Parses a URL text: a URL exactly where the crate accepts the text.
pub fn parse_url(s: &str) -> (r: Option<ParsedUrl>)
    ensures
        r is Some <==> url_accepts(s@),
        r matches Some(u) ==> u@ == s@,
{
    match url_parse(s) {
        None => None,
        Some(url) => Some(ParsedUrl { url, source: Ghost(s@) }),
    }
}

/// Calls `Url::scheme`.  Trusted: the scheme is a function of the text
/// the URL was parsed from, as parsing depends on the text alone.
#[verifier::external_body]
fn url_scheme(u: &ParsedUrl) -> (r: String)
    ensures
        r@ == url_scheme_of(u@),
{
    u.url.scheme().to_owned()
}

/// Calls `Url::username`.  Trusted: a function of the parsed text.
#[verifier::external_body]
fn url_username(u: &ParsedUrl) -> (r: String)
    ensures
        r@ == url_username_of(u@),
{
    u.url.username().to_owned()
}

/// Calls `Url::domain`.  Trusted: a function of the parsed text.
#[verifier::external_body]
fn url_domain(u: &ParsedUrl) -> (r: Option<String>)
    ensures
        opt_text(r) == url_domain_of(u@),
{
    u.url.domain().map(|d| d.to_owned())
}

/// Calls `Url::host`, keeping the octets of an IPv4 host.  Trusted: a
/// function of the parsed text.
#[verifier::external_body]
fn url_ipv4_host(u: &ParsedUrl) -> (r: Option<[u8; 4]>)
    ensures
        opt_octets(r) == url_ipv4_of(u@),
{
    match u.url.host() {
        Some(url::Host::Ipv4(a)) => Some(a.octets()),
        _ => None,
    }
}

/// Calls `Url::port`.  Trusted: a function of the parsed text.
#[verifier::external_body]
fn url_port(u: &ParsedUrl) -> (r: Option<u16>)
    ensures
        r == url_port_of(u@),
{
    u.url.port()
}

/// Calls `Url::path`.  Trusted: a function of the parsed text.
#[verifier::external_body]
fn url_path(u: &ParsedUrl) -> (r: String)
    ensures
        r@ == url_path_of(u@),
{
    u.url.path().to_owned()
}

/// Calls `Url::fragment`.  Trusted: a function of the parsed text.
#[verifier::external_body]
fn url_fragment(u: &ParsedUrl) -> (r: Option<String>)
    ensures
        opt_text(r) == url_fragment_of(u@),
{
    u.url.fragment().map(|f| f.to_owned())
}

/// The parts that `url` reads from a URL text.
pub open spec fn url_parts_of(s: Seq<char>) -> UrlPartsView {
    UrlPartsView {
        scheme: url_scheme_of(s),
        username: url_username_of(s),
        domain: url_domain_of(s),
        ipv4_host: url_ipv4_of(s),
        port: url_port_of(s),
        path: url_path_of(s),
        fragment: url_fragment_of(s),
    }
}

/// The parts of a URL that paths and addresses are read from.
pub struct UrlParts {
    pub scheme: String,
    pub username: String,
    pub domain: Option<String>,
    pub ipv4_host: Option<[u8; 4]>,
    pub port: Option<u16>,
    pub path: String,
    pub fragment: Option<String>,
}

/// Reads the parts of a parsed URL.
fn read_parts(u: &ParsedUrl) -> (r: UrlParts)
    ensures
        r@ == url_parts_of(u@),
{
    UrlParts {
        scheme: url_scheme(u),
        username: url_username(u),
        domain: url_domain(u),
        ipv4_host: url_ipv4_host(u),
        port: url_port(u),
        path: url_path(u),
        fragment: url_fragment(u),
    }
}

/// Splitting the first `n` characters at `c`: the pieces already closed,
/// and the piece being read.
pub open spec fn split_scan(s: Seq<char>, c: char, n: int) -> (Seq<Seq<char>>, Seq<char>)
    decreases n,
{
    if n <= 0 {
        (Seq::empty(), Seq::empty())
    } else {
        let prev = split_scan(s, c, n - 1);
        if s[n - 1] == c {
            (prev.0.push(prev.1), Seq::empty())
        } else {
            (prev.0, prev.1.push(s[n - 1]))
        }
    }
}

/// The pieces of `s` between occurrences of `c`, as `str::split` gives
/// them (one piece more than there are separators).
pub open spec fn split_on(s: Seq<char>, c: char) -> Seq<Seq<char>> {
    let r = split_scan(s, c, s.len() as int);
    r.0.push(r.1)
}

/// Splits the text at every `c`.
pub fn split_text(s: &str, c: char) -> (r: Vec<String>)
    ensures
        r@.map_values(|x: String| x@) == split_on(s@, c),
{
    let chars = text_chars(s);
    let mut out: Vec<String> = Vec::new();
    let mut cur = String::new();
    let mut i: usize = 0;
    assert(out@.map_values(|x: String| x@) =~= Seq::<Seq<char>>::empty());
    while i < chars.len()
        invariant
            0 <= i <= chars.len(),
            chars@ == s@,
            out@.map_values(|x: String| x@) == split_scan(s@, c, i as int).0,
            cur@ == split_scan(s@, c, i as int).1,
        decreases chars.len() - i,
    {
        if chars[i] == c {
            let ghost before = out@.map_values(|x: String| x@);
            let piece = cur;
            cur = String::new();
            out.push(piece);
            assert(out@.map_values(|x: String| x@) =~= before.push(split_scan(s@, c, i as int).1));
        } else {
            push_char(&mut cur, chars[i]);
        }
        i = i + 1;
    }
    let ghost before = out@.map_values(|x: String| x@);
    out.push(cur);
    assert(out@.map_values(|x: String| x@) =~= before.push(split_scan(s@, c, s@.len() as int).1));
    out
}

/// The pieces of a path split at '/', with "#fragment" appended to the
/// last where there is a fragment.
pub open spec fn split_path_spec(s: Seq<char>, fragment: Option<Seq<char>>) -> Seq<Seq<char>> {
    let parts = split_on(s, '/');
    match fragment {
        None => parts,
        Some(f) => parts.update(parts.len() - 1, parts.last() + seq!['#'] + f),
    }
}

/// Splitting of URL paths into their pieces.
pub trait PathUtils {
    /// Splits a path at '/', appending "#fragment" to the last piece where
    /// a fragment is given.
    fn split(s: &str, fragment: Option<&str>) -> (r: Vec<String>)
        ensures
            r@.map_values(|x: String| x@) == split_path_spec(s@, match fragment {
                Some(f) => Some(f@),
                None => None,
            }),
    {
        let mut paths = split_text(s, '/');
        let ghost before = paths@.map_values(|x: String| x@);
        match fragment {
            None => {},
            Some(f) => {
                let n = paths.len();
                assert(n == before.len() && n >= 1);
                let ghost rest = paths@.drop_last();
                let mut last = paths.remove(n - 1);
                assert(last@ == before.last());
                assert(paths@ == rest);
                push_char(&mut last, '#');
                push_text(&mut last, f);
                let ghost lv = last@;
                paths.push(last);
                assert(lv == before.last() + seq!['#'] + f@);
                assert(paths@.map_values(|x: String| x@) =~= before.update(
                    before.len() - 1,
                    before.last() + seq!['#'] + f@,
                ));
            },
        }
        paths
    }
}

/// The text holds exactly one IPv4 octet as std reads one: one to three
/// digits, no leading zero but in "0", a value up to 255.
pub open spec fn octet_text(t: Seq<char>) -> bool {
    &&& all_digits(t)
    &&& t.len() <= 3
    &&& (t.len() == 1 || t[0] != '0')
    &&& digits_value(t) <= 255
}

/// What `Ipv4Addr::from_str` gives: four octets separated by '.'.
pub open spec fn parse_ipv4(s: Seq<char>) -> Option<(u8, u8, u8, u8)> {
    let p = split_on(s, '.');
    if p.len() == 4 && octet_text(p[0]) && octet_text(p[1]) && octet_text(p[2]) && octet_text(p[3]) {
        Some((
            digits_value(p[0]) as u8,
            digits_value(p[1]) as u8,
            digits_value(p[2]) as u8,
            digits_value(p[3]) as u8,
        ))
    } else {
        None
    }
}

/// Reads one octet text.
fn read_octet(t: &String) -> (r: Option<u8>)
    ensures
        r is Some <==> octet_text(t@),
        r matches Some(v) ==> v == digits_value(t@),
{
    let chars = text_chars(t.as_str());
    let n = chars.len();
    if n == 0 || n > 3 {
        return None;
    }
    if n > 1 && chars[0] == '0' {
        return None;
    }
    let mut v: u32 = 0;
    let mut i: usize = 0;
    while i < n
        invariant
            0 <= i <= n <= 3,
            n == chars.len(),
            chars@ == t@,
            forall|j: int| 0 <= j < i ==> is_digit(#[trigger] chars@[j]),
            v == digits_value(chars@.take(i as int)),
            i == 0 ==> v == 0,
            i == 1 ==> v < 10,
            i == 2 ==> v < 100,
            i == 3 ==> v < 1000,
        decreases n - i,
    {
        let c = chars[i];
        if !('0' <= c && c <= '9') {
            return None;
        }
        assert(chars@.take(i + 1).drop_last() =~= chars@.take(i as int));
        v = v * 10 + (c as u32 - '0' as u32);
        i = i + 1;
    }
    assert(chars@.take(n as int) =~= chars@);
    if v > 255 {
        return None;
    }
    Some(v as u8)
}

/// Reads an IPv4 address as `Ipv4Addr::from_str` does.
pub fn read_ipv4(s: &str) -> (r: Option<(u8, u8, u8, u8)>)
    ensures
        r == parse_ipv4(s@),
{
    let parts = split_text(s, '.');
    let ghost pv = parts@.map_values(|x: String| x@);
    if parts.len() != 4 {
        return None;
    }
    assert(pv[0] == parts@[0]@ && pv[1] == parts@[1]@ && pv[2] == parts@[2]@ && pv[3] == parts@[3]@);
    let a = read_octet(&parts[0]);
    let b = read_octet(&parts[1]);
    let c = read_octet(&parts[2]);
    let d = read_octet(&parts[3]);
    match (a, b, c, d) {
        (Some(a), Some(b), Some(c), Some(d)) => Some((a, b, c, d)),
        _ => None,
    }
}

/// Why a path or address could not be read from a text.
#[derive(Debug, PartialEq, Eq, Structural, Clone, Copy)]
pub enum PathError {
    /// The `url` crate does not accept the text.
    InvalidUrl,
    /// The URL's host is not a domain.
    NoHost,
    /// The URL has no port.
    NoPort,
    /// The host is not an IPv4 address.
    InvalidSocketAddress,
    /// The fragment does not read as a uid.
    InvalidUid,
    /// The scheme is not a known protocol.
    UnknownProtocol,
    /// A path element holds a '#' suffix that does not read as a uid.
    InvalidElement,
    /// A uid is given for a path with no elements.
    RootWithUid,
}

/// The parts of a URL by their views.
pub struct UrlPartsView {
    pub scheme: Seq<char>,
    pub username: Seq<char>,
    pub domain: Option<Seq<char>>,
    pub ipv4_host: Option<(u8, u8, u8, u8)>,
    pub port: Option<u16>,
    pub path: Seq<char>,
    pub fragment: Option<Seq<char>>,
}

impl View for UrlParts {
    type V = UrlPartsView;

    open spec fn view(&self) -> UrlPartsView {
        UrlPartsView {
            scheme: self.scheme@,
            username: self.username@,
            domain: match self.domain {
                Some(d) => Some(d@),
                None => None,
            },
            ipv4_host: match self.ipv4_host {
                Some(o) => Some((o[0], o[1], o[2], o[3])),
                None => None,
            },
            port: self.port,
            path: self.path@,
            fragment: match self.fragment {
                Some(f) => Some(f@),
                None => None,
            },
        }
    }
}

/// The pieces of a URL's path after the leading one (before the first '/').
pub open spec fn path_pieces(path: Seq<char>) -> Seq<Seq<char>> {
    split_on(path, '/').drop_first()
}

/// The uid text of a URL: its fragment, "0" where there is none.
pub open spec fn uid_text(fragment: Option<Seq<char>>) -> Seq<char> {
    match fragment {
        Some(f) => f,
        None => seq!['0'],
    }
}

/// The path that `ActorPath::from_str` reads from the parts of a URL, or
/// why it reads none.  The scheme is the protocol and the username the
/// system; the host must be a domain that reads as an IPv4 address and the
/// port must be given; the path's pieces after the first are the children
/// under the root "/" and the fragment (or "0") is the uid of the result.
pub open spec fn path_from_parts(p: UrlPartsView) -> Result<ActorPathView, PathError> {
    if !(p.scheme == protocol_text(Protocol::Tcp)) {
        Err(PathError::UnknownProtocol)
    } else if p.domain is None {
        Err(PathError::NoHost)
    } else if p.port is None {
        Err(PathError::NoPort)
    } else if parse_ipv4(p.domain.unwrap()) is None {
        Err(PathError::InvalidSocketAddress)
    } else if parse_i32(uid_text(p.fragment)) is None {
        Err(PathError::InvalidUid)
    } else if !(forall|i: int| 0 <= i < path_pieces(p.path).len() ==> valid_child_spec(#[trigger] path_pieces(p.path)[i])) {
        Err(PathError::InvalidElement)
    } else if path_pieces(p.path).len() == 0 && parse_i32(uid_text(p.fragment)).unwrap() != 0 {
        Err(PathError::RootWithUid)
    } else {
        let ip = parse_ipv4(p.domain.unwrap()).unwrap();
        let uid = parse_i32(uid_text(p.fragment)).unwrap();
        let pieces = path_pieces(p.path);
        let children = pieces.map_values(|x: Seq<char>| split_spec(x));
        Ok(ActorPathView {
            address: AddressView {
                protocol: Protocol::Tcp,
                system: p.username,
                addr: Some(SocketAddress { a: ip.0, b: ip.1, c: ip.2, d: ip.3, port: p.port.unwrap() }),
            },
            root_name: seq!['/'],
            children: if children.len() == 0 {
                children
            } else {
                children.update(children.len() - 1, (children.last().0, uid))
            },
        })
    }
}

/// The outcome is what `path_from_parts` reads from the parts.
pub open spec fn read_as(r: Result<ActorPath, PathError>, p: UrlPartsView) -> bool {
    match (r, path_from_parts(p)) {
        (Ok(a), Ok(b)) => a@ == b,
        (Err(e), Err(f)) => e == f,
        _ => false,
    }
}

impl ActorPath {
    /// The path read from the parts of a URL, as `path_from_parts` says.
    pub fn from_url_parts(parts: &UrlParts) -> (r: Result<ActorPath, PathError>)
        ensures
            read_as(r, parts@),
    {
        let protocol = match protocol_from_str(parts.scheme.as_str()) {
            Some(p) => p,
            None => {
                return Err(PathError::UnknownProtocol);
            },
        };
        let host = match &parts.domain {
            Some(d) => d,
            None => {
                return Err(PathError::NoHost);
            },
        };
        let port = match parts.port {
            Some(p) => p,
            None => {
                return Err(PathError::NoPort);
            },
        };
        let ip = match read_ipv4(host.as_str()) {
            Some(ip) => ip,
            None => {
                return Err(PathError::InvalidSocketAddress);
            },
        };
        let mut uid_chars: Vec<char> = Vec::new();
        match &parts.fragment {
            Some(f) => {
                uid_chars = text_chars(f.as_str());
            },
            None => {
                uid_chars.push('0');
            },
        }
        assert(uid_chars@.skip(0) =~= uid_text(parts@.fragment));
        let uid = match read_i32(&uid_chars, 0) {
            Some(u) => u,
            None => {
                return Err(PathError::InvalidUid);
            },
        };
        let pieces = split_text(parts.path.as_str(), '/');
        let ghost all = pieces@.map_values(|x: String| x@);
        let ghost pp = path_pieces(parts.path@);
        assert(pp =~= all.drop_first());
        let mut i: usize = 1;
        while i < pieces.len()
            invariant
                1 <= i <= pieces.len(),
                pieces.len() >= 1,
                all == pieces@.map_values(|x: String| x@),
                pp == all.drop_first(),
                pp == path_pieces(parts@.path),
                parts@.scheme == protocol_text(Protocol::Tcp),
                parts@.domain is Some,
                parts@.port is Some,
                parse_ipv4(parts@.domain.unwrap()) is Some,
                parse_i32(uid_text(parts@.fragment)) is Some,
                forall|j: int| 0 <= j < i - 1 ==> valid_child_spec(#[trigger] pp[j]),
            decreases pieces.len() - i,
        {
            assert(pp[i - 1] == pieces@[i as int]@);
            if !valid_child_text(pieces[i].as_str()) {
                assert(!valid_child_spec(pp[i - 1]));
                return Err(PathError::InvalidElement);
            }
            i = i + 1;
        }
        if pieces.len() == 1 && uid != 0 {
            return Err(PathError::RootWithUid);
        }
        let address = Address::new(protocol, parts.username.as_str(), Some(SocketAddress { a: ip.0, b: ip.1, c: ip.2, d: ip.3, port }));
        let mut slash = String::new();
        push_char(&mut slash, '/');
        let mut path = ActorPath::RootActorPath(RootActorPath::new(address, slash));
        let ghost root_view = path@;
        assert(pp.take(0).map_values(|x: Seq<char>| split_spec(x)) =~= Seq::<(Seq<char>, i32)>::empty());
        assert(path@ =~= (ActorPathView {
            children: pp.take(0).map_values(|x: Seq<char>| split_spec(x)),
            ..root_view
        }));
        let mut k: usize = 1;
        while k < pieces.len()
            invariant
                1 <= k <= pieces.len(),
                all == pieces@.map_values(|x: String| x@),
                pp == all.drop_first(),
                forall|j: int| 0 <= j < pp.len() ==> valid_child_spec(#[trigger] pp[j]),
                path@ == (ActorPathView {
                    children: pp.take(k - 1).map_values(|x: Seq<char>| split_spec(x)),
                    ..root_view
                }),
            decreases pieces.len() - k,
        {
            assert(pp[k - 1] == pieces@[k as int]@);
            path = path.child(pieces[k].as_str());
            assert(pp.take(k as int).map_values(|x: Seq<char>| split_spec(x)) =~= pp.take(k - 1).map_values(|x: Seq<char>| split_spec(x)).push(split_spec(pp[k - 1])));
            k = k + 1;
        }
        assert(pp.take(k - 1) =~= pp);
        let r = path.with_uid(uid);
        proof {
            let expected = path_from_parts(parts@);
            assert(expected is Ok);
            let children = pp.map_values(|x: Seq<char>| split_spec(x));
            if children.len() > 0 {
                assert(r@.children =~= children.update(children.len() - 1, (children.last().0, uid)));
            }
        }
        Ok(r)
    }

    /// Reads a path from its URL text, as `FromStr` does: the URL is parsed
    /// by the `url` crate, and its parts are read by `from_url_parts`.
    pub fn from_str(s: &str) -> (r: Result<ActorPath, PathError>)
        ensures
            !url_accepts(s@) ==> r == Err::<ActorPath, PathError>(PathError::InvalidUrl),
            url_accepts(s@) ==> read_as(r, url_parts_of(s@)),
    {
        match parse_url(s) {
            None => Err(PathError::InvalidUrl),
            Some(u) => {
                let parts = read_parts(&u);
                Self::from_url_parts(&parts)
            },
        }
    }
}

/// Whether the text is a valid child name with an optional "#uid" suffix.
pub fn valid_child_text(s: &str) -> (r: bool)
    ensures
        r == valid_child_spec(s@),
{
    let checked = split_checked(s);
    match checked.0 {
        None => false,
        Some(n) => {
            assert(n@ == split_spec(s@).0);
            let chars = text_chars(n.as_str());
            let mut i: usize = 0;
            while i < chars.len()
                invariant
                    0 <= i <= chars.len(),
                    chars@ == n@,
                    n@ == split_spec(s@).0,
                    forall|j: int| 0 <= j < i ==> chars@[j] != '/',
                decreases chars.len() - i,
            {
                if chars[i] == '/' {
                    assert(n@.contains('/')) by {
                        assert(n@[i as int] == '/');
                    }
                    assert(split_spec(s@).0.contains('/'));
                    assert(!valid_child_spec(s@));
                    return false;
                }
                i = i + 1;
            }
            proof {
                if n@.contains('/') {
                    let k = choose|k: int| 0 <= k < n@.len() && n@[k] == '/';
                    assert(chars@[k] != '/');
                }
            }
            true
        },
    }
}

/// Whether the text's "#uid" suffix, where it has one, reads as an `i32`.
pub fn uid_suffix_is_valid(s: &str) -> (r: bool)
    ensures
        r == uid_suffix_valid(s@),
{
    split_checked(s).0.is_some()
}

/// The name part of `s` where its uid suffix is valid.
fn split_checked(s: &str) -> (r: (Option<String>, ()))
    ensures
        r.0 is Some <==> uid_suffix_valid(s@),
        r.0 matches Some(n) ==> n@ == split_spec(s@).0,
{
    let chars = text_chars(s);
    let mut i: usize = 0;
    while i < chars.len()
        invariant
            0 <= i <= chars.len(),
            chars@ == s@,
            forall|j: int| 0 <= j < i ==> chars@[j] != '#',
        ensures
            0 <= i <= chars.len(),
            forall|j: int| 0 <= j < i ==> chars@[j] != '#',
            i < chars.len() ==> chars@[i as int] == '#',
        decreases chars.len() - i,
    {
        if chars[i] == '#' {
            break;
        }
        i = i + 1;
    }
    if i == chars.len() {
        proof {
            if s@.contains('#') {
                let k = choose|k: int| 0 <= k < s@.len() && s@[k] == '#';
                assert(chars@[k] != '#');
            }
        }
        return (Some(s.to_owned()), ());
    }
    proof {
        assert(s@.contains('#')) by {
            assert(s@[i as int] == '#');
        }
        crate::actor_path::lemma_first_index(s@, '#');
        let f = crate::actor_path::first_index(s@, '#');
        if f < i {
            assert(chars@[f] != '#');
        } else if f > i {
            assert(s@[i as int] != '#');
        }
        assert(f == i);
    }
    match read_i32(&chars, i + 1) {
        None => (None, ()),
        Some(_) => {
            let mut n = String::new();
            let mut j: usize = 0;
            while j < i
                invariant
                    0 <= j <= i < chars.len(),
                    chars@ == s@,
                    n@ == s@.take(j as int),
                decreases i - j,
            {
                push_char(&mut n, chars[j]);
                assert(s@.take(j + 1) =~= s@.take(j as int).push(s@[j as int]));
                j = j + 1;
            }
            (Some(n), ())
        },
    }
}

/// The address that `AddressFromURIString` reads from the parts of a URL:
/// the scheme is the protocol and the username the system; a socket
/// address is read where the host is an IPv4 address and a port is given.
pub open spec fn address_from_parts(p: UrlPartsView) -> Result<AddressView, PathError> {
    if p.scheme != protocol_text(Protocol::Tcp) {
        Err(PathError::UnknownProtocol)
    } else {
        Ok(AddressView {
            protocol: Protocol::Tcp,
            system: p.username,
            addr: match (p.ipv4_host, p.port) {
                (Some(ip), Some(port)) => Some(SocketAddress { a: ip.0, b: ip.1, c: ip.2, d: ip.3, port }),
                _ => None,
            },
        })
    }
}

/// Reading an address from a URL.
#[derive(Debug, Clone, Copy)]
pub struct AddressFromURIString;

impl AddressFromURIString {
    /// The address read from the parts of a URL, as `address_from_parts`
    /// says.
    pub fn parse_from_url(parts: &UrlParts) -> (r: Result<Address, PathError>)
        ensures
            match (r, address_from_parts(parts@)) {
                (Ok(a), Ok(b)) => a@ == b,
                (Err(e), Err(f)) => e == f,
                _ => false,
            },
    {
        let protocol = match protocol_from_str(parts.scheme.as_str()) {
            Some(p) => p,
            None => {
                return Err(PathError::UnknownProtocol);
            },
        };
        let addr = match (parts.ipv4_host, parts.port) {
            (Some(ip), Some(port)) => Some(SocketAddress { a: ip[0], b: ip[1], c: ip[2], d: ip[3], port }),
            _ => None,
        };
        Ok(Address::new(protocol, parts.username.as_str(), addr))
    }
}

/// What `ActorPathExtractor` reads from the parts of a URL: the address,
/// and the path's pieces after the first, the fragment appended to the
/// last as "#fragment".
pub open spec fn extract_from_parts(p: UrlPartsView) -> Result<(AddressView, Seq<Seq<char>>), PathError> {
    match address_from_parts(p) {
        Err(e) => Err(e),
        Ok(a) => Ok((a, split_path_spec(p.path, p.fragment).drop_first())),
    }
}

/// The outcome is what `extract_from_parts` reads from the parts.
pub open spec fn extracted_as(r: Result<(Address, Vec<String>), PathError>, p: UrlPartsView) -> bool {
    match (r, extract_from_parts(p)) {
        (Ok(a), Ok(b)) => a.0@ == b.0 && a.1@.map_values(|x: String| x@) == b.1,
        (Err(e), Err(f)) => e == f,
        _ => false,
    }
}

/// Reading an address and path elements from a URL.
#[derive(Debug, Clone, Copy)]
pub struct ActorPathExtractor;

impl PathUtils for ActorPathExtractor {}

impl ActorPathExtractor {
    /// The address and path pieces read from the parts of a URL.
    pub fn extract_from_parts(parts: &UrlParts) -> (r: Result<(Address, Vec<String>), PathError>)
        ensures
            extracted_as(r, parts@),
    {
        let address = match AddressFromURIString::parse_from_url(parts) {
            Ok(a) => a,
            Err(e) => {
                return Err(e);
            },
        };
        let fragment = match &parts.fragment {
            Some(f) => Some(f.as_str()),
            None => None,
        };
        let mut paths = <ActorPathExtractor as PathUtils>::split(parts.path.as_str(), fragment);
        let ghost before = paths@.map_values(|x: String| x@);
        assert(before == split_path_spec(parts@.path, parts@.fragment));
        assert(before.len() >= 1);
        paths.remove(0);
        assert(paths@.map_values(|x: String| x@) =~= before.drop_first());
        Ok((address, paths))
    }

    /// Reads the address and path pieces from a URL text; the URL is parsed
    /// by the `url` crate.
    pub fn extract(s: &str) -> (r: Result<(Address, Vec<String>), PathError>)
        ensures
            !url_accepts(s@) ==> r is Err && r->Err_0 == PathError::InvalidUrl,
            url_accepts(s@) ==> extracted_as(r, url_parts_of(s@)),
    {
        match parse_url(s) {
            None => Err(PathError::InvalidUrl),
            Some(u) => {
                let parts = read_parts(&u);
                Self::extract_from_parts(&parts)
            },
        }
    }
}

/// A reference to an actor by the serialization format of its path.
#[derive(Debug)]
pub struct SerializedActorRef {
    pub path: String,
}

impl SerializedActorRef {
    /// The reference to the actor at `path`.
    pub fn from_path(path: &ActorPath) -> (r: SerializedActorRef)
        ensures
            r.path@ == crate::actor_path::path_text(path@) + crate::actor_path::uid_suffix(
                crate::actor_path::uid_of(path@),
            ),
    {
        SerializedActorRef { path: path.to_serialization_format() }
    }

    /// The path the reference names, read as `ActorPath::from_str` reads it.
    pub fn parse_to_path(&self) -> (r: Result<ActorPath, PathError>)
        ensures
            !url_accepts(self.path@) ==> r == Err::<ActorPath, PathError>(PathError::InvalidUrl),
            url_accepts(self.path@) ==> read_as(r, url_parts_of(self.path@)),
    {
        ActorPath::from_str(self.path.as_str())
    }

    /// The reference's text, as `Display` writes it: the path.
    pub fn to_display_string(&self) -> (r: String)
        ensures
            r@ == self.path@,
    {
        self.path.clone()
    }
}

} // verus!
