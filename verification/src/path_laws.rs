//! Laws of actor paths: a uid written into a name is read back, the order
//! of paths agrees with their equality and is antisymmetric, splitting a
//! path text at '/' and joining the pieces gives the text back, and a path
//! is read back from the parts of its serialization.

use vstd::prelude::*;
use crate::text::{Order3, lemma_text_lt_asymmetric, lemma_text_lt_total};
use crate::decimal::{dec, signed_dec, parse_i32, all_digits, digits_value, is_digit, digit_char, digit_value};
use crate::actor_path::{
    split_spec, uid_suffix_valid, first_index, lemma_first_index, join, text_order, texts_order, socket_order, address_order, path_order, path_eq, ActorPathView,
    lemma_texts_order_equal, child_names, elements_of, uid_of, path_text, uid_suffix, socket_text,
    protocol_text, valid_child_spec, valid_child_name,
};
use crate::address::SocketAddress;
use crate::url_paths::{split_on, split_scan, UrlPartsView, path_from_parts, path_pieces, uid_text, parse_ipv4, octet_text};

verus! {

proof fn lemma_digit_char(d: int)
    requires
        0 <= d < 10,
    ensures
        is_digit(digit_char(d)),
        digit_value(digit_char(d)) == d,
{
    assert(('0' as int) == 48);
    assert((48 + d) as char as int == 48 + d);
}

proof fn lemma_dec(n: nat)
    ensures
        all_digits(dec(n)),
        digits_value(dec(n)) == n,
    decreases n,
{
    lemma_digit_char((n % 10) as int);
    if n < 10 {
        assert(dec(n) =~= seq![digit_char(n as int)]);
        assert(dec(n).drop_last() =~= Seq::<char>::empty());
        assert(n % 10 == n);
        assert(dec(n).last() == digit_char(n as int));
        assert(digits_value(Seq::<char>::empty()) == 0);
        assert(digits_value(dec(n)) == 10 * digits_value(dec(n).drop_last()) + digit_value(dec(n).last()));
    } else {
        lemma_dec(n / 10);
        let d = dec(n);
        assert(d.drop_last() =~= dec(n / 10));
        assert(d.last() == digit_char((n % 10) as int));
        assert(10 * (n / 10) + n % 10 == n);
        assert(digits_value(d) == 10 * digits_value(d.drop_last()) + digit_value(d.last()));
        assert forall|i: int| 0 <= i < d.len() implies is_digit(#[trigger] d[i]) by {
            if i < d.len() - 1 {
                assert(d[i] == dec(n / 10)[i]);
            }
        }
    }
}

/// A number written in decimal reads back as itself.
pub proof fn law_decimal_round_trip(i: i32)
    ensures
        parse_i32(signed_dec(i as int)) == Some(i),
{
    if i < 0 {
        let n = (-(i as int)) as nat;
        lemma_dec(n);
        let s = signed_dec(i as int);
        assert(s == seq!['-'] + dec(n));
        assert(s.drop_first() =~= dec(n));
    } else {
        lemma_dec(i as nat);
        let s = dec(i as nat);
        assert(is_digit(s[0]));
    }
}

/// A name without '#', followed by "#" and a uid in decimal, splits back
/// into the name and the uid; a name without '#' alone has the undefined
/// uid.
pub proof fn law_uid_suffix_round_trip(name: Seq<char>, uid: i32)
    requires
        !name.contains('#'),
    ensures
        split_spec(name + seq!['#'] + signed_dec(uid as int)) == (name, uid),
        uid_suffix_valid(name + seq!['#'] + signed_dec(uid as int)),
        split_spec(name) == (name, 0i32),
{
    let s = name + seq!['#'] + signed_dec(uid as int);
    assert(s[name.len() as int] == '#');
    assert(s.contains('#'));
    lemma_first_index(s, '#');
    let f = first_index(s, '#');
    if f < name.len() {
        assert(s[f] == name[f]);
    } else if f > name.len() {
        assert(s[name.len() as int] != '#');
    }
    assert(f == name.len());
    assert(s.take(f) =~= name);
    assert(s.skip(f + 1) =~= signed_dec(uid as int));
    law_decimal_round_trip(uid);
}

proof fn lemma_text_order(a: Seq<char>, b: Seq<char>)
    ensures
        (text_order(a, b) == Order3::Equal) == (a == b),
        (text_order(a, b) == Order3::Less) == (text_order(b, a) == Order3::Greater),
{
    lemma_text_lt_asymmetric(a, b);
    lemma_text_lt_asymmetric(b, a);
    lemma_text_lt_total(a, b);
}

proof fn lemma_texts_order_flip(a: Seq<Seq<char>>, b: Seq<Seq<char>>)
    ensures
        (texts_order(a, b) == Order3::Less) == (texts_order(b, a) == Order3::Greater),
    decreases a.len(),
{
    if a.len() > 0 && b.len() > 0 {
        lemma_text_order(a[0], b[0]);
        lemma_texts_order_flip(a.drop_first(), b.drop_first());
    }
}

/// Two paths compare equal exactly when they are equal, and one orders
/// before another exactly when the other orders after it.
pub proof fn law_path_order(a: ActorPathView, b: ActorPathView)
    ensures
        (path_order(a, b) == Order3::Equal) == path_eq(a, b),
        (path_order(a, b) == Order3::Less) == (path_order(b, a) == Order3::Greater),
{
    let ea = crate::actor_path::elements_of(a);
    let eb = crate::actor_path::elements_of(b);
    lemma_texts_order_equal(ea, eb);
    lemma_texts_order_flip(ea, eb);
    lemma_text_order(a.address.system, b.address.system);
    let sa = a.address.addr;
    let sb = b.address.addr;
    if a.address == b.address {
        assert(address_order(a.address, b.address) == Order3::Equal) by {
            match sa {
                Some(p) => {
                    assert(socket_order(p, p) == Order3::Equal);
                },
                None => {},
            }
        }
    }
    if address_order(a.address, b.address) == Order3::Equal {
        assert(a.address.system == b.address.system);
        match (sa, sb) {
            (Some(p), Some(q)) => {
                assert(socket_order(p, q) == Order3::Equal);
                assert(p == q);
            },
            _ => {},
        }
        assert(a.address.protocol == b.address.protocol);
        assert(a.address == b.address);
    }
}

proof fn lemma_split_scan_join(s: Seq<char>, c: char, n: int)
    requires
        0 <= n <= s.len(),
    ensures
        join(split_scan(s, c, n).0.push(split_scan(s, c, n).1), seq![c]) == s.take(n),
    decreases n,
{
    let r = split_scan(s, c, n);
    if n == 0 {
        assert(r.0.push(r.1) =~= seq![Seq::<char>::empty()]);
        assert(s.take(0) =~= Seq::<char>::empty());
    } else {
        lemma_split_scan_join(s, c, n - 1);
        let p = split_scan(s, c, n - 1);
        let whole = p.0.push(p.1);
        assert(s.take(n) =~= s.take(n - 1).push(s[n - 1]));
        if s[n - 1] == c {
            let now = p.0.push(p.1).push(Seq::<char>::empty());
            assert(r.0.push(r.1) =~= now);
            assert(now.drop_last() =~= whole);
            assert(join(now, seq![c]) =~= join(whole, seq![c]) + seq![c] + Seq::<char>::empty());
        } else {
            let now = p.0.push(p.1.push(s[n - 1]));
            assert(r.0.push(r.1) =~= now);
            if p.0.len() == 0 {
                assert(now =~= seq![p.1.push(s[n - 1])]);
                assert(whole =~= seq![p.1]);
            } else {
                assert(now.drop_last() =~= p.0);
                assert(whole.drop_last() =~= p.0);
            }
        }
    }
}

/// Splitting a text at `c` and joining the pieces with `c` gives the text
/// back.
pub proof fn law_split_join(s: Seq<char>, c: char)
    ensures
        join(split_on(s, c), seq![c]) == s,
{
    lemma_split_scan_join(s, c, s.len() as int);
    assert(s.take(s.len() as int) =~= s);
}

proof fn lemma_scan_prefix(s1: Seq<char>, s2: Seq<char>, c: char, n: int)
    requires
        0 <= n <= s1.len(),
        n <= s2.len(),
        s1.take(n) == s2.take(n),
    ensures
        split_scan(s1, c, n) == split_scan(s2, c, n),
    decreases n,
{
    if n > 0 {
        assert(s1.take(n - 1) =~= s1.take(n).take(n - 1));
        assert(s2.take(n - 1) =~= s2.take(n).take(n - 1));
        lemma_scan_prefix(s1, s2, c, n - 1);
        assert(s1[n - 1] == s1.take(n)[n - 1]);
        assert(s2[n - 1] == s2.take(n)[n - 1]);
    }
}

proof fn lemma_scan_plain(s: Seq<char>, c: char, m: int, j: int)
    requires
        0 <= m,
        0 <= j,
        m + j <= s.len(),
        forall|k: int| m <= k < m + j ==> s[k] != c,
    ensures
        split_scan(s, c, m + j) == (split_scan(s, c, m).0, split_scan(s, c, m).1 + s.subrange(m, m + j)),
    decreases j,
{
    if j == 0 {
        assert(split_scan(s, c, m).1 + s.subrange(m, m) =~= split_scan(s, c, m).1);
    } else {
        lemma_scan_plain(s, c, m, j - 1);
        assert(split_scan(s, c, m).1 + s.subrange(m, m + j) =~= (split_scan(s, c, m).1 + s.subrange(m, m + j - 1)).push(s[m + j - 1]));
    }
}

proof fn lemma_scan_join(names: Seq<Seq<char>>, c: char)
    requires
        names.len() >= 1,
        forall|i: int| 0 <= i < names.len() ==> !(#[trigger] names[i]).contains(c),
    ensures
        split_scan(join(names, seq![c]), c, join(names, seq![c]).len() as int) == (names.drop_last(), names.last()),
    decreases names.len(),
{
    let j = join(names, seq![c]);
    if names.len() == 1 {
        assert(j == names[0]);
        assert forall|k: int| 0 <= k < j.len() implies j[k] != c by {
            if j[k] == c {
                assert(names[0].contains(c));
            }
        }
        lemma_scan_plain(j, c, 0, j.len() as int);
        assert(j.subrange(0, j.len() as int) =~= j);
        assert(Seq::<char>::empty() + j =~= j);
        assert(names.drop_last() =~= Seq::<Seq<char>>::empty());
    } else {
        let dl = names.drop_last();
        let last = names.last();
        let j0 = join(dl, seq![c]);
        assert forall|i: int| 0 <= i < dl.len() implies !(#[trigger] dl[i]).contains(c) by {
            assert(dl[i] == names[i]);
        }
        lemma_scan_join(dl, c);
        assert(j == j0 + seq![c] + last);
        let m = j0.len() as int;
        assert(j.take(m) =~= j0.take(m));
        lemma_scan_prefix(j, j0, c, m);
        assert(j0.take(m) =~= j0);
        assert(j[m] == c);
        assert(split_scan(j, c, m + 1) == (dl.drop_last().push(dl.last()), Seq::<char>::empty()));
        assert(dl.drop_last().push(dl.last()) =~= dl);
        assert forall|k: int| m + 1 <= k < m + 1 + last.len() implies j[k] != c by {
            assert(j[k] == last[k - m - 1]);
            if j[k] == c {
                assert(last.contains(c));
                assert(names[names.len() - 1] == last);
            }
        }
        lemma_scan_plain(j, c, m + 1, last.len() as int);
        assert(j.subrange(m + 1, m + 1 + last.len()) =~= last);
        assert(Seq::<char>::empty() + last =~= last);
        assert(m + 1 + last.len() == j.len());
    }
}

/// Splitting the joined names at the separator gives the names back, where
/// no name holds the separator.
pub proof fn lemma_split_of_join(names: Seq<Seq<char>>, c: char)
    requires
        names.len() >= 1,
        forall|i: int| 0 <= i < names.len() ==> !(#[trigger] names[i]).contains(c),
    ensures
        split_on(join(names, seq![c]), c) == names,
{
    lemma_scan_join(names, c);
    assert(names.drop_last().push(names.last()) =~= names);
}

proof fn lemma_dec_shape(n: nat)
    ensures
        n < 10 ==> dec(n).len() == 1,
        n < 100 ==> dec(n).len() <= 2,
        n < 1000 ==> dec(n).len() <= 3,
        n >= 1 ==> dec(n)[0] != '0',
        dec(n).len() >= 1,
    decreases n,
{
    lemma_digit_char((n % 10) as int);
    if n < 10 {
        if n >= 1 {
            assert(dec(n)[0] == digit_char(n as int));
            assert(digit_value('0') == 0);
        }
    } else {
        lemma_dec_shape(n / 10);
        assert(dec(n) == dec(n / 10).push(digit_char((n % 10) as int)));
        assert(dec(n)[0] == dec(n / 10)[0]);
    }
}

proof fn lemma_octet_dec(n: nat)
    requires
        n <= 255,
    ensures
        octet_text(dec(n)),
        digits_value(dec(n)) == n,
        !dec(n).contains('.'),
{
    lemma_dec(n);
    lemma_dec_shape(n);
    if dec(n).contains('.') {
        let k = choose|k: int| 0 <= k < dec(n).len() && dec(n)[k] == '.';
        assert(is_digit(dec(n)[k]));
    }
}

/// The text of a socket address's IPv4 host: its octets in decimal,
/// separated by '.'.
pub open spec fn ip_text(sa: SocketAddress) -> Seq<char> {
    dec(sa.a as nat) + seq!['.'] + dec(sa.b as nat) + seq!['.'] + dec(sa.c as nat) + seq!['.'] + dec(sa.d as nat)
}

/// The IPv4 text of a socket address reads back as its octets.
pub proof fn lemma_ip_text_read_back(sa: SocketAddress)
    ensures
        parse_ipv4(ip_text(sa)) == Some((sa.a, sa.b, sa.c, sa.d)),
{
    let ns = seq![dec(sa.a as nat), dec(sa.b as nat), dec(sa.c as nat), dec(sa.d as nat)];
    lemma_octet_dec(sa.a as nat);
    lemma_octet_dec(sa.b as nat);
    lemma_octet_dec(sa.c as nat);
    lemma_octet_dec(sa.d as nat);
    assert(ns.drop_last().drop_last().drop_last() =~= seq![ns[0]]);
    assert(ns.drop_last().drop_last() =~= seq![ns[0], ns[1]]);
    assert(ns.drop_last() =~= seq![ns[0], ns[1], ns[2]]);
    assert(join(seq![ns[0]], seq!['.']) == ns[0]);
    assert(join(seq![ns[0], ns[1]], seq!['.']) == ns[0] + seq!['.'] + ns[1]);
    assert(join(seq![ns[0], ns[1], ns[2]], seq!['.']) == ns[0] + seq!['.'] + ns[1] + seq!['.'] + ns[2]);
    assert(join(ns, seq!['.']) == ip_text(sa));
    assert forall|i: int| 0 <= i < ns.len() implies !(#[trigger] ns[i]).contains('.') by {}
    lemma_split_of_join(ns, '.');
}

/// The parts of the URL that a path's serialization is: the protocol as
/// scheme, the system as username, the IPv4 text of the socket address as
/// host and its port, the children's names joined with '/' after a '/' as
/// path, and the uid, where it is defined, as fragment.
pub open spec fn serialized_parts(v: ActorPathView) -> UrlPartsView {
    let sa = v.address.addr.unwrap();
    UrlPartsView {
        scheme: protocol_text(v.address.protocol),
        username: v.address.system,
        domain: Some(ip_text(sa)),
        ipv4_host: None,
        port: Some(sa.port),
        path: seq!['/'] + join(child_names(v.children), seq!['/']),
        fragment: if uid_of(v) == 0 {
            None
        } else {
            Some(signed_dec(uid_of(v) as int))
        },
    }
}

/// The URL text made of the parts that `serialized_parts` gives.
pub open spec fn url_text_of(p: UrlPartsView) -> Seq<char> {
    p.scheme + seq![':', '/', '/'] + p.username + seq!['@'] + p.domain.unwrap() + seq![':'] + dec(
        p.port.unwrap() as nat,
    ) + p.path + match p.fragment {
        Some(f) => seq!['#'] + f,
        None => Seq::empty(),
    }
}

/// A path below the root "/" of an address with a socket address, whose
/// children's names hold neither '/' nor '#', is read back from the parts
/// of its serialization: the serialization is the URL made of those parts,
/// and reading them gives a path equal to it (same address and elements)
/// with the same uid.
pub proof fn law_serialization_read_back(v: ActorPathView)
    requires
        v.address.addr is Some,
        v.root_name == seq!['/'],
        v.children.len() > 0,
        forall|i: int| 0 <= i < v.children.len() ==> valid_child_name(#[trigger] v.children[i].0),
    ensures
        path_text(v) + uid_suffix(uid_of(v)) == url_text_of(serialized_parts(v)),
        path_from_parts(serialized_parts(v)) matches Ok(w) && path_eq(w, v) && uid_of(w) == uid_of(v),
{
    let p = serialized_parts(v);
    let sa = v.address.addr.unwrap();
    let names = child_names(v.children);
    let uid = uid_of(v);
    // The text.
    assert(socket_text(sa) == ip_text(sa) + seq![':'] + dec(sa.port as nat));
    assert(path_text(v) + uid_suffix(uid) =~= url_text_of(p));
    // The parts read back.
    lemma_ip_text_read_back(sa);
    assert forall|i: int| 0 <= i < names.len() implies !(#[trigger] names[i]).contains('/') by {
        assert(valid_child_name(v.children[i].0));
    }
    lemma_split_of_join(names, '/');
    let path = seq!['/'] + join(names, seq!['/']);
    let one = seq![Seq::<char>::empty()].add(names);
    assert(one.len() >= 1);
    assert forall|i: int| 0 <= i < one.len() implies !(#[trigger] one[i]).contains('/') by {
        if i > 0 {
            assert(one[i] == names[i - 1]);
        }
    }
    lemma_split_of_join(one, '/');
    lemma_join_front(names);
    assert(join(one, seq!['/']) == path);
    assert(one.drop_first() =~= names);
    assert(path_pieces(p.path) == names);
    if uid == 0 {
        assert(uid_text(p.fragment) == seq!['0']);
        assert(seq!['0'] == dec(0));
        law_decimal_round_trip(0);
        assert(signed_dec(0) == dec(0));
    } else {
        law_decimal_round_trip(uid);
    }
    assert(parse_i32(uid_text(p.fragment)) == Some(uid));
    assert forall|i: int| 0 <= i < names.len() implies valid_child_spec(#[trigger] names[i]) by {
        assert(names[i] == v.children[i].0);
        law_uid_suffix_round_trip(names[i], 0);
    }
    assert(path_from_parts(p) is Ok);
    let w = path_from_parts(p)->Ok_0;
    let children = names.map_values(|x: Seq<char>| split_spec(x));
    assert forall|i: int| 0 <= i < names.len() implies #[trigger] children[i] == (names[i], 0i32) by {
        law_uid_suffix_round_trip(names[i], 0);
    }
    assert(w.children == children.update(children.len() - 1, (children.last().0, uid)));
    assert(child_names(w.children) =~= names);
    assert(w.address == v.address);
}

/// Joining an empty text and then `names` puts a '/' before the joined names.
proof fn lemma_join_front(names: Seq<Seq<char>>)
    requires
        names.len() >= 1,
    ensures
        join(seq![Seq::<char>::empty()].add(names), seq!['/']) == seq!['/'] + join(names, seq!['/']),
    decreases names.len(),
{
    let one = seq![Seq::<char>::empty()].add(names);
    if names.len() == 1 {
        assert(one.drop_last() =~= seq![Seq::<char>::empty()]);
        assert(join(one, seq!['/']) == join(one.drop_last(), seq!['/']) + seq!['/'] + one.last());
        assert(seq!['/'] + join(names, seq!['/']) =~= Seq::<char>::empty() + seq!['/'] + names[0]);
    } else {
        lemma_join_front(names.drop_last());
        assert(one.drop_last() =~= seq![Seq::<char>::empty()].add(names.drop_last()));
        assert(one.last() == names.last());
        assert(seq!['/'] + join(names, seq!['/']) =~= (seq!['/'] + join(names.drop_last(), seq!['/'])) + seq!['/'] + names.last());
    }
}

} // verus!
