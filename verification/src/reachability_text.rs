//! The text of a reachability table: one line for each record whose
//! observer has a version, ordered by observer and then by subject.

use vstd::prelude::*;
use crate::address::{SocketAddress, UniqueAddress, UniqueAddressView};
use crate::text::{text_lt, Order3, compare_text, lemma_text_lt_irreflexive, lemma_text_lt_transitive,
    lemma_text_lt_total, lemma_text_lt_asymmetric};
use crate::actor_path::{address_text, push_address};
use crate::decimal::{signed_dec, push_text, push_signed_decimal};
use crate::addr_set::{assoc_map, version_views, keys_unique};
use crate::reachability::{Reachability, ReachabilityView, ReachabilityStatus, Record, RecordView, record_views,
    pairs_unique, status_text, terminated_set, unreachable_set};

verus! {

/// Socket addresses in std's order: by their octets, then by port.
pub open spec fn socket_lt(x: SocketAddress, y: SocketAddress) -> bool {
    ||| x.a < y.a
    ||| x.a == y.a && x.b < y.b
    ||| x.a == y.a && x.b == y.b && x.c < y.c
    ||| x.a == y.a && x.b == y.b && x.c == y.c && x.d < y.d
    ||| x.a == y.a && x.b == y.b && x.c == y.c && x.d == y.d && x.port < y.port
}

/// Optional socket addresses: a missing one first.
pub open spec fn socket_opt_lt(x: Option<SocketAddress>, y: Option<SocketAddress>) -> bool {
    match (x, y) {
        (None, Some(_)) => true,
        (Some(p), Some(q)) => socket_lt(p, q),
        _ => false,
    }
}

/// Unique addresses in the order of their fields: system name, socket
/// address, uid (all addresses have the one protocol).
pub open spec fn unique_lt(x: UniqueAddressView, y: UniqueAddressView) -> bool {
    ||| text_lt(x.address.system, y.address.system)
    ||| x.address.system == y.address.system && socket_opt_lt(x.address.addr, y.address.addr)
    ||| x.address.system == y.address.system && x.address.addr == y.address.addr && x.uid < y.uid
}

pub proof fn lemma_unique_lt_irreflexive(x: UniqueAddressView)
    ensures
        !unique_lt(x, x),
{
    lemma_text_lt_irreflexive(x.address.system);
}

pub proof fn lemma_unique_lt_transitive(x: UniqueAddressView, y: UniqueAddressView, z: UniqueAddressView)
    requires
        unique_lt(x, y),
        unique_lt(y, z),
    ensures
        unique_lt(x, z),
{
    let (a, b, c) = (x.address.system, y.address.system, z.address.system);
    if text_lt(a, b) && text_lt(b, c) {
        lemma_text_lt_transitive(a, b, c);
    }
}

pub proof fn lemma_unique_lt_total(x: UniqueAddressView, y: UniqueAddressView)
    ensures
        x == y || unique_lt(x, y) || unique_lt(y, x),
{
    lemma_text_lt_total(x.address.system, y.address.system);
    if x.address.system == y.address.system && x.address.addr == y.address.addr && x.uid == y.uid {
        assert(x.address.protocol == y.address.protocol);
        assert(x.address == y.address);
    }
}

pub proof fn lemma_unique_lt_asymmetric(x: UniqueAddressView, y: UniqueAddressView)
    ensures
        unique_lt(x, y) ==> !unique_lt(y, x),
{
    lemma_text_lt_asymmetric(x.address.system, y.address.system);
    lemma_text_lt_irreflexive(x.address.system);
}

fn socket_less(x: SocketAddress, y: SocketAddress) -> (r: bool)
    ensures
        r == socket_lt(x, y),
{
    if x.a != y.a {
        x.a < y.a
    } else if x.b != y.b {
        x.b < y.b
    } else if x.c != y.c {
        x.c < y.c
    } else if x.d != y.d {
        x.d < y.d
    } else {
        x.port < y.port
    }
}

/// Whether `x` comes before `y` in the order of unique addresses.
pub fn unique_less(x: &UniqueAddress, y: &UniqueAddress) -> (r: bool)
    ensures
        r == unique_lt(x@, y@),
{
    match compare_text(x.address.system.as_str(), y.address.system.as_str()) {
        Order3::Less => true,
        Order3::Greater => {
            proof { lemma_text_lt_asymmetric(y.address.system@, x.address.system@); }
            false
        },
        Order3::Equal => {
            proof { lemma_text_lt_irreflexive(x.address.system@); }
            match (x.address.addr, y.address.addr) {
                (None, None) => x.uid < y.uid,
                (None, Some(_)) => true,
                (Some(_), None) => false,
                (Some(p), Some(q)) => {
                    if socket_less(p, q) {
                        true
                    } else if p == q {
                        x.uid < y.uid
                    } else {
                        false
                    }
                },
            }
        },
    }
}

/// Records by observer, then by subject.
pub open spec fn record_lt(a: RecordView, b: RecordView) -> bool {
    ||| unique_lt(a.observer, b.observer)
    ||| a.observer == b.observer && unique_lt(a.subject, b.subject)
}

pub proof fn lemma_record_lt_irreflexive(a: RecordView)
    ensures
        !record_lt(a, a),
{
    lemma_unique_lt_irreflexive(a.observer);
    lemma_unique_lt_irreflexive(a.subject);
}

pub proof fn lemma_record_lt_transitive(a: RecordView, b: RecordView, c: RecordView)
    requires
        record_lt(a, b),
        record_lt(b, c),
    ensures
        record_lt(a, c),
{
    if unique_lt(a.observer, b.observer) && unique_lt(b.observer, c.observer) {
        lemma_unique_lt_transitive(a.observer, b.observer, c.observer);
    }
    if a.observer == b.observer && b.observer == c.observer && unique_lt(a.subject, b.subject)
        && unique_lt(b.subject, c.subject) {
        lemma_unique_lt_transitive(a.subject, b.subject, c.subject);
    }
}

/// Records about different pairs are ordered one way or the other.
pub proof fn lemma_record_lt_total(a: RecordView, b: RecordView)
    ensures
        (a.observer == b.observer && a.subject == b.subject) || record_lt(a, b) || record_lt(b, a),
{
    lemma_unique_lt_total(a.observer, b.observer);
    lemma_unique_lt_total(a.subject, b.subject);
}

pub proof fn lemma_record_lt_asymmetric(a: RecordView, b: RecordView)
    ensures
        record_lt(a, b) ==> !record_lt(b, a),
{
    lemma_unique_lt_asymmetric(a.observer, b.observer);
    lemma_unique_lt_asymmetric(a.subject, b.subject);
    lemma_unique_lt_irreflexive(a.observer);
    lemma_unique_lt_irreflexive(a.subject);
}

fn record_less(a: &Record, b: &Record) -> (r: bool)
    ensures
        r == record_lt(a@, b@),
{
    proof { lemma_unique_lt_irreflexive(a.observer@); }
    if unique_less(&a.observer, &b.observer) {
        true
    } else if a.observer.same_as(&b.observer) {
        unique_less(&a.subject, &b.subject)
    } else {
        false
    }
}

/// Each record comes before every later one.
pub open spec fn strictly_sorted(s: Seq<RecordView>) -> bool {
    forall|i: int, j: int| 0 <= i < j < s.len() ==> record_lt(#[trigger] s[i], #[trigger] s[j])
}

/// Inserts `x` where it keeps `out` sorted.
fn insert_sorted(out: &mut Vec<Record>, x: Record)
    requires
        strictly_sorted(record_views(old(out)@)),
        forall|i: int| 0 <= i < old(out)@.len() ==>
            !(#[trigger] old(out)@[i].observer@ == x.observer@ && old(out)@[i].subject@ == x.subject@),
    ensures
        strictly_sorted(record_views(final(out)@)),
        forall|y: RecordView| #[trigger] record_views(final(out)@).contains(y)
            <==> (record_views(old(out)@).contains(y) || y == x@),
{
    let ghost before = record_views(out@);
    let ghost xv = x@;
    let n = out.len();
    let mut p: usize = 0;
    while p < n
        invariant
            n == out.len(),
            p <= n,
            before == record_views(out@),
            xv == x@,
            forall|i: int| 0 <= i < n ==> !(#[trigger] out@[i].observer@ == x.observer@ && out@[i].subject@ == x.subject@),
            forall|k: int| 0 <= k < p ==> record_lt(#[trigger] before[k], xv),
        ensures
            p <= n,
            forall|k: int| 0 <= k < p ==> record_lt(#[trigger] before[k], xv),
            p < n ==> record_lt(xv, before[p as int]),
        decreases n - p,
    {
        if record_less(&x, &out[p]) {
            break;
        }
        proof {
            assert(before[p as int] == out@[p as int]@);
            lemma_record_lt_total(xv, before[p as int]);
        }
        p = p + 1;
    }
    let ghost old_vals = out@;
    out.insert(p, x);
    let ghost after = record_views(out@);
    proof {
        old_vals.insert_ensures(p as int, x);
        assert(after.len() == before.len() + 1);
        assert forall|k: int| 0 <= k < p implies after[k] == before[k] by {
            assert(out@[k] == old_vals[k]);
        }
        assert(after[p as int] == xv);
        assert forall|k: int| p <= k < before.len() implies after[k + 1] == before[k] by {
            assert(out@[k + 1] == old_vals[k]);
        }
        assert forall|i: int, j: int| 0 <= i < j < after.len() implies record_lt(#[trigger] after[i], #[trigger] after[j]) by {
            if j < p {
                assert(after[i] == before[i] && after[j] == before[j]);
            } else if j == p {
                assert(after[i] == before[i]);
            } else {
                assert(after[j] == before[j - 1]);
                if i < p {
                    assert(after[i] == before[i]);
                } else if i == p {
                    if p < j - 1 {
                        lemma_record_lt_transitive(xv, before[p as int], before[j - 1]);
                    }
                } else {
                    assert(after[i] == before[i - 1]);
                }
            }
        }
        assert forall|y: RecordView| #[trigger] after.contains(y) <==> (before.contains(y) || y == xv) by {
            if after.contains(y) {
                let k = choose|k: int| 0 <= k < after.len() && after[k] == y;
                if k < p {
                    assert(before[k] == y);
                } else if k > p {
                    assert(before[k - 1] == y);
                }
            }
            if before.contains(y) {
                let k = choose|k: int| 0 <= k < before.len() && before[k] == y;
                if k < p {
                    assert(after[k] == y);
                } else {
                    assert(after[k + 1] == y);
                }
            }
            if y == xv {
                assert(after[p as int] == y);
            }
        }
    }
}

/// Whether `a` has an entry among the versions.
fn has_version(v: &Vec<(UniqueAddress, i64)>, a: &UniqueAddress) -> (r: bool)
    ensures
        r == assoc_map(version_views(v@)).contains_key(a@),
{
    let ghost e = version_views(v@);
    let mut i: usize = 0;
    while i < v.len()
        invariant
            i <= v.len(),
            e == version_views(v@),
            forall|x: int| 0 <= x < i ==> e[x].0 != a@,
        decreases v.len() - i,
    {
        if v[i].0.same_as(a) {
            assert(e[i as int].0 == a@);
            return true;
        }
        i = i + 1;
    }
    false
}

/// The status of a node over all observers, as `status_by_node` gives it.
pub open spec fn node_status(rs: Seq<RecordView>, node: UniqueAddressView) -> ReachabilityStatus {
    if terminated_set(rs).contains(node) {
        ReachabilityStatus::Terminated
    } else if unreachable_set(rs).contains(node) {
        ReachabilityStatus::Unreachable
    } else {
        ReachabilityStatus::Reachable
    }
}

/// The line of a record, given the status of its subject over all
/// observers: the observer's and subject's addresses, the record's status,
/// that status of the subject, and the record's version.
pub open spec fn line_text(r: RecordView, aggregated: ReachabilityStatus) -> Seq<char> {
    address_text(r.observer.address) + " -> "@ + address_text(r.subject.address) + ": "@ + status_text(r.status)
        + " ["@ + status_text(aggregated) + "] ("@ + signed_dec(r.version as int) + ")\n"@
}

/// The line of one record of the table.
pub open spec fn record_line(t: ReachabilityView, r: RecordView) -> Seq<char> {
    line_text(r, node_status(t.records, r.subject))
}

fn push_line(s: &mut String, rec: &Record, aggregated: ReachabilityStatus)
    ensures
        final(s)@ == old(s)@ + line_text(rec@, aggregated),
{
    let ghost s0 = s@;
    push_address(s, &rec.observer.address);
    push_text(s, " -> ");
    push_address(s, &rec.subject.address);
    push_text(s, ": ");
    let st = rec.status.to_display_string();
    push_text(s, st.as_str());
    push_text(s, " [");
    let at = aggregated.to_display_string();
    push_text(s, at.as_str());
    push_text(s, "] (");
    push_signed_decimal(s, rec.version);
    push_text(s, ")\n");
    assert(s@ =~= s0 + line_text(rec@, aggregated));
}

/// The lines of the records, in order.
pub open spec fn lines_text(t: ReachabilityView, out: Seq<RecordView>) -> Seq<char>
    decreases out.len(),
{
    if out.len() == 0 {
        Seq::empty()
    } else {
        lines_text(t, out.drop_last()) + record_line(t, out.last())
    }
}

/// A record is shown when it is in the table and its observer has a version.
pub open spec fn shown(t: ReachabilityView, r: RecordView) -> bool {
    t.records.contains(r) && t.versions.contains_key(r.observer)
}

/// `out` lists the shown records, ordered by observer and then by subject.
pub open spec fn is_listing(t: ReachabilityView, out: Seq<RecordView>) -> bool {
    &&& strictly_sorted(out)
    &&& forall|r: RecordView| #[trigger] out.contains(r) <==> shown(t, r)
}

proof fn lemma_listings_agree_upto(t: ReachabilityView, a: Seq<RecordView>, b: Seq<RecordView>, i: int)
    requires
        is_listing(t, a),
        is_listing(t, b),
        0 <= i <= a.len(),
        i <= b.len(),
    ensures
        forall|k: int| 0 <= k < i ==> a[k] == b[k],
    decreases i,
{
    if i > 0 {
        lemma_listings_agree_upto(t, a, b, i - 1);
        let x = a[i - 1];
        assert(a.contains(x));
        assert(b.contains(x));
        let j = choose|j: int| 0 <= j < b.len() && b[j] == x;
        if j < i - 1 {
            assert(a[j] == x);
            lemma_record_lt_irreflexive(x);
            assert(record_lt(a[j], a[i - 1]));
        } else if j > i - 1 {
            let y = b[i - 1];
            assert(record_lt(y, x));
            assert(b.contains(y));
            assert(a.contains(y));
            let m = choose|m: int| 0 <= m < a.len() && a[m] == y;
            lemma_record_lt_irreflexive(y);
            lemma_record_lt_asymmetric(x, y);
            if m < i - 1 {
                assert(b[m] == y);
                assert(record_lt(b[m], b[i - 1]));
            } else if m > i - 1 {
                assert(record_lt(a[i - 1], a[m]));
            }
        }
    }
}

/// A table has one listing: two sequences that each list its shown
/// records in order are the same, so the table's text is determined by
/// the table.
pub proof fn law_listing_unique(t: ReachabilityView, a: Seq<RecordView>, b: Seq<RecordView>)
    requires
        is_listing(t, a),
        is_listing(t, b),
    ensures
        a == b,
{
    if a.len() > b.len() {
        lemma_listings_agree_upto(t, a, b, b.len() as int);
        let x = a[b.len() as int];
        assert(a.contains(x));
        assert(b.contains(x));
        let j = choose|j: int| 0 <= j < b.len() && b[j] == x;
        assert(a[j] == x);
        lemma_record_lt_irreflexive(x);
        assert(record_lt(a[j], a[b.len() as int]));
    } else if b.len() > a.len() {
        lemma_listings_agree_upto(t, b, a, a.len() as int);
        let x = b[a.len() as int];
        assert(b.contains(x));
        assert(a.contains(x));
        let j = choose|j: int| 0 <= j < a.len() && a[j] == x;
        assert(b[j] == x);
        lemma_record_lt_irreflexive(x);
        assert(record_lt(b[j], b[a.len() as int]));
    } else {
        lemma_listings_agree_upto(t, a, b, a.len() as int);
        assert(a =~= b);
    }
}

impl Reachability {
    /// The table as text: for each record whose observer has a version,
    /// ordered by observer and then by subject, a line
    /// `observer -> subject: status [status of the subject] (version)`.
    pub fn to_display_string(&self) -> (r: String)
        ensures
            exists|out: Seq<RecordView>| is_listing(self@, out) && r@ == lines_text(self@, out),
    {
        let records = self.records();
        let versions = self.versions();
        let ghost t = self@;
        let mut out: Vec<Record> = Vec::new();
        let mut k: usize = 0;
        while k < records.len()
            invariant
                k <= records.len(),
                t == self@,
                record_views(records@) == t.records,
                pairs_unique(t.records),
                assoc_map(version_views(versions@)) == t.versions,
                strictly_sorted(record_views(out@)),
                forall|r: RecordView| #[trigger] record_views(out@).contains(r) <==>
                    (exists|q: int| 0 <= q < k && t.records[q] == r) && t.versions.contains_key(r.observer),
            decreases records.len() - k,
        {
            let rec = &records[k];
            assert(t.records[k as int] == rec@);
            if has_version(versions, &rec.observer) {
                proof {
                    let ov = record_views(out@);
                    assert forall|i: int| 0 <= i < out@.len() implies
                        !(#[trigger] out@[i].observer@ == rec.observer@ && out@[i].subject@ == rec.subject@) by {
                        assert(ov[i] == out@[i]@);
                        assert(ov.contains(ov[i]));
                        let q = choose|q: int| 0 <= q < k && t.records[q] == ov[i];
                        assert(t.records[q].observer == t.records[k as int].observer ==>
                            t.records[q].subject != t.records[k as int].subject);
                    }
                }
                let c = rec.clone();
                insert_sorted(&mut out, c);
            }
            proof {
                let ov = record_views(out@);
                assert forall|r: RecordView| #[trigger] ov.contains(r) <==>
                    (exists|q: int| 0 <= q < k + 1 && t.records[q] == r) && t.versions.contains_key(r.observer) by {
                    if exists|q: int| 0 <= q < k && t.records[q] == r {
                        let q = choose|q: int| 0 <= q < k && t.records[q] == r;
                        assert(0 <= q < k + 1 && t.records[q] == r);
                    }
                    if (exists|q: int| 0 <= q < k + 1 && t.records[q] == r) && !(exists|q: int| 0 <= q < k && t.records[q] == r) {
                        let q = choose|q: int| 0 <= q < k + 1 && t.records[q] == r;
                        assert(q == k);
                    }
                }
            }
            k = k + 1;
        }
        let ghost ov = record_views(out@);
        proof {
            assert forall|r: RecordView| #[trigger] ov.contains(r) <==> shown(t, r) by {
                if t.records.contains(r) {
                    let q = choose|q: int| 0 <= q < t.records.len() && t.records[q] == r;
                    assert(0 <= q < k && t.records[q] == r);
                }
                if exists|q: int| 0 <= q < k && t.records[q] == r {
                    let q = choose|q: int| 0 <= q < k && t.records[q] == r;
                    assert(t.records.contains(r));
                }
            }
        }
        let mut s = String::new();
        let mut i: usize = 0;
        while i < out.len()
            invariant
                i <= out.len(),
                ov == record_views(out@),
                t == self@,
                s@ == lines_text(t, ov.take(i as int)),
            decreases out.len() - i,
        {
            let rec = &out[i];
            assert(ov[i as int] == rec@);
            let agg = self.status_by_node(&rec.subject);
            push_line(&mut s, rec, agg);
            proof {
                assert(ov.take(i + 1).drop_last() =~= ov.take(i as int));
                assert(ov.take(i + 1).last() == ov[i as int]);
            }
            i = i + 1;
        }
        proof {
            assert(ov.take(out.len() as int) =~= ov);
            assert(is_listing(t, ov));
        }
        s
    }
}

} // verus!
