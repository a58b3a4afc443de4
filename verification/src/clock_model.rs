//! The mathematical model of vector clocks: sorted entry sequences, the
//! maps they stand for, and the orderings between two clocks.

use vstd::prelude::*;
use crate::text::{text_lt, lemma_text_lt_irreflexive, lemma_text_lt_transitive};

verus! {

/// One entry of a clock: a node identifier and its counter.
pub type Entry = (Seq<char>, i64);

/// Entries are strictly increasing by node identifier (so no node twice).
pub open spec fn sorted_entries(e: Seq<Entry>) -> bool {
    forall|i: int, j: int| 0 <= i < j < e.len() ==> text_lt(#[trigger] e[i].0, #[trigger] e[j].0)
}

/// `k` is the node of some entry.
pub open spec fn has_node(e: Seq<Entry>, k: Seq<char>) -> bool {
    exists|i: int| 0 <= i < e.len() && e[i].0 == k
}

/// The map from node identifier to counter that the entries stand for.
pub open spec fn entries_map(e: Seq<Entry>) -> Map<Seq<char>, i64> {
    Map::new(
        |k: Seq<char>| has_node(e, k),
        |k: Seq<char>| e[choose|i: int| 0 <= i < e.len() && e[i].0 == k].1,
    )
}

/// The counter of `k`, or 0 where the map does not hold `k`.
pub open spec fn counter_or_zero(m: Map<Seq<char>, i64>, k: Seq<char>) -> int {
    if m.contains_key(k) {
        m[k] as int
    } else {
        0
    }
}

/// Orderings between two clocks; `FullOrder` asks for a complete comparison.
#[derive(PartialEq, Eq, Structural, Clone, Copy, Debug, Hash)]
pub enum ClockOrdering {
    After,
    Before,
    Same,
    Concurrent,
    FullOrder,
}

/// The name of an ordering, as `Display` writes it.
pub open spec fn ordering_text(o: ClockOrdering) -> Seq<char> {
    match o {
        ClockOrdering::After => "After"@,
        ClockOrdering::Before => "Before"@,
        ClockOrdering::Same => "Same"@,
        ClockOrdering::Concurrent => "Concurrent"@,
        ClockOrdering::FullOrder => "FullOrder"@,
    }
}

impl ClockOrdering {
    /// The ordering's name, as `Display` writes it.
    pub fn to_display_string(&self) -> (r: String)
        ensures
            r@ == ordering_text(*self),
    {
        match self {
            ClockOrdering::After => crate::decimal::owned_text("After"),
            ClockOrdering::Before => crate::decimal::owned_text("Before"),
            ClockOrdering::Same => crate::decimal::owned_text("Same"),
            ClockOrdering::Concurrent => crate::decimal::owned_text("Concurrent"),
            ClockOrdering::FullOrder => crate::decimal::owned_text("FullOrder"),
        }
    }
}

/// At node `k`, clock `a` has seen more than `b`: `b` lacks the node, or
/// has a smaller counter for it.
pub open spec fn ahead_at(a: Map<Seq<char>, i64>, b: Map<Seq<char>, i64>, k: Seq<char>) -> bool {
    a.contains_key(k) && (!b.contains_key(k) || a[k] > b[k])
}

/// `a` is ahead of `b` at some node.
pub open spec fn ahead(a: Map<Seq<char>, i64>, b: Map<Seq<char>, i64>) -> bool {
    exists|k: Seq<char>| ahead_at(a, b, k)
}

/// The complete comparison of two clocks.
pub open spec fn full_order(a: Map<Seq<char>, i64>, b: Map<Seq<char>, i64>) -> ClockOrdering {
    if !ahead(a, b) && !ahead(b, a) {
        ClockOrdering::Same
    } else if ahead(a, b) && !ahead(b, a) {
        ClockOrdering::After
    } else if !ahead(a, b) && ahead(b, a) {
        ClockOrdering::Before
    } else {
        ClockOrdering::Concurrent
    }
}

/// The first node, in identifier order, at which the clocks differ is one
/// where `a` is ahead of `b`.
pub open spec fn first_difference_ahead(a: Map<Seq<char>, i64>, b: Map<Seq<char>, i64>) -> bool {
    exists|k: Seq<char>|
        ahead_at(a, b, k) && forall|k2: Seq<char>| ahead_at(b, a, k2) ==> text_lt(k, k2)
}

/// What a comparison that asks for `request` answers. A request for
/// `Before`, `After` or `Same` stops at the first node where the clocks
/// differ when that difference already rules the requested answer out.
pub open spec fn requested_order(
    a: Map<Seq<char>, i64>,
    b: Map<Seq<char>, i64>,
    request: ClockOrdering,
) -> ClockOrdering {
    if a == b {
        ClockOrdering::Same
    } else {
        match request {
            ClockOrdering::Before => if first_difference_ahead(a, b) {
                ClockOrdering::After
            } else {
                full_order(a, b)
            },
            ClockOrdering::After => if first_difference_ahead(b, a) {
                ClockOrdering::Before
            } else {
                full_order(a, b)
            },
            ClockOrdering::Same => if first_difference_ahead(a, b) {
                ClockOrdering::After
            } else {
                ClockOrdering::Before
            },
            _ => full_order(a, b),
        }
    }
}

/// The entries up to (not including) the first one equal to `marker`.
pub open spec fn cut_at_marker(e: Seq<Entry>, marker: Entry) -> Seq<Entry> {
    if exists|i: int| 0 <= i < e.len() && e[i] == marker {
        e.take(choose|i: int| 0 <= i < e.len() && e[i] == marker && forall|j: int| 0 <= j < i ==> e[j] != marker)
    } else {
        e
    }
}

pub proof fn lemma_entries_map_index(e: Seq<Entry>, i: int)
    requires
        sorted_entries(e),
        0 <= i < e.len(),
    ensures
        entries_map(e).contains_key(e[i].0),
        entries_map(e)[e[i].0] == e[i].1,
{
    assert(has_node(e, e[i].0));
    let c = choose|c: int| 0 <= c < e.len() && e[c].0 == e[i].0;
    if c != i {
        if c < i {
            assert(text_lt(e[c].0, e[i].0));
        } else {
            assert(text_lt(e[i].0, e[c].0));
        }
        lemma_text_lt_irreflexive(e[i].0);
    }
}

pub proof fn lemma_entries_map_key(e: Seq<Entry>, k: Seq<char>) -> (i: int)
    requires
        sorted_entries(e),
        entries_map(e).contains_key(k),
    ensures
        0 <= i < e.len(),
        e[i].0 == k,
        entries_map(e)[k] == e[i].1,
{
    let i = choose|i: int| 0 <= i < e.len() && e[i].0 == k;
    lemma_entries_map_index(e, i);
    i
}

pub proof fn lemma_cut_at_marker(e: Seq<Entry>, marker: Entry) -> (n: int)
    ensures
        0 <= n <= e.len(),
        cut_at_marker(e, marker) == e.take(n),
        forall|j: int| 0 <= j < n ==> e[j] != marker,
        n < e.len() ==> e[n] == marker,
{
    if exists|i: int| 0 <= i < e.len() && e[i] == marker {
        let i0 = choose|i: int| 0 <= i < e.len() && e[i] == marker;
        let f = first_marker(e, marker, i0);
        let c = choose|i: int| 0 <= i < e.len() && e[i] == marker && forall|j: int| 0 <= j < i ==> e[j] != marker;
        assert(c == f) by {
            if c < f {
                assert(e[c] != marker);
            } else if f < c {
                assert(e[f] != marker);
            }
        }
        c
    } else {
        assert(e.take(e.len() as int) =~= e);
        e.len() as int
    }
}

proof fn first_marker(e: Seq<Entry>, marker: Entry, i: int) -> (f: int)
    requires
        0 <= i < e.len(),
        e[i] == marker,
    ensures
        0 <= f <= i,
        e[f] == marker,
        forall|j: int| 0 <= j < f ==> e[j] != marker,
    decreases i,
{
    if exists|j: int| 0 <= j < i && e[j] == marker {
        let j = choose|j: int| 0 <= j < i && e[j] == marker;
        first_marker(e, marker, j)
    } else {
        i
    }
}


/// The result of merging clock `a` into clock `b`: `b`'s counters, raised
/// to `a`'s where `a`'s is larger (a node missing from `b` counts as 0).
pub open spec fn merged_map(a: Map<Seq<char>, i64>, b: Map<Seq<char>, i64>) -> Map<Seq<char>, i64> {
    Map::new(
        |k: Seq<char>| b.contains_key(k) || (a.contains_key(k) && a[k] > 0),
        |k: Seq<char>| if a.contains_key(k) && a[k] > counter_or_zero(b, k) {
            a[k]
        } else {
            b[k]
        },
    )
}

/// The clock after one more event at node `k`.
pub open spec fn incremented_map(m: Map<Seq<char>, i64>, k: Seq<char>) -> Map<Seq<char>, i64> {
    m.insert(k, (counter_or_zero(m, k) + 1) as i64)
}

/// Every key of `e` is below `k`.
pub open spec fn all_below(e: Seq<Entry>, k: Seq<char>) -> bool {
    forall|x: int| 0 <= x < e.len() ==> text_lt(#[trigger] e[x].0, k)
}

pub proof fn lemma_below_absent(e: Seq<Entry>, k: Seq<char>)
    requires
        all_below(e, k),
    ensures
        !entries_map(e).contains_key(k),
{
    if entries_map(e).contains_key(k) {
        let x = choose|x: int| 0 <= x < e.len() && e[x].0 == k;
        assert(text_lt(e[x].0, k));
        lemma_text_lt_irreflexive(k);
    }
}

pub proof fn lemma_map_push(s: Seq<Entry>, e: Entry)
    requires
        sorted_entries(s.push(e)),
    ensures
        sorted_entries(s),
        entries_map(s.push(e)) == entries_map(s).insert(e.0, e.1),
{
    let t = s.push(e);
    assert(sorted_entries(s)) by {
        assert forall|i: int, j: int| 0 <= i < j < s.len() implies text_lt(#[trigger] s[i].0, #[trigger] s[j].0) by {
            assert(s[i] == t[i] && s[j] == t[j]);
        }
    }
    let m1 = entries_map(t);
    let m2 = entries_map(s).insert(e.0, e.1);
    lemma_entries_map_index(t, s.len() as int);
    assert forall|k: Seq<char>| #[trigger] m1.dom().contains(k) == m2.dom().contains(k) by {
        if m1.dom().contains(k) && k != e.0 {
            let x = lemma_entries_map_key(t, k);
            assert(x < s.len());
            assert(s[x] == t[x]);
            lemma_entries_map_index(s, x);
        }
        if entries_map(s).contains_key(k) {
            let x = lemma_entries_map_key(s, k);
            assert(s[x] == t[x]);
            lemma_entries_map_index(t, x);
        }
    }
    assert(m1.dom() =~= m2.dom());
    assert forall|k: Seq<char>| #[trigger] m1.dom().contains(k) implies m1[k] == m2[k] by {
        if k != e.0 {
            let x = lemma_entries_map_key(t, k);
            assert(s[x] == t[x]);
            lemma_entries_map_index(s, x);
        }
    }
    assert(m1 =~= m2);
}

pub proof fn lemma_sorted_push(s: Seq<Entry>, e: Entry)
    requires
        sorted_entries(s),
        s.len() > 0 ==> text_lt(s.last().0, e.0),
    ensures
        sorted_entries(s.push(e)),
        all_below(s, e.0),
{
    let t = s.push(e);
    assert forall|x: int| 0 <= x < s.len() implies text_lt(#[trigger] s[x].0, e.0) by {
        if x < s.len() - 1 {
            lemma_text_lt_transitive(s[x].0, s.last().0, e.0);
        }
    }
    assert forall|i: int, j: int| 0 <= i < j < t.len() implies text_lt(#[trigger] t[i].0, #[trigger] t[j].0) by {
        if j < s.len() {
            assert(t[i] == s[i] && t[j] == s[j]);
        } else {
            assert(t[i] == s[i]);
        }
    }
}

pub proof fn lemma_take_push(e: Seq<Entry>, i: int)
    requires
        0 <= i < e.len(),
    ensures
        e.take(i + 1) == e.take(i).push(e[i]),
{
    assert(e.take(i + 1) =~= e.take(i).push(e[i]));
}


/// Every counter of the clock is positive, as it is for every clock built
/// from the empty clock by events and merges.
pub open spec fn positive_counters(m: Map<Seq<char>, i64>) -> bool {
    forall|k: Seq<char>| #[trigger] m.contains_key(k) ==> m[k] > 0
}

/// Comparison is antisymmetric: `a` is before `b` exactly when `b` is after
/// `a`; sameness and concurrency are symmetric.
pub proof fn law_order_antisymmetric(a: Map<Seq<char>, i64>, b: Map<Seq<char>, i64>)
    ensures
        (full_order(a, b) == ClockOrdering::Before) == (full_order(b, a) == ClockOrdering::After),
        (full_order(a, b) == ClockOrdering::Same) == (full_order(b, a) == ClockOrdering::Same),
        (full_order(a, b) == ClockOrdering::Concurrent) == (full_order(b, a) == ClockOrdering::Concurrent),
        full_order(a, b) != ClockOrdering::FullOrder,
{
}

/// A clock is the same as itself: it neither happens before itself nor is
/// concurrent with itself.
pub proof fn law_order_reflexive(a: Map<Seq<char>, i64>)
    ensures
        full_order(a, a) == ClockOrdering::Same,
{
}

/// Merging is commutative on clocks with positive counters.
pub proof fn law_merge_commutative(a: Map<Seq<char>, i64>, b: Map<Seq<char>, i64>)
    requires
        positive_counters(a),
        positive_counters(b),
    ensures
        merged_map(a, b) == merged_map(b, a),
{
    assert(merged_map(a, b) =~= merged_map(b, a));
}

/// Merging a clock with itself gives the clock back.
pub proof fn law_merge_idempotent(a: Map<Seq<char>, i64>)
    requires
        positive_counters(a),
    ensures
        merged_map(a, a) == a,
{
    assert(merged_map(a, a) =~= a);
}

/// The merge of two clocks with positive counters has seen everything both
/// have seen: neither clock is ahead of it anywhere, and its counters stay
/// positive.
pub proof fn law_merge_upper_bound(a: Map<Seq<char>, i64>, b: Map<Seq<char>, i64>)
    requires
        positive_counters(a),
        positive_counters(b),
    ensures
        !ahead(a, merged_map(a, b)),
        !ahead(b, merged_map(a, b)),
        full_order(a, merged_map(a, b)) == ClockOrdering::Before
            || full_order(a, merged_map(a, b)) == ClockOrdering::Same,
        full_order(b, merged_map(a, b)) == ClockOrdering::Before
            || full_order(b, merged_map(a, b)) == ClockOrdering::Same,
        positive_counters(merged_map(a, b)),
{
    let m = merged_map(a, b);
    assert forall|k: Seq<char>| !ahead_at(a, m, k) by {}
    assert forall|k: Seq<char>| !ahead_at(b, m, k) by {}
}

/// An event at a node puts the clock strictly after what it was, and keeps
/// its counters positive.
pub proof fn law_increment_after(m: Map<Seq<char>, i64>, k: Seq<char>)
    requires
        counter_or_zero(m, k) < i64::MAX,
        positive_counters(m),
    ensures
        full_order(incremented_map(m, k), m) == ClockOrdering::After,
        positive_counters(incremented_map(m, k)),
{
    let n = incremented_map(m, k);
    assert(ahead_at(n, m, k));
    assert forall|k2: Seq<char>| !ahead_at(m, n, k2) by {}
}

/// Pruning a node keeps the other counters and drops the node's.
pub proof fn law_prune(m: Map<Seq<char>, i64>, k: Seq<char>)
    requires
        positive_counters(m),
    ensures
        !m.remove(k).contains_key(k),
        forall|k2: Seq<char>| k2 != k ==> (m.remove(k).contains_key(k2) == m.contains_key(k2)),
        positive_counters(m.remove(k)),
        !ahead(m.remove(k), m),
{
    assert forall|k2: Seq<char>| !ahead_at(m.remove(k), m, k2) by {}
}

} // verus!
