//! Vector clocks over nodes named by the hash of their names.

use vstd::prelude::*;
use crate::text::{text_lt, Order3, compare_text, lemma_text_lt_transitive,
    lemma_text_lt_asymmetric, lemma_text_lt_irreflexive};
use crate::hashing::{hash_name, node_hash};
use crate::clock_model::{Entry, sorted_entries, entries_map, ClockOrdering, ahead_at, ahead,
    full_order, first_difference_ahead, requested_order, cut_at_marker, merged_map,
    incremented_map, counter_or_zero, all_below, positive_counters,
    lemma_entries_map_index, lemma_entries_map_key, lemma_cut_at_marker, lemma_below_absent,
    lemma_map_push, lemma_sorted_push, lemma_take_push};

verus! {

/// A cluster node, identified by a hash text.
pub struct Node(String);

impl View for Node {
    type V = Seq<char>;

    closed spec fn view(&self) -> Seq<char> {
        self.0@
    }
}

impl Clone for Node {
    fn clone(&self) -> (r: Self)
        ensures
            r@ == self@,
    {
        Node(self.0.clone())
    }
}

impl Node {
    /// A node whose identifier is the given text itself.
    pub fn from_hash(hash: &str) -> (r: Node)
        ensures
            r@ == hash@,
    {
        Node(hash.to_owned())
    }

    /// The identifier of a node name: its hexadecimal SHA-256 digest.
    pub fn hash(name: &str) -> (h: String)
        ensures
            h@ == node_hash(name@),
    {
        hash_name(name)
    }

    /// The node of the given name.
    pub fn new(name: &str) -> (r: Node)
        ensures
            r@ == node_hash(name@),
    {
        Node(Self::hash(name))
    }

    /// The node's identifier text.
    pub fn as_str(&self) -> (s: &str)
        ensures
            s@ == self@,
    {
        self.0.as_str()
    }

    /// Whether two nodes have the same identifier.
    pub fn same_node(&self, other: &Node) -> (r: bool)
        ensures
            r == (self@ == other@),
    {
        self.0 == other.0
    }
}

/// The entries that a vector of nodes and counters stands for.
pub open spec fn entries_view(v: Seq<(Node, i64)>) -> Seq<Entry> {
    Seq::new(v.len(), |i: int| (v[i].0@, v[i].1))
}

/// The entry that ends a comparison: the node named "endmaker" at counter 0.
pub open spec fn end_marker() -> Entry {
    (node_hash("endmaker"@), 0i64)
}

/// The first `n` entries are the part a comparison reads.
pub open spec fn compared_prefix(e: Seq<Entry>, n: usize) -> bool {
    cut_at_marker(e, end_marker()) == e.take(n as int)
}

/// A vector clock: a counter per node.
pub struct VectorClock {
    versions: Vec<(Node, i64)>,
}

impl View for VectorClock {
    type V = Seq<Entry>;

    closed spec fn view(&self) -> Seq<Entry> {
        entries_view(self.versions@)
    }
}

/// The map that a clock's entries stand for.
pub open spec fn clock_map(c: Seq<Entry>) -> Map<Seq<char>, i64> {
    entries_map(c)
}

/// The part of a clock that a comparison reads: the entries before the end
/// marker, if the clock holds it.
pub open spec fn compared_map(c: Seq<Entry>) -> Map<Seq<char>, i64> {
    entries_map(cut_at_marker(c, end_marker()))
}

impl VectorClock {
    #[verifier::type_invariant]
    closed spec fn wf(self) -> bool {
        sorted_entries(self@)
    }

    /// The clock with the given entries, which are strictly increasing by
    /// node identifier (as the entries of an ordered map are).
    pub fn new(versions: Vec<(Node, i64)>) -> (r: VectorClock)
        requires
            sorted_entries(entries_view(versions@)),
        ensures
            r@ == entries_view(versions@),
    {
        VectorClock { versions }
    }

    /// The end marker: the node named "endmaker" at counter 0.
    pub fn cmp_end_maker() -> (r: (Node, i64))
        ensures
            (r.0@, r.1) == end_marker(),
    {
        (Node::new("endmaker"), 0)
    }

    /// Number of nodes in the clock.
    pub fn len(&self) -> (n: usize)
        ensures
            n == self@.len(),
    {
        self.versions.len()
    }

    /// Whether the clock holds a counter for `node`.
    pub fn contains_node(&self, node: &Node) -> (r: bool)
        ensures
            r == clock_map(self@).contains_key(node@),
    {
        proof { use_type_invariant(self); }
        let mut i: usize = 0;
        while i < self.versions.len()
            invariant
                i <= self@.len(),
                sorted_entries(self@),
                forall|x: int| 0 <= x < i ==> self@[x].0 != node@,
            decreases self.versions.len() - i,
        {
            if self.versions[i].0.same_node(node) {
                proof { lemma_entries_map_index(self@, i as int); }
                return true;
            }
            i = i + 1;
        }
        proof {
            if clock_map(self@).contains_key(node@) {
                lemma_entries_map_key(self@, node@);
            }
        }
        false
    }

    /// Number of leading entries that a comparison reads.
    fn compared_len(&self) -> (n: usize)
        ensures
            n <= self@.len(),
            compared_prefix(self@, n),
    {
        let marker = Self::cmp_end_maker();
        self.marker_cut(&marker)
    }

    /// Index where the compared part of the entries ends.
    fn marker_cut(&self, marker: &(Node, i64)) -> (n: usize)
        requires
            (marker.0@, marker.1) == end_marker(),
        ensures
            n <= self@.len(),
            cut_at_marker(self@, end_marker()) == self@.take(n as int),
    {
        let mut i: usize = 0;
        while i < self.versions.len()
            invariant
                i <= self@.len(),
                (marker.0@, marker.1) == end_marker(),
                forall|x: int| 0 <= x < i ==> self@[x] != end_marker(),
            decreases self.versions.len() - i,
        {
            if self.versions[i].1 == marker.1 && self.versions[i].0.same_node(&marker.0) {
                proof {
                    let n = lemma_cut_at_marker(self@, end_marker());
                    assert(n == i) by {
                        if n < i { assert(self@[n] == end_marker()); }
                        if n > i { assert(self@[i as int] == end_marker()); }
                    }
                }
                return i;
            }
            i = i + 1;
        }
        proof {
            let n = lemma_cut_at_marker(self@, end_marker());
            assert(n == i);
        }
        i
    }
}


spec fn seen_ahead(a: Seq<Entry>, b: Seq<Entry>, i: int) -> bool {
    exists|x: int| 0 <= x < i && ahead_at(entries_map(a), entries_map(b), #[trigger] a[x].0)
}

spec fn frontier(a: Seq<Entry>, b: Seq<Entry>, i: int, j: int) -> bool {
    &&& (0 < i && j < b.len() ==> text_lt(a[i - 1].0, b[j].0))
    &&& (0 < j && i < a.len() ==> text_lt(b[j - 1].0, a[i].0))
}

proof fn lemma_sorted_le(a: Seq<Entry>, x: int, y: int, k: Seq<char>)
    requires
        sorted_entries(a),
        0 <= x <= y < a.len(),
        text_lt(a[y].0, k),
    ensures
        text_lt(a[x].0, k),
{
    if x < y {
        lemma_text_lt_transitive(a[x].0, a[y].0, k);
    }
}

proof fn lemma_sorted_ge(a: Seq<Entry>, x: int, y: int, k: Seq<char>)
    requires
        sorted_entries(a),
        0 <= x <= y < a.len(),
        text_lt(k, a[x].0),
    ensures
        text_lt(k, a[y].0),
{
    if x < y {
        lemma_text_lt_transitive(k, a[x].0, a[y].0);
    }
}

/// Processed entries of one side precede the unprocessed ones of the other.
proof fn lemma_cross(a: Seq<Entry>, b: Seq<Entry>, i: int, j: int)
    requires
        sorted_entries(a),
        sorted_entries(b),
        0 <= i <= a.len(),
        0 <= j <= b.len(),
        frontier(a, b, i, j),
    ensures
        forall|x: int, y: int|
            0 <= x < i && j <= y < b.len() ==> text_lt(#[trigger] a[x].0, #[trigger] b[y].0),
        forall|x: int, y: int|
            0 <= y < j && i <= x < a.len() ==> text_lt(#[trigger] b[y].0, #[trigger] a[x].0),
{
    assert forall|x: int, y: int| 0 <= x < i && j <= y < b.len() implies text_lt(
        #[trigger] a[x].0,
        #[trigger] b[y].0,
    ) by {
        lemma_sorted_le(a, x, i - 1, b[j].0);
        lemma_sorted_ge(b, j, y, a[x].0);
    }
    assert forall|x: int, y: int| 0 <= y < j && i <= x < a.len() implies text_lt(
        #[trigger] b[y].0,
        #[trigger] a[x].0,
    ) by {
        lemma_sorted_le(b, y, j - 1, a[i].0);
        lemma_sorted_ge(a, i, x, b[y].0);
    }
}

/// A key of `a` below the next key of `b` is not in `b`.
proof fn lemma_absent(a: Seq<Entry>, b: Seq<Entry>, i: int, j: int)
    requires
        sorted_entries(a),
        sorted_entries(b),
        0 <= i < a.len(),
        0 <= j < b.len(),
        frontier(a, b, i, j),
        text_lt(a[i].0, b[j].0),
    ensures
        !entries_map(b).contains_key(a[i].0),
        ahead_at(entries_map(a), entries_map(b), a[i].0),
{
    lemma_cross(a, b, i, j);
    lemma_entries_map_index(a, i);
    if entries_map(b).contains_key(a[i].0) {
        let y = lemma_entries_map_key(b, a[i].0);
        lemma_text_lt_irreflexive(a[i].0);
        if y < j {
            assert(text_lt(b[y].0, a[i].0));
        } else {
            lemma_sorted_ge(b, j, y, a[i].0);
        }
    }
}

/// Keys where `a` is ahead of `b` all lie among `a`'s entries.
proof fn lemma_ahead_complete(a: Seq<Entry>, b: Seq<Entry>)
    requires
        sorted_entries(a),
        sorted_entries(b),
    ensures
        ahead(entries_map(a), entries_map(b)) == seen_ahead(a, b, a.len() as int),
{
    if ahead(entries_map(a), entries_map(b)) {
        let k = choose|k: Seq<char>| ahead_at(entries_map(a), entries_map(b), k);
        let x = lemma_entries_map_key(a, k);
        assert(ahead_at(entries_map(a), entries_map(b), a[x].0));
    }
    if seen_ahead(a, b, a.len() as int) {
        let x = choose|x: int| 0 <= x < a.len() && ahead_at(entries_map(a), entries_map(b), #[trigger] a[x].0);
        assert(ahead_at(entries_map(a), entries_map(b), a[x].0));
    }
}

proof fn lemma_same_iff_no_ahead(a: Map<Seq<char>, i64>, b: Map<Seq<char>, i64>)
    ensures
        (a == b) == (!ahead(a, b) && !ahead(b, a)),
{
    if !ahead(a, b) && !ahead(b, a) {
        assert forall|k: Seq<char>| #[trigger] a.dom().contains(k) == b.dom().contains(k) by {
            if a.dom().contains(k) {
                assert(!ahead_at(a, b, k));
            }
            if b.dom().contains(k) {
                assert(!ahead_at(b, a, k));
            }
        }
        assert(a.dom() =~= b.dom());
        assert forall|k: Seq<char>| #[trigger] a.dom().contains(k) implies a[k] == b[k] by {
            assert(!ahead_at(a, b, k));
            assert(!ahead_at(b, a, k));
        }
        assert(a =~= b);
    }
    if a == b {
        assert forall|k: Seq<char>| !ahead_at(a, b, k) by {}
    }
}

/// Advancing past `a[i]`, which is below `b[j]` or equal to it in key.
proof fn lemma_step(a: Seq<Entry>, b: Seq<Entry>, i: int, j: int)
    requires
        sorted_entries(a),
        sorted_entries(b),
        0 <= i < a.len(),
        0 <= j <= b.len(),
        frontier(a, b, i, j),
        j < b.len() ==> text_lt(a[i].0, b[j].0),
    ensures
        frontier(a, b, i + 1, j),
        seen_ahead(a, b, i + 1) == (seen_ahead(a, b, i) || ahead_at(entries_map(a), entries_map(b), a[i].0)),
{
    if j > 0 && i + 1 < a.len() {
        lemma_text_lt_transitive(b[j - 1].0, a[i].0, a[i + 1].0);
    }
    if seen_ahead(a, b, i + 1) && !ahead_at(entries_map(a), entries_map(b), a[i].0) {
        let x = choose|x: int| 0 <= x < i + 1 && ahead_at(entries_map(a), entries_map(b), #[trigger] a[x].0);
        assert(x < i);
    }
    if ahead_at(entries_map(a), entries_map(b), a[i].0) {
        assert(ahead_at(entries_map(a), entries_map(b), a[i].0) && 0 <= i < i + 1);
    }
    if seen_ahead(a, b, i) {
        let x = choose|x: int| 0 <= x < i && ahead_at(entries_map(a), entries_map(b), #[trigger] a[x].0);
        assert(0 <= x < i + 1);
    }
}

/// Advancing past equal keys on both sides.
proof fn lemma_step_equal(a: Seq<Entry>, b: Seq<Entry>, i: int, j: int)
    requires
        sorted_entries(a),
        sorted_entries(b),
        0 <= i < a.len(),
        0 <= j < b.len(),
        frontier(a, b, i, j),
        a[i].0 == b[j].0,
    ensures
        frontier(a, b, i + 1, j + 1),
        seen_ahead(a, b, i + 1) == (seen_ahead(a, b, i) || ahead_at(entries_map(a), entries_map(b), a[i].0)),
        seen_ahead(b, a, j + 1) == (seen_ahead(b, a, j) || ahead_at(entries_map(b), entries_map(a), b[j].0)),
{
    if j + 1 < b.len() {
        assert(text_lt(b[j].0, b[j + 1].0));
    }
    if i + 1 < a.len() {
        assert(text_lt(a[i].0, a[i + 1].0));
    }
    if seen_ahead(a, b, i + 1) && !ahead_at(entries_map(a), entries_map(b), a[i].0) {
        let x = choose|x: int| 0 <= x < i + 1 && ahead_at(entries_map(a), entries_map(b), #[trigger] a[x].0);
        assert(x < i);
    }
    if ahead_at(entries_map(a), entries_map(b), a[i].0) {
        assert(ahead_at(entries_map(a), entries_map(b), a[i].0) && 0 <= i < i + 1);
    }
    if seen_ahead(a, b, i) {
        let x = choose|x: int| 0 <= x < i && ahead_at(entries_map(a), entries_map(b), #[trigger] a[x].0);
        assert(0 <= x < i + 1);
    }
    if seen_ahead(b, a, j + 1) && !ahead_at(entries_map(b), entries_map(a), b[j].0) {
        let y = choose|y: int| 0 <= y < j + 1 && ahead_at(entries_map(b), entries_map(a), #[trigger] b[y].0);
        assert(y < j);
    }
    if ahead_at(entries_map(b), entries_map(a), b[j].0) {
        assert(ahead_at(entries_map(b), entries_map(a), b[j].0) && 0 <= j < j + 1);
    }
    if seen_ahead(b, a, j) {
        let y = choose|y: int| 0 <= y < j && ahead_at(entries_map(b), entries_map(a), #[trigger] b[y].0);
        assert(0 <= y < j + 1);
    }
}

/// `a` is ahead at an unprocessed key while `b` was already ahead earlier.
proof fn lemma_conflict(a: Seq<Entry>, b: Seq<Entry>, i: int, j: int)
    requires
        sorted_entries(a),
        sorted_entries(b),
        0 <= i < a.len(),
        0 <= j <= b.len(),
        frontier(a, b, i, j),
        ahead_at(entries_map(a), entries_map(b), a[i].0),
        seen_ahead(b, a, j),
        !seen_ahead(a, b, i),
    ensures
        ahead(entries_map(a), entries_map(b)),
        ahead(entries_map(b), entries_map(a)),
        !first_difference_ahead(entries_map(a), entries_map(b)),
        entries_map(a) != entries_map(b),
{
    let ma = entries_map(a);
    let mb = entries_map(b);
    lemma_cross(a, b, i, j);
    let y = choose|y: int| 0 <= y < j && ahead_at(mb, ma, #[trigger] b[y].0);
    assert(ahead_at(mb, ma, b[y].0));
    assert(ahead_at(ma, mb, a[i].0));
    if first_difference_ahead(ma, mb) {
        let k = choose|k: Seq<char>| ahead_at(ma, mb, k) && forall|k2: Seq<char>| ahead_at(mb, ma, k2) ==> text_lt(k, k2);
        let x = lemma_entries_map_key(a, k);
        if x < i {
            assert(seen_ahead(a, b, i));
        }
        assert(text_lt(b[y].0, a[x].0));
        assert(text_lt(k, b[y].0));
        lemma_text_lt_asymmetric(b[y].0, a[x].0);
    }
    lemma_same_iff_no_ahead(ma, mb);
}

/// A requested ordering that the first difference already rules out.
proof fn lemma_early_exit(a: Seq<Entry>, b: Seq<Entry>, i: int, j: int, current: ClockOrdering, order: ClockOrdering)
    requires
        sorted_entries(a),
        sorted_entries(b),
        0 <= i <= a.len(),
        0 <= j <= b.len(),
        frontier(a, b, i, j),
        current == ClockOrdering::After ==> seen_ahead(a, b, i) && !seen_ahead(b, a, j),
        current == ClockOrdering::Before ==> seen_ahead(b, a, j) && !seen_ahead(a, b, i),
        current == ClockOrdering::After || current == ClockOrdering::Before,
        order != ClockOrdering::FullOrder,
        order != ClockOrdering::Concurrent,
        order != current,
    ensures
        current == requested_order(entries_map(a), entries_map(b), order),
{
    let ma = entries_map(a);
    let mb = entries_map(b);
    lemma_cross(a, b, i, j);
    lemma_same_iff_no_ahead(ma, mb);
    if current == ClockOrdering::After {
        let x = choose|x: int| 0 <= x < i && ahead_at(ma, mb, #[trigger] a[x].0);
        assert(ahead_at(ma, mb, a[x].0));
        assert forall|k2: Seq<char>| ahead_at(mb, ma, k2) implies text_lt(a[x].0, k2) by {
            let y = lemma_entries_map_key(b, k2);
            if y < j {
                assert(seen_ahead(b, a, j));
            }
        }
        assert(first_difference_ahead(ma, mb));
    } else {
        let y = choose|y: int| 0 <= y < j && ahead_at(mb, ma, #[trigger] b[y].0);
        assert(ahead_at(mb, ma, b[y].0));
        assert forall|k2: Seq<char>| ahead_at(ma, mb, k2) implies text_lt(b[y].0, k2) by {
            let x = lemma_entries_map_key(a, k2);
            if x < i {
                assert(seen_ahead(a, b, i));
            }
        }
        assert(first_difference_ahead(mb, ma));
        if first_difference_ahead(ma, mb) {
            let k = choose|k: Seq<char>| ahead_at(ma, mb, k) && forall|k2: Seq<char>| ahead_at(mb, ma, k2) ==> text_lt(k, k2);
            let x = lemma_entries_map_key(a, k);
            if x < i {
                assert(seen_ahead(a, b, i));
            }
            assert(text_lt(b[y].0, a[x].0));
            assert(text_lt(k, b[y].0));
            lemma_text_lt_asymmetric(b[y].0, a[x].0);
        }
    }
}

/// `b` has no entries left; `a` still has `a[i]`.
proof fn lemma_other_done(a: Seq<Entry>, b: Seq<Entry>, i: int)
    requires
        sorted_entries(a),
        sorted_entries(b),
        0 <= i < a.len(),
        frontier(a, b, i, b.len() as int),
    ensures
        ahead_at(entries_map(a), entries_map(b), a[i].0),
        ahead(entries_map(a), entries_map(b)),
        ahead(entries_map(b), entries_map(a)) == seen_ahead(b, a, b.len() as int),
        entries_map(a) != entries_map(b),
        seen_ahead(b, a, b.len() as int) && !seen_ahead(a, b, i)
            ==> !first_difference_ahead(entries_map(a), entries_map(b)),
        !seen_ahead(b, a, b.len() as int) ==> first_difference_ahead(entries_map(a), entries_map(b)),
{
    let ma = entries_map(a);
    let mb = entries_map(b);
    let j = b.len() as int;
    lemma_cross(a, b, i, j);
    lemma_entries_map_index(a, i);
    if mb.contains_key(a[i].0) {
        let y = lemma_entries_map_key(b, a[i].0);
        assert(text_lt(b[y].0, a[i].0));
        lemma_text_lt_irreflexive(a[i].0);
    }
    assert(ahead_at(ma, mb, a[i].0));
    lemma_ahead_complete(b, a);
    lemma_same_iff_no_ahead(ma, mb);
    if seen_ahead(b, a, j) && !seen_ahead(a, b, i) && first_difference_ahead(ma, mb) {
        let k = choose|k: Seq<char>| ahead_at(ma, mb, k) && forall|k2: Seq<char>| ahead_at(mb, ma, k2) ==> text_lt(k, k2);
        let x = lemma_entries_map_key(a, k);
        if x < i {
            assert(seen_ahead(a, b, i));
        }
        let y = choose|y: int| 0 <= y < j && ahead_at(mb, ma, #[trigger] b[y].0);
        assert(ahead_at(mb, ma, b[y].0));
        assert(text_lt(b[y].0, a[x].0));
        lemma_text_lt_asymmetric(b[y].0, a[x].0);
    }
    if !seen_ahead(b, a, j) {
        assert forall|k2: Seq<char>| ahead_at(mb, ma, k2) implies text_lt(a[i].0, k2) by {
            assert(ahead(mb, ma));
        }
    }
}

impl VectorClock {
    /// Compares this clock with `that`, stopping early when the first
    /// difference already rules the requested ordering out.
    pub fn compare_only_to(&self, that: &VectorClock, order: ClockOrdering) -> (r: ClockOrdering)
        ensures
            r == requested_order(compared_map(self@), compared_map(that@), order),
    {
        proof {
            use_type_invariant(self);
            use_type_invariant(that);
        }
        let n1 = self.compared_len();
        let n2 = that.compared_len();
        let ghost a = self@.take(n1 as int);
        let ghost b = that@.take(n2 as int);
        let ghost ma = entries_map(a);
        let ghost mb = entries_map(b);
        let request = if order == ClockOrdering::Concurrent {
            ClockOrdering::FullOrder
        } else {
            order
        };
        let mut current = ClockOrdering::Same;
        let mut i: usize = 0;
        let mut j: usize = 0;
        proof {
            assert(sorted_entries(a));
            assert(sorted_entries(b));
        }
        loop
            invariant
                n1 <= self@.len(),
                n2 <= that@.len(),
                a == self@.take(n1 as int),
                b == that@.take(n2 as int),
                ma == entries_map(a),
                mb == entries_map(b),
                ma == compared_map(self@),
                mb == compared_map(that@),
                sorted_entries(a),
                sorted_entries(b),
                request == (if order == ClockOrdering::Concurrent { ClockOrdering::FullOrder } else { order }),
                i <= n1,
                j <= n2,
                frontier(a, b, i as int, j as int),
                current == ClockOrdering::Same || current == ClockOrdering::After || current == ClockOrdering::Before,
                (current == ClockOrdering::Same) == (!seen_ahead(a, b, i as int) && !seen_ahead(b, a, j as int)),
                current == ClockOrdering::After ==> seen_ahead(a, b, i as int) && !seen_ahead(b, a, j as int),
                current == ClockOrdering::Before ==> seen_ahead(b, a, j as int) && !seen_ahead(a, b, i as int),
            decreases (n1 - i) + (n2 - j),
        {
            proof {
                lemma_cross(a, b, i as int, j as int);
            }
            if request != ClockOrdering::FullOrder && current != ClockOrdering::Same && current != request {
                proof {
                    lemma_same_iff_no_ahead(ma, mb);
                    lemma_early_exit(a, b, i as int, j as int, current, order);
                }
                return current;
            }
            if i == n1 && j == n2 {
                proof {
                    lemma_ahead_complete(a, b);
                    lemma_ahead_complete(b, a);
                    lemma_same_iff_no_ahead(ma, mb);
                }
                return current;
            }
            if i == n1 {
                proof {
                    lemma_other_done(b, a, j as int);
                }
                if current == ClockOrdering::After {
                    return ClockOrdering::Concurrent;
                } else {
                    return ClockOrdering::Before;
                }
            }
            if j == n2 {
                proof {
                    lemma_other_done(a, b, i as int);
                }
                if current == ClockOrdering::Before {
                    return ClockOrdering::Concurrent;
                } else {
                    return ClockOrdering::After;
                }
            }
            let ghost gi = i as int;
            let ghost gj = j as int;
            proof {
                assert(a[gi] == (self.versions[i as int].0@, self.versions[i as int].1));
                assert(b[gj] == (that.versions[j as int].0@, that.versions[j as int].1));
            }
            match compare_text(self.versions[i].0.as_str(), that.versions[j].0.as_str()) {
                Order3::Less => {
                    proof {
                        lemma_absent(a, b, gi, gj);
                    }
                    if current == ClockOrdering::Before {
                        proof {
                            lemma_conflict(a, b, gi, gj);
                        }
                        return ClockOrdering::Concurrent;
                    }
                    current = ClockOrdering::After;
                    i = i + 1;
                    proof {
                        lemma_step(a, b, gi, gj);
                    }
                }
                Order3::Greater => {
                    proof {
                        lemma_absent(b, a, gj, gi);
                    }
                    if current == ClockOrdering::After {
                        proof {
                            lemma_conflict(b, a, gj, gi);
                        }
                        return ClockOrdering::Concurrent;
                    }
                    current = ClockOrdering::Before;
                    j = j + 1;
                    proof {
                        lemma_step(b, a, gj, gi);
                    }
                }
                Order3::Equal => {
                    proof {
                        lemma_entries_map_index(a, gi);
                        lemma_entries_map_index(b, gj);
                    }
                    if self.versions[i].1 == that.versions[j].1 {
                        i = i + 1;
                        j = j + 1;
                        proof {
                            lemma_step_equal(a, b, gi, gj);
                        }
                    } else if self.versions[i].1 < that.versions[j].1 {
                        proof {
                            assert(ahead_at(mb, ma, b[gj].0));
                        }
                        if current == ClockOrdering::After {
                            proof {
                                lemma_conflict(b, a, gj, gi);
                            }
                            return ClockOrdering::Concurrent;
                        }
                        current = ClockOrdering::Before;
                        i = i + 1;
                        j = j + 1;
                        proof {
                            lemma_step_equal(a, b, gi, gj);
                        }
                    } else {
                        proof {
                            assert(ahead_at(ma, mb, a[gi].0));
                        }
                        if current == ClockOrdering::Before {
                            proof {
                                lemma_conflict(a, b, gi, gj);
                            }
                            return ClockOrdering::Concurrent;
                        }
                        current = ClockOrdering::After;
                        i = i + 1;
                        j = j + 1;
                        proof {
                            lemma_step_equal(a, b, gi, gj);
                        }
                    }
                }
            }
        }
    }
}


/// The keys of `a[..i]` and `b[..j]` are below `k`.
spec fn processed_below(a: Seq<Entry>, b: Seq<Entry>, i: int, j: int, k: Seq<char>) -> bool {
    all_below(a.take(i), k) && all_below(b.take(j), k)
}

proof fn lemma_processed_below(a: Seq<Entry>, b: Seq<Entry>, i: int, j: int)
    requires
        sorted_entries(a),
        sorted_entries(b),
        0 <= i <= a.len(),
        0 <= j <= b.len(),
        frontier(a, b, i, j),
    ensures
        i < a.len() ==> processed_below(a, b, i, j, a[i].0),
        j < b.len() ==> processed_below(a, b, i, j, b[j].0),
{
    lemma_cross(a, b, i, j);
    if i < a.len() {
        assert forall|x: int| 0 <= x < a.take(i).len() implies text_lt(#[trigger] a.take(i)[x].0, a[i].0) by {
            assert(a.take(i)[x] == a[x]);
        }
        assert forall|y: int| 0 <= y < b.take(j).len() implies text_lt(#[trigger] b.take(j)[y].0, a[i].0) by {
            assert(b.take(j)[y] == b[y]);
        }
    }
    if j < b.len() {
        assert forall|x: int| 0 <= x < a.take(i).len() implies text_lt(#[trigger] a.take(i)[x].0, b[j].0) by {
            assert(a.take(i)[x] == a[x]);
        }
        assert forall|y: int| 0 <= y < b.take(j).len() implies text_lt(#[trigger] b.take(j)[y].0, b[j].0) by {
            assert(b.take(j)[y] == b[y]);
        }
    }
}

proof fn lemma_view_index(v: Seq<(Node, i64)>, i: int)
    requires
        0 <= i < v.len(),
    ensures
        entries_view(v)[i] == (v[i].0@, v[i].1),
{
}

impl Clone for VectorClock {
    fn clone(&self) -> (r: Self)
        ensures
            r@ == self@,
    {
        proof { use_type_invariant(self); }
        let mut out: Vec<(Node, i64)> = Vec::new();
        let mut i: usize = 0;
        while i < self.versions.len()
            invariant
                0 <= i <= self.versions.len(),
                out.len() == i,
                forall|j: int| 0 <= j < i ==> #[trigger] out@[j].0@ == self.versions@[j].0@ && out@[j].1 == self.versions@[j].1,
            decreases self.versions.len() - i,
        {
            out.push((self.versions[i].0.clone(), self.versions[i].1));
            i = i + 1;
        }
        assert(entries_view(out@) =~= entries_view(self.versions@));
        VectorClock { versions: out }
    }
}

impl Default for VectorClock {
    fn default() -> (r: Self)
        ensures
            r@ == Seq::<Entry>::empty(),
    {
        let r = VectorClock { versions: Vec::new() };
        assert(r@ =~= Seq::<Entry>::empty());
        r
    }
}

impl VectorClock {
    /// The clock that holds, for each node, the larger of the two counters
    /// (a counter of `self` is taken where it exceeds `that`'s, a missing
    /// one counting as 0).
    pub fn merge(&self, that: &VectorClock) -> (r: VectorClock)
        ensures
            sorted_entries(r@),
            clock_map(r@) == merged_map(clock_map(self@), clock_map(that@)),
    {
        proof {
            use_type_invariant(self);
            use_type_invariant(that);
        }
        let ghost a = self@;
        let ghost b = that@;
        let n1 = self.versions.len();
        let n2 = that.versions.len();
        let mut out: Vec<(Node, i64)> = Vec::new();
        let mut i: usize = 0;
        let mut j: usize = 0;
        proof {
            assert(a.take(0) =~= Seq::<Entry>::empty());
            assert(b.take(0) =~= Seq::<Entry>::empty());
            assert(entries_view(out@) =~= Seq::<Entry>::empty());
            assert(entries_map(Seq::<Entry>::empty()) =~= Map::<Seq<char>, i64>::empty());
            assert(merged_map(Map::<Seq<char>, i64>::empty(), Map::<Seq<char>, i64>::empty()) =~= Map::<Seq<char>, i64>::empty());
        }
        while i < n1 || j < n2
            invariant
                a == self@,
                b == that@,
                n1 == a.len(),
                n2 == b.len(),
                sorted_entries(a),
                sorted_entries(b),
                i <= n1,
                j <= n2,
                frontier(a, b, i as int, j as int),
                sorted_entries(entries_view(out@)),
                entries_map(entries_view(out@))
                    == merged_map(entries_map(a.take(i as int)), entries_map(b.take(j as int))),
                out@.len() > 0 ==> (i < n1 ==> text_lt(out@.last().0@, a[i as int].0)),
                out@.len() > 0 ==> (j < n2 ==> text_lt(out@.last().0@, b[j as int].0)),
            decreases (n1 - i) + (n2 - j),
        {
            let ghost gi = i as int;
            let ghost gj = j as int;
            let ghost ov = entries_view(out@);
            let ghost ma = entries_map(a.take(gi));
            let ghost mb = entries_map(b.take(gj));
            proof {
                lemma_processed_below(a, b, gi, gj);
                if gi < n1 { lemma_view_index(self.versions@, gi); }
                if gj < n2 { lemma_view_index(that.versions@, gj); }
            }
            let step: Order3 = if i == n1 {
                Order3::Greater
            } else if j == n2 {
                Order3::Less
            } else {
                compare_text(self.versions[i].0.as_str(), that.versions[j].0.as_str())
            };
            match step {
                Order3::Less => {
                    let v = self.versions[i].1;
                    let ghost k = a[gi].0;
                    proof {
                        lemma_below_absent(a.take(gi), k);
                        lemma_below_absent(b.take(gj), k);
                        lemma_take_push(a, gi);
                        lemma_map_push(a.take(gi), a[gi]);
                        assert(sorted_entries(a.take(gi + 1)));
                    }
                    if v > 0 {
                        out.push((self.versions[i].0.clone(), v));
                        proof {
                            let nv = entries_view(out@);
                            assert(nv =~= ov.push((k, v)));
                            lemma_sorted_push(ov, (k, v));
                            lemma_map_push(ov, (k, v));
                            assert(merged_map(ma.insert(k, v), mb) =~= merged_map(ma, mb).insert(k, v));
                        }
                    } else {
                        proof {
                            assert(merged_map(ma.insert(k, v), mb) =~= merged_map(ma, mb));
                        }
                    }
                    i = i + 1;
                    proof {
                        lemma_step(a, b, gi, gj);
                        if i < n1 {
                            assert(text_lt(a[gi].0, a[gi + 1].0));
                            if out@.len() > 0 && v <= 0 {
                                lemma_text_lt_transitive(out@.last().0@, a[gi].0, a[gi + 1].0);
                            }
                        }
                    }
                }
                Order3::Greater => {
                    let w = that.versions[j].1;
                    let ghost k = b[gj].0;
                    proof {
                        lemma_below_absent(a.take(gi), k);
                        lemma_below_absent(b.take(gj), k);
                        lemma_take_push(b, gj);
                        lemma_map_push(b.take(gj), b[gj]);
                        assert(sorted_entries(b.take(gj + 1)));
                    }
                    out.push((that.versions[j].0.clone(), w));
                    proof {
                        let nv = entries_view(out@);
                        assert(nv =~= ov.push((k, w)));
                        lemma_sorted_push(ov, (k, w));
                        lemma_map_push(ov, (k, w));
                        assert(merged_map(ma, mb.insert(k, w)) =~= merged_map(ma, mb).insert(k, w));
                    }
                    j = j + 1;
                    proof {
                        lemma_step(b, a, gj, gi);
                        if j < n2 {
                            assert(text_lt(b[gj].0, b[gj + 1].0));
                        }
                    }
                }
                Order3::Equal => {
                    let v = self.versions[i].1;
                    let w = that.versions[j].1;
                    let ghost k = a[gi].0;
                    proof {
                        lemma_below_absent(a.take(gi), k);
                        lemma_below_absent(b.take(gj), k);
                        lemma_take_push(a, gi);
                        lemma_map_push(a.take(gi), a[gi]);
                        lemma_take_push(b, gj);
                        lemma_map_push(b.take(gj), b[gj]);
                        assert(sorted_entries(a.take(gi + 1)));
                        assert(sorted_entries(b.take(gj + 1)));
                    }
                    let top = if v > w { v } else { w };
                    out.push((that.versions[j].0.clone(), top));
                    proof {
                        let nv = entries_view(out@);
                        assert(nv =~= ov.push((k, top)));
                        lemma_sorted_push(ov, (k, top));
                        lemma_map_push(ov, (k, top));
                        assert(merged_map(ma.insert(k, v), mb.insert(k, w)) =~= merged_map(ma, mb).insert(k, top));
                    }
                    i = i + 1;
                    j = j + 1;
                    proof {
                        lemma_step_equal(a, b, gi, gj);
                        if i < n1 {
                            assert(text_lt(a[gi].0, a[gi + 1].0));
                        }
                        if j < n2 {
                            assert(text_lt(b[gj].0, b[gj + 1].0));
                        }
                    }
                }
            }
        }
        proof {
            assert(a.take(n1 as int) =~= a);
            assert(b.take(n2 as int) =~= b);
        }
        VectorClock { versions: out }
    }
}


proof fn lemma_requested_full(a: Map<Seq<char>, i64>, b: Map<Seq<char>, i64>)
    ensures
        requested_order(a, b, ClockOrdering::FullOrder) == full_order(a, b),
        requested_order(a, b, ClockOrdering::Concurrent) == full_order(a, b),
        (requested_order(a, b, ClockOrdering::Before) == ClockOrdering::Before) == (full_order(a, b) == ClockOrdering::Before),
        (requested_order(a, b, ClockOrdering::After) == ClockOrdering::After) == (full_order(a, b) == ClockOrdering::After),
        (requested_order(a, b, ClockOrdering::Same) == ClockOrdering::Same) == (full_order(a, b) == ClockOrdering::Same),
{
    lemma_same_iff_no_ahead(a, b);
}

impl VectorClock {
    /// The complete comparison with `that`.
    pub fn compare_to(&self, that: &VectorClock) -> (r: ClockOrdering)
        ensures
            r == full_order(compared_map(self@), compared_map(that@)),
    {
        proof { lemma_requested_full(compared_map(self@), compared_map(that@)); }
        self.compare_only_to(that, ClockOrdering::FullOrder)
    }

    /// Whether neither clock has seen all events of the other.
    pub fn concurrent(&self, that: &VectorClock) -> (r: bool)
        ensures
            r == (full_order(compared_map(self@), compared_map(that@)) == ClockOrdering::Concurrent),
    {
        proof { lemma_requested_full(compared_map(self@), compared_map(that@)); }
        self.compare_only_to(that, ClockOrdering::Concurrent) == ClockOrdering::Concurrent
    }

    /// Whether this clock happened before `that`.
    pub fn before(&self, that: &VectorClock) -> (r: bool)
        ensures
            r == (full_order(compared_map(self@), compared_map(that@)) == ClockOrdering::Before),
    {
        proof { lemma_requested_full(compared_map(self@), compared_map(that@)); }
        self.compare_only_to(that, ClockOrdering::Before) == ClockOrdering::Before
    }

    /// Whether this clock happened after `that`.
    pub fn after(&self, that: &VectorClock) -> (r: bool)
        ensures
            r == (full_order(compared_map(self@), compared_map(that@)) == ClockOrdering::After),
    {
        proof { lemma_requested_full(compared_map(self@), compared_map(that@)); }
        self.compare_only_to(that, ClockOrdering::After) == ClockOrdering::After
    }

    /// Whether the two clocks hold the same counters.
    pub fn same(&self, that: &VectorClock) -> (r: bool)
        ensures
            r == (full_order(compared_map(self@), compared_map(that@)) == ClockOrdering::Same),
            r == (compared_map(self@) == compared_map(that@)),
    {
        proof {
            lemma_requested_full(compared_map(self@), compared_map(that@));
            lemma_same_iff_no_ahead(compared_map(self@), compared_map(that@));
        }
        self.compare_only_to(that, ClockOrdering::Same) == ClockOrdering::Same
    }

    /// The clock without any counter for `removed_node`.
    pub fn prune(&self, removed_node: &Node) -> (r: VectorClock)
        ensures
            sorted_entries(r@),
            clock_map(r@) == clock_map(self@).remove(removed_node@),
    {
        proof { use_type_invariant(self); }
        let ghost a = self@;
        let ghost k = removed_node@;
        let n = self.versions.len();
        let mut out: Vec<(Node, i64)> = Vec::new();
        let mut i: usize = 0;
        proof {
            assert(a.take(0) =~= Seq::<Entry>::empty());
            assert(entries_view(out@) =~= Seq::<Entry>::empty());
            assert(entries_map(Seq::<Entry>::empty()) =~= Map::<Seq<char>, i64>::empty());
            assert(Map::<Seq<char>, i64>::empty().remove(k) =~= Map::<Seq<char>, i64>::empty());
        }
        while i < n
            invariant
                a == self@,
                k == removed_node@,
                n == a.len(),
                sorted_entries(a),
                i <= n,
                sorted_entries(entries_view(out@)),
                entries_map(entries_view(out@))
                    == entries_map(a.take(i as int)).remove(k),
                out@.len() > 0 ==> (i < n ==> text_lt(out@.last().0@, a[i as int].0)),
            decreases n - i,
        {
            let ghost gi = i as int;
            let ghost ov = entries_view(out@);
            let ghost ma = entries_map(a.take(gi));
            proof {
                lemma_view_index(self.versions@, gi);
                lemma_take_push(a, gi);
                lemma_map_push(a.take(gi), a[gi]);
            }
            let differs = !self.versions[i].0.same_node(removed_node);
            proof {
                assert(self.versions@[gi].0@ == a[gi].0);
                assert(differs == (a[gi].0 != k));
            }
            if differs {
                let ghost e = a[gi];
                out.push((self.versions[i].0.clone(), self.versions[i].1));
                proof {
                    let nv = entries_view(out@);
                    assert(nv =~= ov.push(e));
                    lemma_sorted_push(ov, e);
                    lemma_map_push(ov, e);
                    assert(e.0 != k);
                    assert(ma.insert(e.0, e.1).remove(k) =~= ma.remove(k).insert(e.0, e.1));
                }
            } else {
                proof {
                    assert(ma.insert(k, a[gi].1).remove(k) =~= ma.remove(k));
                }
            }
            i = i + 1;
            proof {
                if i < n {
                    assert(text_lt(a[gi].0, a[gi + 1].0));
                    if out@.len() > 0 && out@.len() == ov.len() {
                        lemma_text_lt_transitive(out@.last().0@, a[gi].0, a[gi + 1].0);
                    }
                }
            }
        }
        proof {
            assert(a.take(n as int) =~= a);
        }
        VectorClock { versions: out }
    }

    /// The clock after one more event at `node`: its counter goes up by one
    /// (from 0 where the clock does not hold it).
    pub fn increment(&self, node: Node) -> (r: VectorClock)
        requires
            counter_or_zero(clock_map(self@), node@) < i64::MAX,
        ensures
            sorted_entries(r@),
            clock_map(r@) == incremented_map(clock_map(self@), node@),
    {
        proof { use_type_invariant(self); }
        let ghost a = self@;
        let ghost k = node@;
        let n = self.versions.len();
        let mut out: Vec<(Node, i64)> = Vec::new();
        let mut i: usize = 0;
        let mut placed = false;
        proof {
            assert(a.take(0) =~= Seq::<Entry>::empty());
            assert(entries_view(out@) =~= Seq::<Entry>::empty());
            assert(entries_map(Seq::<Entry>::empty()) =~= Map::<Seq<char>, i64>::empty());
        }
        while i < n
            invariant
                a == self@,
                k == node@,
                n == a.len(),
                sorted_entries(a),
                i <= n,
                counter_or_zero(entries_map(a), k) < i64::MAX,
                sorted_entries(entries_view(out@)),
                !placed ==> entries_map(entries_view(out@))
                    == entries_map(a.take(i as int)),
                !placed ==> all_below(a.take(i as int), k),
                placed ==> entries_map(entries_view(out@))
                    == incremented_map(entries_map(a.take(i as int)), k),
                placed ==> entries_map(a.take(i as int)).contains_key(k) || !entries_map(a).contains_key(k),
                placed ==> (entries_map(a.take(i as int)).contains_key(k) ==> counter_or_zero(entries_map(a.take(i as int)), k) == counter_or_zero(entries_map(a), k)),
                out@.len() > 0 ==> (i < n ==> text_lt(out@.last().0@, a[i as int].0)),
                out@.len() > 0 && !placed ==> text_lt(out@.last().0@, k),
            decreases n - i,
        {
            let ghost gi = i as int;
            let ghost ov = entries_view(out@);
            let ghost ma = entries_map(a.take(gi));
            proof {
                lemma_view_index(self.versions@, gi);
                lemma_take_push(a, gi);
                lemma_map_push(a.take(gi), a[gi]);
                lemma_entries_map_index(a, gi);
            }
            let ghost e = a[gi];
            if !placed {
                let c = compare_text(node.as_str(), self.versions[i].0.as_str());
                match c {
                    Order3::Equal => {
                        proof { lemma_below_absent(a.take(gi), k); }
                        let v = self.versions[i].1 + 1;
                        out.push((node.clone(), v));
                        placed = true;
                        proof {
                            let nv = entries_view(out@);
                            assert(nv =~= ov.push((k, v)));
                            lemma_sorted_push(ov, (k, v));
                            lemma_map_push(ov, (k, v));
                            assert(ma.insert(k, v) =~= incremented_map(ma.insert(k, e.1), k));
                        }
                    }
                    Order3::Less => {
                        proof { lemma_below_absent(a.take(gi), k); }
                        out.push((node.clone(), 1));
                        placed = true;
                        let ghost ov2 = entries_view(out@);
                        proof {
                            assert(ov2 =~= ov.push((k, 1i64)));
                            lemma_sorted_push(ov, (k, 1i64));
                            lemma_map_push(ov, (k, 1i64));
                        }
                        out.push((self.versions[i].0.clone(), self.versions[i].1));
                        proof {
                            let nv = entries_view(out@);
                            assert(nv =~= ov2.push(e));
                            lemma_sorted_push(ov2, e);
                            lemma_map_push(ov2, e);
                            assert(ma.insert(k, 1i64).insert(e.0, e.1) =~= incremented_map(ma.insert(e.0, e.1), k));
                            // the node is absent from the whole clock: keys after e are larger
                            if entries_map(a).contains_key(k) {
                                let y = lemma_entries_map_key(a, k);
                                if y < gi {
                                    assert(a.take(gi)[y] == a[y]);
                                } else if y > gi {
                                    lemma_text_lt_transitive(k, e.0, a[y].0);
                                    lemma_text_lt_irreflexive(k);
                                } else {
                                    lemma_text_lt_irreflexive(k);
                                }
                            }
                        }
                    }
                    Order3::Greater => {
                        out.push((self.versions[i].0.clone(), self.versions[i].1));
                        proof {
                            let nv = entries_view(out@);
                            assert(nv =~= ov.push(e));
                            lemma_sorted_push(ov, e);
                            lemma_map_push(ov, e);
                            assert forall|x: int| 0 <= x < a.take(gi + 1).len() implies text_lt(#[trigger] a.take(gi + 1)[x].0, k) by {
                                if x < gi { assert(a.take(gi)[x] == a[x]); }
                            }
                        }
                    }
                }
            } else {
                out.push((self.versions[i].0.clone(), self.versions[i].1));
                proof {
                    let nv = entries_view(out@);
                    assert(nv =~= ov.push(e));
                    lemma_sorted_push(ov, e);
                    lemma_map_push(ov, e);
                    assert(e.0 != k);
                    assert(incremented_map(ma, k).insert(e.0, e.1) =~= incremented_map(ma.insert(e.0, e.1), k));
                }
            }
            i = i + 1;
            proof {
                if i < n {
                    assert(text_lt(a[gi].0, a[gi + 1].0));
                }
            }
        }
        if !placed {
            proof {
                let ov = entries_view(out@);
                assert(a.take(n as int) =~= a);
                lemma_below_absent(a, k);
            }
            let ghost ov = entries_view(out@);
            out.push((node, 1));
            proof {
                let nv = entries_view(out@);
                assert(nv =~= ov.push((k, 1i64)));
                lemma_sorted_push(ov, (k, 1i64));
                lemma_map_push(ov, (k, 1i64));
            }
        }
        proof {
            assert(a.take(n as int) =~= a);
        }
        VectorClock { versions: out }
    }
}


impl std::ops::Add<Node> for VectorClock {
    type Output = VectorClock;

    /// `clock + node`: the clock after one more event at `node`.
    fn add(self, rhs: Node) -> (r: VectorClock)
        ensures
            sorted_entries(r@),
            clock_map(r@) == incremented_map(clock_map(self@), rhs@),
    {
        self.increment(rhs)
    }
}

impl vstd::std_specs::ops::AddSpecImpl<Node> for VectorClock {
    /// The result is described by `add`'s own `ensures`, over the clock's map.
    open spec fn obeys_add_spec() -> bool {
        false
    }

    /// The node's counter must have room for one more event.
    open spec fn add_req(self, rhs: Node) -> bool {
        counter_or_zero(clock_map(self@), rhs@) < i64::MAX
    }

    /// A clock after one more event at `rhs`: sorted, and with the
    /// incremented counters.
    open spec fn add_spec(self, rhs: Node) -> VectorClock {
        choose|c: VectorClock| sorted_entries(c@) && clock_map(c@) == incremented_map(clock_map(self@), rhs@)
    }
}


/// For a clock whose counters are all positive (every clock built from the
/// empty clock by events and merges), a comparison reads all of it.
pub proof fn law_compared_whole(c: Seq<Entry>)
    requires
        sorted_entries(c),
        positive_counters(clock_map(c)),
    ensures
        compared_map(c) == clock_map(c),
{
    if exists|i: int| 0 <= i < c.len() && c[i] == end_marker() {
        let i = choose|i: int| 0 <= i < c.len() && c[i] == end_marker();
        lemma_entries_map_index(c, i);
    }
}

} // verus!
