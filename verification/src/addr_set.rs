//! Sets and maps keyed by cluster members, kept in vectors without repeats.

use vstd::prelude::*;
use crate::address::{UniqueAddress, UniqueAddressView};

verus! {

/// The views of a sequence of unique addresses.
pub open spec fn addr_views(v: Seq<UniqueAddress>) -> Seq<UniqueAddressView> {
    Seq::new(v.len(), |i: int| v[i]@)
}

/// The views of a sequence of (member, counter) entries.
pub open spec fn version_views(v: Seq<(UniqueAddress, i64)>) -> Seq<(UniqueAddressView, i64)> {
    Seq::new(v.len(), |i: int| (v[i].0@, v[i].1))
}

/// No member occurs twice among the entries.
pub open spec fn keys_unique(e: Seq<(UniqueAddressView, i64)>) -> bool {
    forall|i: int, j: int| 0 <= i < j < e.len() ==> #[trigger] e[i].0 != #[trigger] e[j].0
}

/// The map from member to counter that the entries stand for.
pub open spec fn assoc_map(e: Seq<(UniqueAddressView, i64)>) -> Map<UniqueAddressView, i64> {
    Map::new(
        |k: UniqueAddressView| exists|i: int| 0 <= i < e.len() && e[i].0 == k,
        |k: UniqueAddressView| e[choose|i: int| 0 <= i < e.len() && e[i].0 == k].1,
    )
}

/// The counter of `k`, or 0 where the map does not hold `k`.
pub open spec fn version_or_zero(m: Map<UniqueAddressView, i64>, k: UniqueAddressView) -> i64 {
    if m.contains_key(k) {
        m[k]
    } else {
        0
    }
}

pub proof fn lemma_assoc_index(e: Seq<(UniqueAddressView, i64)>, i: int)
    requires
        keys_unique(e),
        0 <= i < e.len(),
    ensures
        assoc_map(e).contains_key(e[i].0),
        assoc_map(e)[e[i].0] == e[i].1,
{
    let c = choose|c: int| 0 <= c < e.len() && e[c].0 == e[i].0;
    if c != i {
        if c < i {
            assert(e[c].0 != e[i].0);
        } else {
            assert(e[i].0 != e[c].0);
        }
    }
}

/// Whether `a` is in the set.
pub fn contains_addr(v: &Vec<UniqueAddress>, a: &UniqueAddress) -> (r: bool)
    ensures
        r == addr_views(v@).contains(a@),
{
    let mut i: usize = 0;
    while i < v.len()
        invariant
            i <= v@.len(),
            forall|x: int| 0 <= x < i ==> v@[x]@ != a@,
        decreases v.len() - i,
    {
        if v[i].same_as(a) {
            assert(addr_views(v@)[i as int] == a@);
            return true;
        }
        i = i + 1;
    }
    proof {
        if addr_views(v@).contains(a@) {
            let x = choose|x: int| 0 <= x < addr_views(v@).len() && addr_views(v@)[x] == a@;
            assert(v@[x]@ == a@);
        }
    }
    false
}

/// Adds `a` to the set unless it is there already.
pub fn insert_addr(v: &mut Vec<UniqueAddress>, a: &UniqueAddress)
    requires
        addr_views(old(v)@).no_duplicates(),
    ensures
        addr_views(final(v)@).no_duplicates(),
        addr_views(final(v)@).to_set() == addr_views(old(v)@).to_set().insert(a@),
{
    if !contains_addr(v, a) {
        let ghost before = addr_views(v@);
        v.push(a.clone());
        proof {
            let after = addr_views(v@);
            assert(after =~= before.push(a@));
            assert forall|x: UniqueAddressView| #[trigger] after.to_set().contains(x) == before.to_set().insert(a@).contains(x) by {
                if after.contains(x) {
                    let i = choose|i: int| 0 <= i < after.len() && after[i] == x;
                    if i < before.len() { assert(before[i] == x); }
                }
                if before.contains(x) {
                    let i = choose|i: int| 0 <= i < before.len() && before[i] == x;
                    assert(after[i] == x);
                }
                if x == a@ { assert(after[before.len() as int] == x); }
            }
            assert(after.to_set() =~= before.to_set().insert(a@));
        }
    } else {
        proof {
            assert(addr_views(v@).to_set() =~= addr_views(v@).to_set().insert(a@));
        }
    }
}

/// The counter of `a`, or 0 where the entries do not hold `a`.
pub fn version_of(v: &Vec<(UniqueAddress, i64)>, a: &UniqueAddress) -> (r: i64)
    requires
        keys_unique(version_views(v@)),
    ensures
        r == version_or_zero(assoc_map(version_views(v@)), a@),
{
    let mut i: usize = 0;
    while i < v.len()
        invariant
            i <= v@.len(),
            keys_unique(version_views(v@)),
            forall|x: int| 0 <= x < i ==> v@[x].0@ != a@,
        decreases v.len() - i,
    {
        if v[i].0.same_as(a) {
            proof {
                lemma_assoc_index(version_views(v@), i as int);
            }
            return v[i].1;
        }
        i = i + 1;
    }
    proof {
        if assoc_map(version_views(v@)).contains_key(a@) {
            let x = choose|x: int| 0 <= x < version_views(v@).len() && version_views(v@)[x].0 == a@;
            assert(v@[x].0@ == a@);
        }
    }
    0
}

/// Sets the counter of `a` to `value`, adding `a` where it is missing.
pub fn set_version(v: &mut Vec<(UniqueAddress, i64)>, a: &UniqueAddress, value: i64)
    requires
        keys_unique(version_views(old(v)@)),
    ensures
        keys_unique(version_views(final(v)@)),
        assoc_map(version_views(final(v)@)) == assoc_map(version_views(old(v)@)).insert(a@, value),
{
    let ghost before = version_views(v@);
    let mut i: usize = 0;
    while i < v.len()
        invariant
            i <= v@.len(),
            v@ == old(v)@,
            before == version_views(v@),
            keys_unique(before),
            forall|x: int| 0 <= x < i ==> v@[x].0@ != a@,
        decreases v.len() - i,
    {
        if v[i].0.same_as(a) {
            let ghost gi = i as int;
            let key = v[i].0.clone();
            v.set(i, (key, value));
            proof {
                let after = version_views(v@);
                assert(after =~= before.update(gi, (a@, value)));
                assert forall|x: int, y: int| 0 <= x < y < after.len() implies #[trigger] after[x].0 != #[trigger] after[y].0 by {
                    assert(before[x].0 != before[y].0);
                }
                let m1 = assoc_map(after);
                let m2 = assoc_map(before).insert(a@, value);
                assert forall|k: UniqueAddressView| #[trigger] m1.dom().contains(k) == m2.dom().contains(k) by {
                    if m1.dom().contains(k) {
                        let x = choose|x: int| 0 <= x < after.len() && after[x].0 == k;
                        if x != gi { assert(before[x].0 == k); }
                    }
                    if assoc_map(before).contains_key(k) {
                        let x = choose|x: int| 0 <= x < before.len() && before[x].0 == k;
                        if x != gi { assert(after[x].0 == k); } else { assert(after[gi].0 == k); }
                    }
                    if k == a@ { assert(after[gi].0 == k); }
                }
                assert(m1.dom() =~= m2.dom());
                assert forall|k: UniqueAddressView| #[trigger] m1.dom().contains(k) implies m1[k] == m2[k] by {
                    let x = choose|x: int| 0 <= x < after.len() && after[x].0 == k;
                    lemma_assoc_index(after, x);
                    if x != gi {
                        if x < gi { assert(after[x].0 != after[gi].0); } else { assert(after[gi].0 != after[x].0); }
                        lemma_assoc_index(before, x);
                    }
                }
                assert(m1 =~= m2);
            }
            return;
        }
        i = i + 1;
    }
    v.push((a.clone(), value));
    proof {
        let after = version_views(v@);
        assert(after =~= before.push((a@, value)));
        let m1 = assoc_map(after);
        let m2 = assoc_map(before).insert(a@, value);
        assert forall|k: UniqueAddressView| #[trigger] m1.dom().contains(k) == m2.dom().contains(k) by {
            if m1.dom().contains(k) {
                let x = choose|x: int| 0 <= x < after.len() && after[x].0 == k;
                if x < before.len() { assert(before[x].0 == k); }
            }
            if assoc_map(before).contains_key(k) {
                let x = choose|x: int| 0 <= x < before.len() && before[x].0 == k;
                assert(after[x].0 == k);
            }
            if k == a@ { assert(after[before.len() as int].0 == k); }
        }
        assert(m1.dom() =~= m2.dom());
        assert forall|k: UniqueAddressView| #[trigger] m1.dom().contains(k) implies m1[k] == m2[k] by {
            let x = choose|x: int| 0 <= x < after.len() && after[x].0 == k;
            lemma_assoc_index(after, x);
            if x < before.len() {
                lemma_assoc_index(before, x);
            }
        }
        assert(m1 =~= m2);
    }
}

} // verus!

verus! {

/// A copy of a set of members.
pub fn clone_addrs(v: &Vec<UniqueAddress>) -> (r: Vec<UniqueAddress>)
    ensures
        addr_views(r@) == addr_views(v@),
{
    let mut r: Vec<UniqueAddress> = Vec::new();
    let mut i: usize = 0;
    while i < v.len()
        invariant
            i <= v@.len(),
            addr_views(r@) == addr_views(v@).take(i as int),
        decreases v.len() - i,
    {
        let c = v[i].clone();
        let ghost before = r@;
        r.push(c);
        proof {
            assert(r@ == before.push(c));
            assert(c@ == v@[i as int]@);
            assert(addr_views(before) =~= addr_views(v@).take(i as int));
            assert(addr_views(before).len() == before.len());
            assert(before.len() == i);
            assert forall|k: int| 0 <= k < i + 1 implies #[trigger] addr_views(r@)[k] == addr_views(v@).take(i + 1)[k] by {
                if k < i {
                    assert(addr_views(before)[k] == addr_views(v@).take(i as int)[k]);
                    assert(r@[k] == before[k]);
                } else {
                    assert(r@[k] == c);
                }
            }
            assert(addr_views(r@).len() == i + 1);
            assert(addr_views(r@) =~= addr_views(v@).take(i + 1));
        }
        i = i + 1;
    }
    assert(addr_views(v@).take(v@.len() as int) =~= addr_views(v@));
    r
}

/// Adds every member of `other` to the set.
pub fn extend_addrs(v: &mut Vec<UniqueAddress>, other: &Vec<UniqueAddress>)
    requires
        addr_views(old(v)@).no_duplicates(),
    ensures
        addr_views(final(v)@).no_duplicates(),
        addr_views(final(v)@).to_set() == addr_views(old(v)@).to_set().union(addr_views(other@).to_set()),
{
    let ghost start = addr_views(v@).to_set();
    let mut i: usize = 0;
    while i < other.len()
        invariant
            i <= other@.len(),
            addr_views(v@).no_duplicates(),
            addr_views(v@).to_set() == start.union(addr_views(other@).take(i as int).to_set()),
        decreases other.len() - i,
    {
        let ghost before = addr_views(v@).to_set();
        insert_addr(v, &other[i]);
        proof {
            let t0 = addr_views(other@).take(i as int);
            let t1 = addr_views(other@).take(i + 1);
            assert(t1 =~= t0.push(other@[i as int]@));
            assert forall|x: UniqueAddressView| #[trigger] t1.to_set().contains(x) == t0.to_set().insert(other@[i as int]@).contains(x) by {
                if t1.contains(x) {
                    let j = choose|j: int| 0 <= j < t1.len() && t1[j] == x;
                    if j < t0.len() { assert(t0[j] == x); }
                }
                if t0.contains(x) {
                    let j = choose|j: int| 0 <= j < t0.len() && t0[j] == x;
                    assert(t1[j] == x);
                }
                if x == other@[i as int]@ { assert(t1[i as int] == x); }
            }
            assert(t1.to_set() =~= t0.to_set().insert(other@[i as int]@));
            assert(addr_views(v@).to_set() =~= start.union(t1.to_set()));
        }
        i = i + 1;
    }
    assert(addr_views(other@).take(other@.len() as int) =~= addr_views(other@));
}


/// The entries whose member is (when `inside`) or is not (otherwise) in `set`.
pub fn retain_versions(v: &Vec<(UniqueAddress, i64)>, set: &Vec<UniqueAddress>, inside: bool) -> (r: Vec<(UniqueAddress, i64)>)
    requires
        keys_unique(version_views(v@)),
    ensures
        keys_unique(version_views(r@)),
        assoc_map(version_views(r@)) == Map::new(
            |k: UniqueAddressView| assoc_map(version_views(v@)).contains_key(k)
                && addr_views(set@).contains(k) == inside,
            |k: UniqueAddressView| assoc_map(version_views(v@))[k],
        ),
{
    let ghost src = version_views(v@);
    let ghost target = Map::new(
        |k: UniqueAddressView| assoc_map(src).contains_key(k) && addr_views(set@).contains(k) == inside,
        |k: UniqueAddressView| assoc_map(src)[k],
    );
    let mut r: Vec<(UniqueAddress, i64)> = Vec::new();
    let mut i: usize = 0;
    proof {
        assert(version_views(r@) =~= Seq::<(UniqueAddressView, i64)>::empty());
    }
    while i < v.len()
        invariant
            src == version_views(v@),
            keys_unique(src),
            i <= v@.len(),
            keys_unique(version_views(r@)),
            forall|x: int| 0 <= x < version_views(r@).len() ==> exists|y: int| 0 <= y < i && #[trigger] version_views(r@)[x] == src[y],
            forall|k: UniqueAddressView| #[trigger] assoc_map(version_views(r@)).contains_key(k) == (exists|y: int| 0 <= y < i && src[y].0 == k && addr_views(set@).contains(k) == inside),
            forall|k: UniqueAddressView| #[trigger] assoc_map(version_views(r@)).contains_key(k) ==> assoc_map(version_views(r@))[k] == assoc_map(src)[k],
        decreases v.len() - i,
    {
        let ghost gi = i as int;
        let keep = contains_addr(set, &v[i].0) == inside;
        proof {
            assert(src[gi] == (v@[gi].0@, v@[gi].1));
            lemma_assoc_index(src, gi);
        }
        if keep {
            let ghost before = version_views(r@);
            let c = (v[i].0.clone(), v[i].1);
            let ghost rb = r@;
            r.push(c);
            proof {
                let after = version_views(r@);
                assert(before.len() == rb.len());
                assert(after =~= before.push(src[gi])) by {
                    assert forall|k: int| 0 <= k < after.len() implies #[trigger] after[k] == before.push(src[gi])[k] by {
                        if k < before.len() { assert(r@[k] == rb[k]); }
                    }
                }
                assert forall|x: int, y: int| 0 <= x < y < after.len() implies #[trigger] after[x].0 != #[trigger] after[y].0 by {
                    if y < before.len() {
                        assert(before[x].0 != before[y].0);
                    } else {
                        let z = choose|z: int| 0 <= z < i && #[trigger] before[x] == src[z];
                        assert(src[z].0 != src[gi].0);
                    }
                }
                assert forall|x: int| 0 <= x < after.len() implies exists|y: int| 0 <= y < i + 1 && #[trigger] after[x] == src[y] by {
                    if x < before.len() {
                        let z = choose|z: int| 0 <= z < i && #[trigger] before[x] == src[z];
                        assert(after[x] == src[z]);
                    } else {
                        assert(after[x] == src[gi]);
                    }
                }
                assert forall|k: UniqueAddressView| #[trigger] assoc_map(after).contains_key(k) == (exists|y: int| 0 <= y < i + 1 && src[y].0 == k && addr_views(set@).contains(k) == inside) by {
                    if assoc_map(after).contains_key(k) {
                        let x = choose|x: int| 0 <= x < after.len() && after[x].0 == k;
                        if x < before.len() {
                            assert(before[x].0 == k);
                            assert(assoc_map(before).contains_key(k));
                        } else {
                            assert(src[gi].0 == k);
                        }
                    }
                    if exists|y: int| 0 <= y < i + 1 && src[y].0 == k && addr_views(set@).contains(k) == inside {
                        let y = choose|y: int| 0 <= y < i + 1 && src[y].0 == k && addr_views(set@).contains(k) == inside;
                        if y < i {
                            assert(assoc_map(before).contains_key(k));
                            let x = choose|x: int| 0 <= x < before.len() && before[x].0 == k;
                            assert(after[x].0 == k);
                        } else {
                            assert(after[before.len() as int].0 == k);
                        }
                    }
                }
                assert forall|k: UniqueAddressView| #[trigger] assoc_map(after).contains_key(k) implies assoc_map(after)[k] == assoc_map(src)[k] by {
                    let x = choose|x: int| 0 <= x < after.len() && after[x].0 == k;
                    lemma_assoc_index(after, x);
                    let y = choose|y: int| 0 <= y < i + 1 && #[trigger] after[x] == src[y];
                    lemma_assoc_index(src, y);
                }
            }
        } else {
            proof {
                let cur = version_views(r@);
                assert forall|k: UniqueAddressView| #[trigger] assoc_map(cur).contains_key(k) == (exists|y: int| 0 <= y < i + 1 && src[y].0 == k && addr_views(set@).contains(k) == inside) by {
                    if exists|y: int| 0 <= y < i + 1 && src[y].0 == k && addr_views(set@).contains(k) == inside {
                        let y = choose|y: int| 0 <= y < i + 1 && src[y].0 == k && addr_views(set@).contains(k) == inside;
                        if y == i {
                            assert(addr_views(set@).contains(src[gi].0) == inside);
                            assert(false);
                        }
                    }
                }
                assert forall|x: int| 0 <= x < cur.len() implies exists|y: int| 0 <= y < i + 1 && #[trigger] cur[x] == src[y] by {
                    let z = choose|z: int| 0 <= z < i && #[trigger] cur[x] == src[z];
                }
            }
        }
        i = i + 1;
    }
    proof {
        let res = assoc_map(version_views(r@));
        assert forall|k: UniqueAddressView| #[trigger] res.dom().contains(k) == target.dom().contains(k) by {
            if exists|y: int| 0 <= y < v@.len() && src[y].0 == k {
                let y = choose|y: int| 0 <= y < v@.len() && src[y].0 == k;
                lemma_assoc_index(src, y);
            }
            if assoc_map(src).contains_key(k) {
                let y = choose|y: int| 0 <= y < src.len() && src[y].0 == k;
                assert(0 <= y < v@.len());
            }
        }
        assert(res.dom() =~= target.dom());
        assert(res =~= target);
    }
    r
}

} // verus!
