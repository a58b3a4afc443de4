//! The unreachable observers of each subject: for every subject that some
//! observer reports unreachable, the set of those observers.

use vstd::prelude::*;
use crate::address::{UniqueAddress, UniqueAddressView};
use crate::addr_set::{addr_views, insert_addr, clone_addrs};
use crate::reachability::{Reachability, ReachabilityStatus, RecordView, record_views};

verus! {

/// `o` reports `s` unreachable in one of the records.
pub open spec fn reports_unreachable(rs: Seq<RecordView>, s: UniqueAddressView, o: UniqueAddressView) -> bool {
    exists|i: int| 0 <= i < rs.len() && rs[i].subject == s && rs[i].observer == o
        && rs[i].status == ReachabilityStatus::Unreachable
}

/// The subjects that some observer reports unreachable, each with the set
/// of observers that do.
pub open spec fn grouped_by_unreachable(rs: Seq<RecordView>) -> Map<
    UniqueAddressView,
    Set<UniqueAddressView>,
> {
    Map::new(
        |s: UniqueAddressView| exists|o: UniqueAddressView| reports_unreachable(rs, s, o),
        |s: UniqueAddressView| Set::new(|o: UniqueAddressView| reports_unreachable(rs, s, o)),
    )
}

/// The subjects of the groups, in order.
pub open spec fn group_keys(g: Seq<(UniqueAddress, Vec<UniqueAddress>)>) -> Seq<UniqueAddressView> {
    g.map_values(|e: (UniqueAddress, Vec<UniqueAddress>)| e.0@)
}

/// The groups are held with distinct subjects and duplicate-free observers.
pub open spec fn groups_wf(g: Seq<(UniqueAddress, Vec<UniqueAddress>)>) -> bool {
    &&& group_keys(g).no_duplicates()
    &&& forall|i: int| 0 <= i < g.len() ==> addr_views(#[trigger] g[i].1@).no_duplicates()
}

/// The map that the groups stand for.
pub open spec fn group_map(g: Seq<(UniqueAddress, Vec<UniqueAddress>)>) -> Map<
    UniqueAddressView,
    Set<UniqueAddressView>,
> {
    Map::new(
        |k: UniqueAddressView| group_keys(g).contains(k),
        |k: UniqueAddressView| addr_views(g[group_keys(g).index_of(k)].1@).to_set(),
    )
}

proof fn lemma_small_to_set(s: Seq<UniqueAddressView>)
    requires
        s.len() <= 1,
    ensures
        s.len() == 0 ==> s.to_set() == Set::<UniqueAddressView>::empty(),
        s.len() == 1 ==> s.to_set() == Set::<UniqueAddressView>::empty().insert(s[0]),
{
    if s.len() == 0 {
        assert(s.to_set() =~= Set::<UniqueAddressView>::empty());
    } else {
        assert forall|x: UniqueAddressView| s.to_set().contains(x) <==> Set::<UniqueAddressView>::empty().insert(s[0]).contains(x) by {
            if x == s[0] {
                assert(s.contains(x));
            }
        }
        assert(s.to_set() =~= Set::<UniqueAddressView>::empty().insert(s[0]));
    }
}

fn group_insert(g: &mut Vec<(UniqueAddress, Vec<UniqueAddress>)>, subject: &UniqueAddress, obs: Vec<UniqueAddress>)
    requires
        groups_wf(old(g)@),
        addr_views(obs@).no_duplicates(),
    ensures
        groups_wf(final(g)@),
        group_map(final(g)@) == group_map(old(g)@).insert(subject@, addr_views(obs@).to_set()),
{
    let ghost before = g@;
    let ghost kb = group_keys(before);
    let ghost ov = addr_views(obs@).to_set();
    let mut j: usize = 0;
    while j < g.len()
        invariant
            0 <= j <= g.len(),
            g@ == before,
            kb == group_keys(before),
            kb.len() == before.len(),
            forall|t: int| 0 <= t < j ==> #[trigger] kb[t] != subject@,
        ensures
            j < g.len() ==> kb[j as int] == subject@,
        decreases g.len() - j,
    {
        assert(kb[j as int] == g@[j as int].0@);
        if g[j].0.same_as(subject) {
            break;
        }
        j = j + 1;
    }
    if j < g.len() {
        assert(kb[j as int] == g@[j as int].0@);
        assert(kb[j as int] == subject@);
        g.set(j, (subject.clone(), obs));
        proof {
            let after = g@;
            let ka = group_keys(after);
            assert(ka =~= kb);
            assert forall|i: int| 0 <= i < after.len() implies addr_views(#[trigger] after[i].1@).no_duplicates() by {
                if i != j {
                    assert(after[i] == before[i]);
                }
            }
            assert(group_map(after) =~= group_map(before).insert(subject@, ov)) by {
                assert forall|k: UniqueAddressView| #[trigger] group_map(after).contains_key(k) implies group_map(after)[k] == group_map(before).insert(subject@, ov)[k] by {
                    let i = ka.index_of(k);
                    assert(ka[i] == k);
                    if k == subject@ {
                        assert(ka.index_of(k) == j) by {
                            assert(ka[j as int] == k);
                        }
                    } else {
                        assert(i != j);
                        assert(after[i] == before[i]);
                    }
                }
            }
        }
    } else {
        g.push((subject.clone(), obs));
        proof {
            let after = g@;
            let ka = group_keys(after);
            assert(ka =~= kb.push(subject@));
            assert(!kb.contains(subject@));
            assert forall|i: int| 0 <= i < after.len() implies addr_views(#[trigger] after[i].1@).no_duplicates() by {
                if i < before.len() {
                    assert(after[i] == before[i]);
                }
            }
            assert(ka.no_duplicates()) by {
                assert forall|a: int, b: int| 0 <= a < b < ka.len() implies ka[a] != ka[b] by {
                    if b == before.len() {
                        assert(kb[a] != subject@);
                    }
                }
            }
            assert(group_map(after) =~= group_map(before).insert(subject@, ov)) by {
                assert forall|k: UniqueAddressView| group_map(after).contains_key(k) <==> group_map(before).insert(subject@, ov).contains_key(k) by {
                    if ka.contains(k) {
                        let i = choose|i: int| 0 <= i < ka.len() && ka[i] == k;
                        if i < kb.len() {
                            assert(kb[i] == k);
                        }
                    }
                    if kb.contains(k) {
                        let i = choose|i: int| 0 <= i < kb.len() && kb[i] == k;
                        assert(ka[i] == k);
                    }
                    if k == subject@ {
                        assert(ka[before.len() as int] == k);
                    }
                }
                assert forall|k: UniqueAddressView| #[trigger] group_map(after).contains_key(k) implies group_map(after)[k] == group_map(before).insert(subject@, ov)[k] by {
                    let i = ka.index_of(k);
                    if k == subject@ {
                        assert(ka.index_of(k) == before.len()) by {
                            assert(ka[before.len() as int] == k);
                        }
                    } else {
                        assert(i < before.len());
                        assert(kb[i] == k);
                        assert(kb.index_of(k) == i) by {
                            assert(kb.no_duplicates());
                        }
                        assert(after[i] == before[i]);
                    }
                }
            }
        }
    }
}

/// The groups after one more record: an unreachable report adds its
/// observer to its subject's group.
proof fn lemma_group_step(rs: Seq<RecordView>, i: int)
    requires
        0 <= i < rs.len(),
    ensures
        grouped_by_unreachable(rs.take(i + 1)) == if rs[i].status == ReachabilityStatus::Unreachable {
            grouped_by_unreachable(rs.take(i)).insert(
                rs[i].subject,
                if grouped_by_unreachable(rs.take(i)).contains_key(rs[i].subject) {
                    grouped_by_unreachable(rs.take(i))[rs[i].subject]
                } else {
                    Set::empty()
                }.insert(rs[i].observer),
            )
        } else {
            grouped_by_unreachable(rs.take(i))
        },
{
    let a = rs.take(i);
    let b = rs.take(i + 1);
    let r = rs[i];
    assert forall|s: UniqueAddressView, o: UniqueAddressView| #[trigger] reports_unreachable(b, s, o)
        <==> (reports_unreachable(a, s, o) || (r.status == ReachabilityStatus::Unreachable && r.subject == s && r.observer == o)) by {
        if reports_unreachable(b, s, o) {
            let k = choose|k: int| 0 <= k < b.len() && b[k].subject == s && b[k].observer == o
                && b[k].status == ReachabilityStatus::Unreachable;
            if k < i {
                assert(a[k] == b[k]);
            }
        }
        if reports_unreachable(a, s, o) {
            let k = choose|k: int| 0 <= k < a.len() && a[k].subject == s && a[k].observer == o
                && a[k].status == ReachabilityStatus::Unreachable;
            assert(b[k] == a[k]);
        }
        if r.status == ReachabilityStatus::Unreachable && r.subject == s && r.observer == o {
            assert(b[i] == r);
        }
    }
    let ga = grouped_by_unreachable(a);
    let gb = grouped_by_unreachable(b);
    if r.status == ReachabilityStatus::Unreachable {
        let old_set = if ga.contains_key(r.subject) { ga[r.subject] } else { Set::empty() };
        let expected = ga.insert(r.subject, old_set.insert(r.observer));
        assert forall|s: UniqueAddressView| #[trigger] gb.contains_key(s) <==> expected.contains_key(s) by {
            if s == r.subject {
                assert(reports_unreachable(b, s, r.observer));
            }
            if gb.contains_key(s) {
                let o = choose|o: UniqueAddressView| reports_unreachable(b, s, o);
                assert(reports_unreachable(b, s, o));
            }
            if ga.contains_key(s) {
                let o = choose|o: UniqueAddressView| reports_unreachable(a, s, o);
                assert(reports_unreachable(b, s, o));
            }
        }
        assert forall|s: UniqueAddressView| #[trigger] gb.contains_key(s) implies gb[s] =~= expected[s] by {
            assert forall|o: UniqueAddressView| gb[s].contains(o) <==> expected[s].contains(o) by {
                assert(gb[s].contains(o) == reports_unreachable(b, s, o));
                if s != r.subject {
                    assert(ga.contains_key(s)) by {
                        let o2 = choose|o2: UniqueAddressView| reports_unreachable(b, s, o2);
                        assert(reports_unreachable(b, s, o2));
                        assert(reports_unreachable(a, s, o2));
                    }
                    assert(ga[s].contains(o) == reports_unreachable(a, s, o));
                } else if ga.contains_key(s) {
                    assert(ga[s].contains(o) == reports_unreachable(a, s, o));
                } else {
                    assert(!reports_unreachable(a, s, o));
                }
            }
        }
        assert(gb =~= expected);
    } else {
        assert forall|s: UniqueAddressView| #[trigger] gb.contains_key(s) <==> ga.contains_key(s) by {
            if gb.contains_key(s) {
                let o = choose|o: UniqueAddressView| reports_unreachable(b, s, o);
                assert(reports_unreachable(b, s, o));
            }
            if ga.contains_key(s) {
                let o = choose|o: UniqueAddressView| reports_unreachable(a, s, o);
                assert(reports_unreachable(b, s, o));
            }
        }
        assert forall|s: UniqueAddressView| #[trigger] gb.contains_key(s) implies gb[s] =~= ga[s] by {
            assert forall|o: UniqueAddressView| gb[s].contains(o) <==> ga[s].contains(o) by {
                assert(gb[s].contains(o) == reports_unreachable(b, s, o));
                assert(ga[s].contains(o) == reports_unreachable(a, s, o));
            }
        }
        assert(gb =~= ga);
    }
}

/// Where the subject has a group, its position.
fn group_find(g: &Vec<(UniqueAddress, Vec<UniqueAddress>)>, subject: &UniqueAddress) -> (r: Option<usize>)
    requires
        groups_wf(g@),
    ensures
        r is None <==> !group_map(g@).contains_key(subject@),
        r matches Some(j) ==> j < g.len() && addr_views(g@[j as int].1@).to_set() == group_map(g@)[subject@],
{
    let ghost kb = group_keys(g@);
    let mut j: usize = 0;
    while j < g.len()
        invariant
            0 <= j <= g.len(),
            kb == group_keys(g@),
            kb.len() == g.len(),
            groups_wf(g@),
            forall|t: int| 0 <= t < j ==> #[trigger] kb[t] != subject@,
        decreases g.len() - j,
    {
        assert(kb[j as int] == g@[j as int].0@);
        if g[j].0.same_as(subject) {
            assert(kb.contains(subject@));
            assert(kb.index_of(subject@) == j) by {
                assert(kb[j as int] == subject@);
                assert(kb.no_duplicates());
            }
            return Some(j);
        }
        j = j + 1;
    }
    proof {
        if kb.contains(subject@) {
            let t = choose|t: int| 0 <= t < kb.len() && kb[t] == subject@;
            assert(kb[t] != subject@);
        }
    }
    None
}

impl Reachability {
    /// The subjects that some observer reports unreachable, each with the
    /// observers that report it so.
    pub fn observers_grouped_by_unreachable(&self) -> (r: Vec<(UniqueAddress, Vec<UniqueAddress>)>)
        ensures
            groups_wf(r@),
            group_map(r@) == grouped_by_unreachable(self@.records),
    {
        let records = self.records();
        let ghost rs = self@.records;
        let mut out: Vec<(UniqueAddress, Vec<UniqueAddress>)> = Vec::new();
        proof {
            assert(group_keys(out@) =~= Seq::<UniqueAddressView>::empty());
            assert(group_map(out@) =~= grouped_by_unreachable(rs.take(0))) by {
                assert forall|s: UniqueAddressView| !grouped_by_unreachable(rs.take(0)).contains_key(s) by {
                    if exists|o: UniqueAddressView| reports_unreachable(rs.take(0), s, o) {
                        let o = choose|o: UniqueAddressView| reports_unreachable(rs.take(0), s, o);
                        assert(reports_unreachable(rs.take(0), s, o));
                    }
                }
            }
        }
        let mut i: usize = 0;
        while i < records.len()
            invariant
                0 <= i <= records.len(),
                rs == record_views(records@),
                groups_wf(out@),
                group_map(out@) == grouped_by_unreachable(rs.take(i as int)),
            decreases records.len() - i,
        {
            proof {
                assert(rs[i as int] == records@[i as int]@);
                lemma_group_step(rs, i as int);
            }
            if records[i].status == ReachabilityStatus::Unreachable {
                let mut obs: Vec<UniqueAddress> = match group_find(&out, &records[i].subject) {
                    Some(j) => clone_addrs(&out[j].1),
                    None => {
                        let empty: Vec<UniqueAddress> = Vec::new();
                        assert(addr_views(empty@).to_set() =~= Set::<UniqueAddressView>::empty());
                        empty
                    },
                };
                proof {
                    assert(addr_views(obs@).no_duplicates());
                }
                insert_addr(&mut obs, &records[i].observer);
                group_insert(&mut out, &records[i].subject, obs);
            }
            i = i + 1;
        }
        proof {
            assert(rs.take(records.len() as int) =~= rs);
        }
        out
    }
}

} // verus!
