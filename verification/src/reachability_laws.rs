//! Laws of the reachability table: what a report changes and what it keeps,
//! the invariants of a table that reports keep, and which side a merge
//! takes.

use vstd::prelude::*;
use crate::address::UniqueAddressView;
use crate::addr_set::version_or_zero;
use crate::reachability::{RecordView, ReachabilityStatus, ReachabilityView, ChangeStep, pairs_unique,
    has_record, status_of, has_rows, change_step, record_index, changed_records, changed_versions, without_observer,
    rows_reachable_except, pick_rows, chosen_rows, merged_records, merged_versions};
use crate::seq_facts::lemma_filter_members;

verus! {

/// Two record sequences agree on every record of the pair (`o`, `s`).
spec fn same_pair_members(r1: Seq<RecordView>, r2: Seq<RecordView>, o: UniqueAddressView, s: UniqueAddressView) -> bool {
    forall|x: RecordView| x.observer == o && x.subject == s ==> (#[trigger] r1.contains(x) == r2.contains(x))
}

proof fn lemma_status_record(rs: Seq<RecordView>, o: UniqueAddressView, s: UniqueAddressView) -> (x: RecordView)
    requires
        pairs_unique(rs),
        has_record(rs, o, s),
    ensures
        rs.contains(x),
        x.observer == o && x.subject == s,
        status_of(rs, o, s) == x.status,
        forall|y: RecordView| rs.contains(y) && y.observer == o && y.subject == s ==> y == x,
{
    let i = choose|i: int| 0 <= i < rs.len() && rs[i].observer == o && rs[i].subject == s;
    assert(rs.contains(rs[i]));
    assert forall|y: RecordView| rs.contains(y) && y.observer == o && y.subject == s implies y == rs[i] by {
        let j = choose|j: int| 0 <= j < rs.len() && rs[j] == y;
        if j < i {
            assert(!(rs[j].observer == rs[i].observer && rs[j].subject == rs[i].subject));
        } else if i < j {
            assert(!(rs[i].observer == rs[j].observer && rs[i].subject == rs[j].subject));
        }
    }
    rs[i]
}

proof fn lemma_status_same_members(r1: Seq<RecordView>, r2: Seq<RecordView>, o: UniqueAddressView, s: UniqueAddressView)
    requires
        pairs_unique(r1),
        pairs_unique(r2),
        same_pair_members(r1, r2, o, s),
    ensures
        status_of(r1, o, s) == status_of(r2, o, s),
        has_record(r1, o, s) == has_record(r2, o, s),
{
    if has_record(r1, o, s) {
        let x = lemma_status_record(r1, o, s);
        assert(r2.contains(x));
        let j = choose|j: int| 0 <= j < r2.len() && r2[j] == x;
        assert(has_record(r2, o, s));
        let y = lemma_status_record(r2, o, s);
    }
    if has_record(r2, o, s) {
        let y = lemma_status_record(r2, o, s);
        assert(r1.contains(y));
        let j = choose|j: int| 0 <= j < r1.len() && r1[j] == y;
        assert(has_record(r1, o, s));
    }
}

proof fn lemma_no_record_reachable(rs: Seq<RecordView>, o: UniqueAddressView, s: UniqueAddressView)
    requires
        forall|x: RecordView| #[trigger] rs.contains(x) ==> !(x.observer == o && x.subject == s),
    ensures
        !has_record(rs, o, s),
        status_of(rs, o, s) == ReachabilityStatus::Reachable,
{
    if has_record(rs, o, s) {
        let i = choose|i: int| 0 <= i < rs.len() && rs[i].observer == o && rs[i].subject == s;
        assert(rs.contains(rs[i]));
    }
}

proof fn lemma_push_unique_members(rs: Seq<RecordView>, rec: RecordView)
    ensures
        forall|x: RecordView| #[trigger] rs.push(rec).contains(x) == (rs.contains(x) || x == rec),
{
    assert forall|x: RecordView| #[trigger] rs.push(rec).contains(x) == (rs.contains(x) || x == rec) by {
        if rs.push(rec).contains(x) {
            let i = choose|i: int| 0 <= i < rs.len() + 1 && rs.push(rec)[i] == x;
            if i < rs.len() { assert(rs[i] == x); }
        }
        if rs.contains(x) {
            let i = choose|i: int| 0 <= i < rs.len() && rs[i] == x;
            assert(rs.push(rec)[i] == x);
        }
        if x == rec { assert(rs.push(rec)[rs.len() as int] == x); }
    }
}

proof fn lemma_changed_unique(rs: Seq<RecordView>, o: UniqueAddressView, s: UniqueAddressView, st: ReachabilityStatus, v: i64)
    requires
        pairs_unique(rs),
    ensures
        pairs_unique(changed_records(rs, o, s, st, v)),
{
    let rec = RecordView { observer: o, subject: s, status: st, version: v };
    match change_step(rs, o, s, st) {
        ChangeStep::Keep => {}
        ChangeStep::Append => {
            let u = rs.push(rec);
            assert forall|x: int, y: int| 0 <= x < y < u.len() implies !(#[trigger] u[x].observer == #[trigger] u[y].observer && u[x].subject == u[y].subject) by {
                if y < rs.len() {
                    assert(u[x] == rs[x] && u[y] == rs[y]);
                } else {
                    assert(u[x] == rs[x]);
                    assert(!has_record(rs, o, s));
                }
            }
        }
        ChangeStep::DropObserver => {
            crate::reachability::lemma_filter_unique(rs, |r: RecordView| r.observer != o);
        }
        ChangeStep::Replace => {
            let i = record_index(rs, o, s);
            let u = rs.update(i, rec);
            assert forall|x: int, y: int| 0 <= x < y < u.len() implies !(#[trigger] u[x].observer == #[trigger] u[y].observer && u[x].subject == u[y].subject) by {
                assert(!(rs[x].observer == rs[y].observer && rs[x].subject == rs[y].subject));
            }
        }
    }
}

/// After `o` reports `st` for `s`, that is the status `o` reports for `s`,
/// except that a terminated subject stays terminated.
pub proof fn law_change_sets_status(rs: Seq<RecordView>, o: UniqueAddressView, s: UniqueAddressView, st: ReachabilityStatus, v: i64)
    requires
        pairs_unique(rs),
    ensures
        status_of(changed_records(rs, o, s, st, v), o, s) == (if status_of(rs, o, s) == ReachabilityStatus::Terminated {
            ReachabilityStatus::Terminated
        } else {
            st
        }),
{
    let rec = RecordView { observer: o, subject: s, status: st, version: v };
    let out = changed_records(rs, o, s, st, v);
    lemma_changed_unique(rs, o, s, st, v);
    match change_step(rs, o, s, st) {
        ChangeStep::Keep => {
            if !has_rows(rs, o) {
                if has_record(rs, o, s) {
                    let i = choose|i: int| 0 <= i < rs.len() && rs[i].observer == o && rs[i].subject == s;
                    assert(has_rows(rs, o));
                }
            }
        }
        ChangeStep::Append => {
            lemma_push_unique_members(rs, rec);
            assert(out.contains(rec)) by { assert(out[rs.len() as int] == rec); }
            assert(has_record(out, o, s)) by { assert(out[rs.len() as int] == rec); }
            let x = lemma_status_record(out, o, s);
        }
        ChangeStep::DropObserver => {
            lemma_filter_members(rs, |r: RecordView| r.observer != o);
            lemma_no_record_reachable(out, o, s);
        }
        ChangeStep::Replace => {
            let i = record_index(rs, o, s);
            assert(out[i] == rec);
            assert(has_record(out, o, s));
            assert(out.contains(rec));
            let x = lemma_status_record(out, o, s);
        }
    }
}

/// A report by `o` about `s` leaves every other observer/subject pair with
/// the status it had.
pub proof fn law_change_keeps_others(rs: Seq<RecordView>, o: UniqueAddressView, s: UniqueAddressView, st: ReachabilityStatus, v: i64, o2: UniqueAddressView, s2: UniqueAddressView)
    requires
        pairs_unique(rs),
        !(o2 == o && s2 == s),
    ensures
        status_of(changed_records(rs, o, s, st, v), o2, s2) == status_of(rs, o2, s2),
{
    let rec = RecordView { observer: o, subject: s, status: st, version: v };
    let out = changed_records(rs, o, s, st, v);
    lemma_changed_unique(rs, o, s, st, v);
    match change_step(rs, o, s, st) {
        ChangeStep::Keep => {}
        ChangeStep::Append => {
            lemma_push_unique_members(rs, rec);
            lemma_status_same_members(out, rs, o2, s2);
        }
        ChangeStep::DropObserver => {
            lemma_filter_members(rs, |r: RecordView| r.observer != o);
            if o2 != o {
                lemma_status_same_members(out, rs, o2, s2);
            } else {
                lemma_no_record_reachable(out, o2, s2);
                if has_record(rs, o2, s2) {
                    let x = lemma_status_record(rs, o2, s2);
                    let j = choose|j: int| 0 <= j < rs.len() && rs[j] == x;
                    assert(rs[j].observer == o);
                }
            }
        }
        ChangeStep::Replace => {
            let i = record_index(rs, o, s);
            assert forall|x: RecordView| x.observer == o2 && x.subject == s2 implies (#[trigger] out.contains(x) == rs.contains(x)) by {
                if out.contains(x) {
                    let j = choose|j: int| 0 <= j < out.len() && out[j] == x;
                    if j != i { assert(rs[j] == x); }
                }
                if rs.contains(x) {
                    let j = choose|j: int| 0 <= j < rs.len() && rs[j] == x;
                    assert(j != i);
                    assert(out[j] == x);
                }
            }
            lemma_status_same_members(out, rs, o2, s2);
        }
    }
}


proof fn lemma_concat_members(l: Seq<RecordView>, r: Seq<RecordView>)
    ensures
        forall|x: RecordView| #[trigger] (l + r).contains(x) == (l.contains(x) || r.contains(x)),
{
    assert forall|x: RecordView| #[trigger] (l + r).contains(x) == (l.contains(x) || r.contains(x)) by {
        if (l + r).contains(x) {
            let i = choose|i: int| 0 <= i < (l + r).len() && (l + r)[i] == x;
            if i < l.len() { assert(l[i] == x); } else { assert(r[i - l.len()] == x); }
        }
        if l.contains(x) {
            let i = choose|i: int| 0 <= i < l.len() && l[i] == x;
            assert((l + r)[i] == x);
        }
        if r.contains(x) {
            let i = choose|i: int| 0 <= i < r.len() && r[i] == x;
            assert((l + r)[l.len() + i] == x);
        }
    }
}

proof fn lemma_chosen_members(a: ReachabilityView, b: ReachabilityView, al: Seq<UniqueAddressView>, o: UniqueAddressView)
    ensures
        forall|x: RecordView| #[trigger] chosen_rows(a, b, al, o).contains(x) ==> x.observer == o && al.contains(x.subject),
        pairs_unique(a.records) && pairs_unique(b.records) ==> pairs_unique(chosen_rows(a, b, al, o)),
{
    let p = |y: RecordView| y.observer == o && al.contains(y.subject);
    lemma_filter_members(a.records, p);
    lemma_filter_members(b.records, p);
    if pairs_unique(a.records) && pairs_unique(b.records) {
        crate::reachability::lemma_filter_unique(a.records, p);
        crate::reachability::lemma_filter_unique(b.records, p);
    }
}

proof fn lemma_merged_members(order: Seq<UniqueAddressView>, al: Seq<UniqueAddressView>, a: ReachabilityView, b: ReachabilityView)
    requires
        order.no_duplicates(),
        pairs_unique(a.records),
        pairs_unique(b.records),
    ensures
        forall|x: RecordView| #[trigger] merged_records(order, al, a, b).contains(x)
            == (order.contains(x.observer) && chosen_rows(a, b, al, x.observer).contains(x)),
        pairs_unique(merged_records(order, al, a, b)),
    decreases order.len(),
{
    if order.len() > 0 {
        let t = order.drop_last();
        assert(t.no_duplicates());
        lemma_merged_members(t, al, a, b);
        let left = merged_records(t, al, a, b);
        let o = order.last();
        let right = chosen_rows(a, b, al, o);
        lemma_concat_members(left, right);
        lemma_chosen_members(a, b, al, o);
        assert forall|x: RecordView| #[trigger] merged_records(order, al, a, b).contains(x)
            == (order.contains(x.observer) && chosen_rows(a, b, al, x.observer).contains(x)) by {
            assert forall|u: UniqueAddressView| #[trigger] order.contains(u) == (t.contains(u) || u == o) by {
                if order.contains(u) {
                    let i = choose|i: int| 0 <= i < order.len() && order[i] == u;
                    if i < t.len() { assert(t[i] == u); }
                }
                if t.contains(u) {
                    let i = choose|i: int| 0 <= i < t.len() && t[i] == u;
                    assert(order[i] == u);
                }
                if u == o { assert(order[order.len() - 1] == u); }
            }
            if t.contains(o) {
                let i = choose|i: int| 0 <= i < t.len() && t[i] == o;
                assert(order[i] == order[order.len() - 1]);
            }
        }
        let all = left + right;
        assert forall|x: int, y: int| 0 <= x < y < all.len() implies !(#[trigger] all[x].observer == #[trigger] all[y].observer && all[x].subject == all[y].subject) by {
            if y < left.len() {
                assert(all[x] == left[x] && all[y] == left[y]);
            } else if x >= left.len() {
                assert(all[x] == right[x - left.len()] && all[y] == right[y - left.len()]);
            } else {
                assert(all[x] == left[x]);
                assert(left.contains(left[x]));
                assert(all[y] == right[y - left.len()]);
                assert(right.contains(right[y - left.len()]));
                if t.contains(o) {
                    let i = choose|i: int| 0 <= i < t.len() && t[i] == o;
                    assert(order[i] == order[order.len() - 1]);
                }
            }
        }
    }
}

/// A merge takes, for each allowed observer whose versions differ, what the
/// side with the higher version reports; observers or subjects outside
/// `allowed` are reported reachable.
pub proof fn law_merge_takes_latest(allowed: Seq<UniqueAddressView>, a: ReachabilityView, b: ReachabilityView, o: UniqueAddressView, s: UniqueAddressView)
    requires
        allowed.no_duplicates(),
        pairs_unique(a.records),
        pairs_unique(b.records),
    ensures
        !(allowed.contains(o) && allowed.contains(s))
            ==> status_of(merged_records(allowed, allowed, a, b), o, s) == ReachabilityStatus::Reachable,
        allowed.contains(o) && allowed.contains(s) && version_or_zero(a.versions, o) > version_or_zero(b.versions, o)
            ==> status_of(merged_records(allowed, allowed, a, b), o, s) == status_of(a.records, o, s),
        allowed.contains(o) && allowed.contains(s) && version_or_zero(b.versions, o) > version_or_zero(a.versions, o)
            ==> status_of(merged_records(allowed, allowed, a, b), o, s) == status_of(b.records, o, s),
{
    let m = merged_records(allowed, allowed, a, b);
    lemma_merged_members(allowed, allowed, a, b);
    lemma_chosen_members(a, b, allowed, o);
    let p = |y: RecordView| y.observer == o && allowed.contains(y.subject);
    lemma_filter_members(a.records, p);
    lemma_filter_members(b.records, p);
    if !(allowed.contains(o) && allowed.contains(s)) {
        lemma_no_record_reachable(m, o, s);
    } else {
        let v1 = version_or_zero(a.versions, o);
        let v2 = version_or_zero(b.versions, o);
        if v1 > v2 {
            if has_rows(a.records, o) {
                lemma_status_same_members(m, a.records, o, s);
            } else {
                lemma_no_record_reachable(m, o, s);
                if has_record(a.records, o, s) {
                    let i = choose|i: int| 0 <= i < a.records.len() && a.records[i].observer == o && a.records[i].subject == s;
                    assert(has_rows(a.records, o));
                }
            }
        } else if v2 > v1 {
            if has_rows(b.records, o) {
                lemma_status_same_members(m, b.records, o, s);
            } else {
                lemma_no_record_reachable(m, o, s);
                if has_record(b.records, o, s) {
                    let i = choose|i: int| 0 <= i < b.records.len() && b.records[i].observer == o && b.records[i].subject == s;
                    assert(has_rows(b.records, o));
                }
            }
        }
    }
}

/// A merge is symmetric in its records: both orders hold the same records,
/// where the two tables agree on the rows of each observer that both hold
/// at the same version.
pub proof fn law_merge_commutes(allowed: Seq<UniqueAddressView>, a: ReachabilityView, b: ReachabilityView)
    requires
        allowed.no_duplicates(),
        pairs_unique(a.records),
        pairs_unique(b.records),
        forall|o: UniqueAddressView|
            allowed.contains(o) && has_rows(a.records, o) && has_rows(b.records, o) && version_or_zero(a.versions, o)
                == version_or_zero(b.versions, o) ==> #[trigger] pick_rows(a.records, o, allowed).to_set() == pick_rows(
                b.records,
                o,
                allowed,
            ).to_set(),
    ensures
        forall|x: RecordView|
            #[trigger] merged_records(allowed, allowed, a, b).contains(x) == merged_records(allowed, allowed, b, a).contains(x),
{
    lemma_merged_members(allowed, allowed, a, b);
    lemma_merged_members(allowed, allowed, b, a);
    assert forall|x: RecordView|
        #[trigger] merged_records(allowed, allowed, a, b).contains(x) == merged_records(allowed, allowed, b, a).contains(x) by {
        let o = x.observer;
        if allowed.contains(o) {
            let v1 = version_or_zero(a.versions, o);
            let v2 = version_or_zero(b.versions, o);
            if has_rows(a.records, o) && has_rows(b.records, o) && v1 == v2 {
                let pa = pick_rows(a.records, o, allowed);
                let pb = pick_rows(b.records, o, allowed);
                assert(pa.to_set() == pb.to_set());
                assert(pa.to_set().contains(x) == pa.contains(x));
                assert(pb.to_set().contains(x) == pb.contains(x));
            }
        }
    }
}

/// A merge is symmetric in its versions where all versions are positive,
/// as every version an observer reaches by reporting is.
pub proof fn law_merge_versions_commute(allowed: Seq<UniqueAddressView>, a: Map<UniqueAddressView, i64>, b: Map<UniqueAddressView, i64>)
    requires
        forall|k: UniqueAddressView| #[trigger] a.contains_key(k) ==> a[k] > 0,
        forall|k: UniqueAddressView| #[trigger] b.contains_key(k) ==> b[k] > 0,
    ensures
        merged_versions(allowed, a, b) == merged_versions(allowed, b, a),
{
    assert(merged_versions(allowed, a, b) =~= merged_versions(allowed, b, a));
}

/// Every observer that has records has one that is not `Reachable` (an
/// observer whose records all become reachable is dropped).
pub open spec fn observers_have_unreachable(rs: Seq<RecordView>) -> bool {
    forall|x: RecordView| #[trigger] rs.contains(x) ==> has_unreachable_row(rs, x.observer)
}

/// Observer `o` has a record that is not `Reachable`.
#[verifier::opaque]
pub open spec fn has_unreachable_row(rs: Seq<RecordView>, o: UniqueAddressView) -> bool {
    exists|y: RecordView| #[trigger] rs.contains(y) && y.observer == o && y.status != ReachabilityStatus::Reachable
}

/// No record is newer than its observer's version.
pub open spec fn versions_cover(rs: Seq<RecordView>, vs: Map<UniqueAddressView, i64>) -> bool {
    forall|x: RecordView| #[trigger] rs.contains(x) ==> x.version <= version_or_zero(vs, x.observer)
}

proof fn lemma_push_members(rs: Seq<RecordView>, r: RecordView)
    ensures
        forall|x: RecordView| #[trigger] rs.push(r).contains(x) <==> (rs.contains(x) || x == r),
{
    assert forall|x: RecordView| #[trigger] rs.push(r).contains(x) <==> (rs.contains(x) || x == r) by {
        if rs.push(r).contains(x) {
            let k = choose|k: int| 0 <= k < rs.push(r).len() && rs.push(r)[k] == x;
            if k < rs.len() {
                assert(rs[k] == x);
            }
        }
        if rs.contains(x) {
            let k = choose|k: int| 0 <= k < rs.len() && rs[k] == x;
            assert(rs.push(r)[k] == x);
        }
        if x == r {
            assert(rs.push(r)[rs.len() as int] == r);
        }
    }
}

proof fn lemma_update_members(rs: Seq<RecordView>, i: int, r: RecordView)
    requires
        0 <= i < rs.len(),
    ensures
        forall|x: RecordView| #[trigger] rs.update(i, r).contains(x) ==> (rs.contains(x) || x == r),
        rs.update(i, r).contains(r),
        forall|x: RecordView| rs.contains(x) && !(x.observer == rs[i].observer && x.subject == rs[i].subject)
            ==> #[trigger] rs.update(i, r).contains(x),
{
    let u = rs.update(i, r);
    assert forall|x: RecordView| #[trigger] u.contains(x) implies (rs.contains(x) || x == r) by {
        let k = choose|k: int| 0 <= k < u.len() && u[k] == x;
        if k != i {
            assert(rs[k] == x);
        }
    }
    assert(u[i] == r);
    assert forall|x: RecordView| rs.contains(x) && !(x.observer == rs[i].observer && x.subject == rs[i].subject)
        implies #[trigger] u.contains(x) by {
        let k = choose|k: int| 0 <= k < rs.len() && rs[k] == x;
        assert(k != i);
        assert(u[k] == x);
    }
}

proof fn lemma_append_keeps(rs: Seq<RecordView>, vs: Map<UniqueAddressView, i64>, rec: RecordView)
    requires
        observers_have_unreachable(rs),
        versions_cover(rs, vs),
        rec.version == version_or_zero(vs, rec.observer) + 1,
        rec.status != ReachabilityStatus::Reachable || exists|y: RecordView| #[trigger] rs.contains(y)
            && y.observer == rec.observer && y.status != ReachabilityStatus::Reachable,
    ensures
        observers_have_unreachable(rs.push(rec)),
        versions_cover(rs.push(rec), vs.insert(rec.observer, rec.version)),
        forall|x: RecordView| x.observer != rec.observer ==> (#[trigger] rs.push(rec).contains(x) <==> rs.contains(x)),
{
    let rs2 = rs.push(rec);
    lemma_push_members(rs, rec);
    assert forall|x: RecordView| #[trigger] rs2.contains(x) implies has_unreachable_row(rs2, x.observer) by {
        reveal(has_unreachable_row);
        if x.observer == rec.observer {
            if rec.status != ReachabilityStatus::Reachable {
                assert(rs2.contains(rec));
            } else {
                let y = choose|y: RecordView| #[trigger] rs.contains(y) && y.observer == rec.observer
                    && y.status != ReachabilityStatus::Reachable;
                assert(rs2.contains(y));
            }
        } else {
            assert(rs.contains(x));
            let y = choose|y: RecordView| #[trigger] rs.contains(y) && y.observer == x.observer
                && y.status != ReachabilityStatus::Reachable;
            assert(rs2.contains(y));
        }
    }
}

proof fn lemma_drop_keeps(rs: Seq<RecordView>, vs: Map<UniqueAddressView, i64>, o: UniqueAddressView, v: i64)
    requires
        observers_have_unreachable(rs),
        versions_cover(rs, vs),
    ensures
        observers_have_unreachable(without_observer(rs, o)),
        versions_cover(without_observer(rs, o), vs.insert(o, v)),
        forall|x: RecordView| x.observer != o ==> (#[trigger] without_observer(rs, o).contains(x) <==> rs.contains(x)),
{
    let pred = |r: RecordView| r.observer != o;
    let rs2 = without_observer(rs, o);
    assert(rs2 == rs.filter(pred));
    lemma_filter_members(rs, pred);
    assert forall|x: RecordView| #[trigger] rs2.contains(x) implies has_unreachable_row(rs2, x.observer) by {
        reveal(has_unreachable_row);
        assert(rs.contains(x));
        let y = choose|y: RecordView| #[trigger] rs.contains(y) && y.observer == x.observer
            && y.status != ReachabilityStatus::Reachable;
        assert(rs2.contains(y));
    }
}

proof fn lemma_replace_keeps(rs: Seq<RecordView>, vs: Map<UniqueAddressView, i64>, idx: int, rec: RecordView)
    requires
        observers_have_unreachable(rs),
        versions_cover(rs, vs),
        0 <= idx < rs.len(),
        rs[idx].observer == rec.observer,
        rs[idx].subject == rec.subject,
        rec.version == version_or_zero(vs, rec.observer) + 1,
        rec.status != ReachabilityStatus::Reachable || exists|y: RecordView| #[trigger] rs.contains(y)
            && y.observer == rec.observer && y.subject != rec.subject && y.status != ReachabilityStatus::Reachable,
    ensures
        observers_have_unreachable(rs.update(idx, rec)),
        versions_cover(rs.update(idx, rec), vs.insert(rec.observer, rec.version)),
        forall|x: RecordView| x.observer != rec.observer ==> (#[trigger] rs.update(idx, rec).contains(x) <==> rs.contains(x)),
{
    let rs2 = rs.update(idx, rec);
    lemma_update_members(rs, idx, rec);
    assert forall|x: RecordView| #[trigger] rs2.contains(x) implies has_unreachable_row(rs2, x.observer) by {
        reveal(has_unreachable_row);
        if x.observer == rec.observer {
            if rec.status != ReachabilityStatus::Reachable {
                assert(rs2.contains(rec));
            } else {
                let y = choose|y: RecordView| #[trigger] rs.contains(y) && y.observer == rec.observer
                    && y.subject != rec.subject && y.status != ReachabilityStatus::Reachable;
                assert(rs2.contains(y));
            }
        } else {
            assert(rs.contains(x));
            let y = choose|y: RecordView| #[trigger] rs.contains(y) && y.observer == x.observer
                && y.status != ReachabilityStatus::Reachable;
            assert(rs2.contains(y));
        }
    }
    assert forall|x: RecordView| x.observer != rec.observer implies (#[trigger] rs2.contains(x) <==> rs.contains(x)) by {
        if rs.contains(x) {
            assert(rs2.contains(x));
        }
    }
}

/// A report keeps the invariants of a table: every observer with records
/// still has one that is not `Reachable`, and no record is newer than its
/// observer's version; the records of every other observer are kept.
pub proof fn law_change_keeps_invariants(
    rs: Seq<RecordView>,
    vs: Map<UniqueAddressView, i64>,
    o: UniqueAddressView,
    s: UniqueAddressView,
    st: ReachabilityStatus,
)
    requires
        pairs_unique(rs),
        observers_have_unreachable(rs),
        versions_cover(rs, vs),
        version_or_zero(vs, o) < i64::MAX,
    ensures
        observers_have_unreachable(changed_records(rs, o, s, st, (version_or_zero(vs, o) + 1) as i64)),
        versions_cover(
            changed_records(rs, o, s, st, (version_or_zero(vs, o) + 1) as i64),
            changed_versions(rs, vs, o, s, st),
        ),
        forall|x: RecordView| x.observer != o ==> (#[trigger] changed_records(rs, o, s, st,
            (version_or_zero(vs, o) + 1) as i64).contains(x) <==> rs.contains(x)),
{
    let v = (version_or_zero(vs, o) + 1) as i64;
    let rec = RecordView { observer: o, subject: s, status: st, version: v };
    match change_step(rs, o, s, st) {
        ChangeStep::Keep => {},
        ChangeStep::Append => {
            if st == ReachabilityStatus::Reachable {
                assert(!rows_reachable_except(rs, o, None));
                let i = choose|i: int| 0 <= i < rs.len() && rs[i].observer == o
                    && !(rs[i].status == ReachabilityStatus::Reachable || None::<UniqueAddressView> == Some(rs[i].subject));
                assert(rs.contains(rs[i]));
            }
            lemma_append_keeps(rs, vs, rec);
        },
        ChangeStep::DropObserver => {
            lemma_drop_keeps(rs, vs, o, v);
        },
        ChangeStep::Replace => {
            let idx = record_index(rs, o, s);
            assert(has_record(rs, o, s));
            if st == ReachabilityStatus::Reachable {
                assert(!rows_reachable_except(rs, o, Some(s)));
                let i = choose|i: int| 0 <= i < rs.len() && rs[i].observer == o
                    && !(rs[i].status == ReachabilityStatus::Reachable || Some(s) == Some(rs[i].subject));
                assert(rs.contains(rs[i]));
            }
            lemma_replace_keeps(rs, vs, idx, rec);
        },
    }
}

/// A merge keeps only records whose observer and subject are allowed, and
/// with positive versions its versions are, for each allowed observer that
/// either side knows, the larger of the two.
pub proof fn law_merge_within_allowed(allowed: Seq<UniqueAddressView>, a: ReachabilityView, b: ReachabilityView)
    requires
        allowed.no_duplicates(),
        pairs_unique(a.records),
        pairs_unique(b.records),
        forall|k: UniqueAddressView| #[trigger] a.versions.contains_key(k) ==> a.versions[k] > 0,
        forall|k: UniqueAddressView| #[trigger] b.versions.contains_key(k) ==> b.versions[k] > 0,
    ensures
        forall|x: RecordView| #[trigger] merged_records(allowed, allowed, a, b).contains(x)
            ==> allowed.contains(x.observer) && allowed.contains(x.subject),
        forall|k: UniqueAddressView| #[trigger] merged_versions(allowed, a.versions, b.versions).contains_key(k)
            <==> allowed.contains(k) && (a.versions.contains_key(k) || b.versions.contains_key(k)),
        forall|k: UniqueAddressView| #[trigger] merged_versions(allowed, a.versions, b.versions).contains_key(k)
            ==> merged_versions(allowed, a.versions, b.versions)[k] == if version_or_zero(a.versions, k)
            >= version_or_zero(b.versions, k) {
            version_or_zero(a.versions, k)
        } else {
            version_or_zero(b.versions, k)
        },
{
    lemma_merged_members(allowed, allowed, a, b);
    assert forall|x: RecordView| #[trigger] merged_records(allowed, allowed, a, b).contains(x)
        implies allowed.contains(x.observer) && allowed.contains(x.subject) by {
        let o = x.observer;
        let pa = |r: RecordView| r.observer == o && allowed.contains(r.subject);
        lemma_filter_members(a.records, pa);
        lemma_filter_members(b.records, pa);
    }
}

proof fn lemma_picked_has_rows(rs: Seq<RecordView>, o: UniqueAddressView, allowed: Seq<UniqueAddressView>)
    ensures
        forall|x: RecordView| #[trigger] pick_rows(rs, o, allowed).contains(x)
            <==> (rs.contains(x) && x.observer == o && allowed.contains(x.subject)),
        forall|x: RecordView| #[trigger] pick_rows(rs, o, allowed).contains(x) ==> has_rows(rs, o),
{
    let p = |r: RecordView| r.observer == o && allowed.contains(r.subject);
    lemma_filter_members(rs, p);
    assert forall|x: RecordView| #[trigger] pick_rows(rs, o, allowed).contains(x) implies has_rows(rs, o) by {
        let i = choose|i: int| 0 <= i < rs.len() && rs[i] == x;
        assert(rs[i].observer == o);
    }
}

/// The merge law: with positive versions, and where the two tables hold
/// the same allowed rows of every allowed observer whose versions are
/// equal, a merge keeps only allowed observers and subjects; for each
/// allowed observer it takes the rows of the first table where that has
/// the higher version and the rows of the second otherwise; its versions
/// are the larger of the two for each allowed observer either knows; and
/// merging the other way round gives the same records and versions.
pub proof fn law_merge(allowed: Seq<UniqueAddressView>, a: ReachabilityView, b: ReachabilityView)
    requires
        allowed.no_duplicates(),
        pairs_unique(a.records),
        pairs_unique(b.records),
        forall|k: UniqueAddressView| #[trigger] a.versions.contains_key(k) ==> a.versions[k] > 0,
        forall|k: UniqueAddressView| #[trigger] b.versions.contains_key(k) ==> b.versions[k] > 0,
        forall|o: UniqueAddressView, x: RecordView|
            allowed.contains(o) && version_or_zero(a.versions, o) == version_or_zero(b.versions, o)
                ==> (#[trigger] pick_rows(a.records, o, allowed).contains(x) <==> pick_rows(b.records, o, allowed).contains(x)),
    ensures
        forall|x: RecordView| #[trigger] merged_records(allowed, allowed, a, b).contains(x)
            ==> allowed.contains(x.observer) && allowed.contains(x.subject),
        forall|x: RecordView| allowed.contains(x.observer) ==> (#[trigger] merged_records(allowed, allowed, a, b).contains(x)
            <==> if version_or_zero(a.versions, x.observer) > version_or_zero(b.versions, x.observer) {
                pick_rows(a.records, x.observer, allowed).contains(x)
            } else {
                pick_rows(b.records, x.observer, allowed).contains(x)
            }),
        forall|k: UniqueAddressView| #[trigger] merged_versions(allowed, a.versions, b.versions).contains_key(k)
            <==> allowed.contains(k) && (a.versions.contains_key(k) || b.versions.contains_key(k)),
        forall|k: UniqueAddressView| #[trigger] merged_versions(allowed, a.versions, b.versions).contains_key(k)
            ==> merged_versions(allowed, a.versions, b.versions)[k] == if version_or_zero(a.versions, k)
            >= version_or_zero(b.versions, k) {
            version_or_zero(a.versions, k)
        } else {
            version_or_zero(b.versions, k)
        },
        forall|x: RecordView|
            #[trigger] merged_records(allowed, allowed, a, b).contains(x) == merged_records(allowed, allowed, b, a).contains(x),
        merged_versions(allowed, a.versions, b.versions) == merged_versions(allowed, b.versions, a.versions),
{
    law_merge_within_allowed(allowed, a, b);
    law_merge_versions_commute(allowed, a.versions, b.versions);
    assert forall|o: UniqueAddressView|
        allowed.contains(o) && has_rows(a.records, o) && has_rows(b.records, o) && version_or_zero(a.versions, o)
            == version_or_zero(b.versions, o) implies #[trigger] pick_rows(a.records, o, allowed).to_set() == pick_rows(
            b.records,
            o,
            allowed,
        ).to_set() by {
        let pa = pick_rows(a.records, o, allowed);
        let pb = pick_rows(b.records, o, allowed);
        assert forall|x: RecordView| pa.to_set().contains(x) == pb.to_set().contains(x) by {
            assert(pa.contains(x) <==> pb.contains(x));
        }
        assert(pa.to_set() =~= pb.to_set());
    }
    law_merge_commutes(allowed, a, b);
    lemma_merged_members(allowed, allowed, a, b);
    assert forall|x: RecordView| allowed.contains(x.observer) implies (#[trigger] merged_records(allowed, allowed, a, b).contains(x)
        <==> if version_or_zero(a.versions, x.observer) > version_or_zero(b.versions, x.observer) {
            pick_rows(a.records, x.observer, allowed).contains(x)
        } else {
            pick_rows(b.records, x.observer, allowed).contains(x)
        }) by {
        let o = x.observer;
        lemma_picked_has_rows(a.records, o, allowed);
        lemma_picked_has_rows(b.records, o, allowed);
        let v1 = version_or_zero(a.versions, o);
        let v2 = version_or_zero(b.versions, o);
        if v1 == v2 {
            assert(pick_rows(a.records, o, allowed).contains(x) <==> pick_rows(b.records, o, allowed).contains(x));
        }
    }
}

} // verus!
