//! The reachability table of a cluster: which member observed which other
//! member as reachable, unreachable or terminated, with per-observer versions.

use vstd::prelude::*;
use crate::address::{UniqueAddress, UniqueAddressView};
use crate::addr_set::{addr_views, version_views, keys_unique, assoc_map, version_or_zero,
    contains_addr, insert_addr, version_of, set_version, clone_addrs, extend_addrs, retain_versions};

verus! {

/// What an observer reports about a subject.
#[derive(PartialEq, Eq, Structural, Clone, Copy, Debug, Hash)]
pub enum ReachabilityStatus {
    Reachable,
    Unreachable,
    Terminated,
}

/// The name of a status, as `Display` writes it.
pub open spec fn status_text(s: ReachabilityStatus) -> Seq<char> {
    match s {
        ReachabilityStatus::Reachable => "Reachable"@,
        ReachabilityStatus::Unreachable => "Unreachable"@,
        ReachabilityStatus::Terminated => "Terminated"@,
    }
}

impl ReachabilityStatus {
    /// The status's name, as `Display` writes it.
    pub fn to_display_string(&self) -> (r: String)
        ensures
            r@ == status_text(*self),
    {
        match self {
            ReachabilityStatus::Reachable => crate::decimal::owned_text("Reachable"),
            ReachabilityStatus::Unreachable => crate::decimal::owned_text("Unreachable"),
            ReachabilityStatus::Terminated => crate::decimal::owned_text("Terminated"),
        }
    }
}

/// One observation: `observer` sees `subject` with `status`, recorded at the
/// observer's `version`.
#[derive(Debug)]
pub struct Record {
    pub observer: UniqueAddress,
    pub subject: UniqueAddress,
    pub status: ReachabilityStatus,
    pub version: i64,
}

/// What a record stands for.
pub struct RecordView {
    pub observer: UniqueAddressView,
    pub subject: UniqueAddressView,
    pub status: ReachabilityStatus,
    pub version: i64,
}

impl View for Record {
    type V = RecordView;

    open spec fn view(&self) -> RecordView {
        RecordView {
            observer: self.observer@,
            subject: self.subject@,
            status: self.status,
            version: self.version,
        }
    }
}

impl Clone for Record {
    fn clone(&self) -> (r: Self)
        ensures
            r@ == self@,
    {
        Record {
            observer: self.observer.clone(),
            subject: self.subject.clone(),
            status: self.status,
            version: self.version,
        }
    }
}

impl Record {
    pub fn new(
        observer: UniqueAddress,
        subject: UniqueAddress,
        status: ReachabilityStatus,
        version: i64,
    ) -> (r: Record)
        ensures
            r@ == (RecordView { observer: observer@, subject: subject@, status, version }),
    {
        Record { observer, subject, status, version }
    }

    /// Whether two records are equal in every field.
    pub fn same_as(&self, other: &Record) -> (r: bool)
        ensures
            r == (self@ == other@),
    {
        self.status == other.status && self.version == other.version
            && self.observer.same_as(&other.observer) && self.subject.same_as(&other.subject)
    }
}

/// The views of a sequence of records.
pub open spec fn record_views(v: Seq<Record>) -> Seq<RecordView> {
    Seq::new(v.len(), |i: int| v[i]@)
}

/// No (observer, subject) pair is recorded twice.
pub open spec fn pairs_unique(rs: Seq<RecordView>) -> bool {
    forall|i: int, j: int|
        0 <= i < j < rs.len() ==> !(#[trigger] rs[i].observer == #[trigger] rs[j].observer
            && rs[i].subject == rs[j].subject)
}

/// Some record of `observer` about `subject` exists.
pub open spec fn has_record(rs: Seq<RecordView>, o: UniqueAddressView, s: UniqueAddressView) -> bool {
    exists|i: int| 0 <= i < rs.len() && rs[i].observer == o && rs[i].subject == s
}

/// The status `o` reports for `s`: the recorded one, `Reachable` if none.
pub open spec fn status_of(rs: Seq<RecordView>, o: UniqueAddressView, s: UniqueAddressView) -> ReachabilityStatus {
    if has_record(rs, o, s) {
        rs[choose|i: int| 0 <= i < rs.len() && rs[i].observer == o && rs[i].subject == s].status
    } else {
        ReachabilityStatus::Reachable
    }
}

/// `o` has recorded anything.
pub open spec fn has_rows(rs: Seq<RecordView>, o: UniqueAddressView) -> bool {
    exists|i: int| 0 <= i < rs.len() && rs[i].observer == o
}

/// Subjects some observer reports with status `st`.
pub open spec fn subjects_with(rs: Seq<RecordView>, st: ReachabilityStatus) -> Set<UniqueAddressView> {
    Set::new(|u: UniqueAddressView| exists|i: int| 0 <= i < rs.len() && rs[i].subject == u && rs[i].status == st)
}

/// Subjects some observer reports terminated.
pub open spec fn terminated_set(rs: Seq<RecordView>) -> Set<UniqueAddressView> {
    subjects_with(rs, ReachabilityStatus::Terminated)
}

/// Subjects some observer reports unreachable and none reports terminated.
pub open spec fn unreachable_set(rs: Seq<RecordView>) -> Set<UniqueAddressView> {
    subjects_with(rs, ReachabilityStatus::Unreachable).difference(terminated_set(rs))
}

/// Subjects reported unreachable or terminated.
pub open spec fn unreachable_or_terminated_set(rs: Seq<RecordView>) -> Set<UniqueAddressView> {
    unreachable_set(rs).union(terminated_set(rs))
}

/// Members held by a vector without repeats, standing for the set `s`.
pub open spec fn holds_set(v: Seq<UniqueAddress>, s: Set<UniqueAddressView>) -> bool {
    addr_views(v).no_duplicates() && addr_views(v).to_set() == s
}

/// Aggregated views of the records, kept beside them.
struct Cache {
    all_unreachable: Vec<UniqueAddress>,
    all_terminated: Vec<UniqueAddress>,
    all_unreachable_or_terminated: Vec<UniqueAddress>,
}

spec fn cache_matches(c: Cache, rs: Seq<RecordView>) -> bool {
    &&& holds_set(c.all_unreachable@, unreachable_set(rs))
    &&& holds_set(c.all_terminated@, terminated_set(rs))
    &&& holds_set(c.all_unreachable_or_terminated@, unreachable_or_terminated_set(rs))
}

proof fn lemma_subjects_step(rs: Seq<RecordView>, i: int, st: ReachabilityStatus)
    requires
        0 <= i < rs.len(),
    ensures
        subjects_with(rs.take(i + 1), st) == (if rs[i].status == st {
            subjects_with(rs.take(i), st).insert(rs[i].subject)
        } else {
            subjects_with(rs.take(i), st)
        }),
{
    let a = rs.take(i);
    let b = rs.take(i + 1);
    assert forall|u: UniqueAddressView| #[trigger] subjects_with(b, st).contains(u) == (if rs[i].status == st {
        subjects_with(a, st).insert(rs[i].subject)
    } else {
        subjects_with(a, st)
    }).contains(u) by {
        if subjects_with(b, st).contains(u) {
            let x = choose|x: int| 0 <= x < b.len() && b[x].subject == u && b[x].status == st;
            if x < i {
                assert(a[x] == b[x]);
            }
        }
        if subjects_with(a, st).contains(u) {
            let x = choose|x: int| 0 <= x < a.len() && a[x].subject == u && a[x].status == st;
            assert(b[x] == a[x]);
        }
        if rs[i].status == st && u == rs[i].subject {
            assert(b[i] == rs[i]);
        }
    }
    assert(subjects_with(b, st) =~= (if rs[i].status == st {
        subjects_with(a, st).insert(rs[i].subject)
    } else {
        subjects_with(a, st)
    }));
}

impl Cache {
    fn new(records: &Vec<Record>) -> (c: Cache)
        ensures
            cache_matches(c, record_views(records@)),
    {
        let ghost rs = record_views(records@);
        let mut unreachable: Vec<UniqueAddress> = Vec::new();
        let mut terminated: Vec<UniqueAddress> = Vec::new();
        let mut i: usize = 0;
        proof {
            assert(addr_views(unreachable@) =~= Seq::<UniqueAddressView>::empty());
            assert(subjects_with(rs.take(0), ReachabilityStatus::Unreachable) =~= Set::<UniqueAddressView>::empty());
            assert(subjects_with(rs.take(0), ReachabilityStatus::Terminated) =~= Set::<UniqueAddressView>::empty());
            assert(addr_views(unreachable@).to_set() =~= Set::<UniqueAddressView>::empty());
        }
        while i < records.len()
            invariant
                rs == record_views(records@),
                i <= records@.len(),
                holds_set(unreachable@, subjects_with(rs.take(i as int), ReachabilityStatus::Unreachable)),
                holds_set(terminated@, subjects_with(rs.take(i as int), ReachabilityStatus::Terminated)),
            decreases records.len() - i,
        {
            proof {
                lemma_subjects_step(rs, i as int, ReachabilityStatus::Unreachable);
                lemma_subjects_step(rs, i as int, ReachabilityStatus::Terminated);
                assert(rs[i as int] == records@[i as int]@);
            }
            match records[i].status {
                ReachabilityStatus::Reachable => {}
                ReachabilityStatus::Unreachable => {
                    insert_addr(&mut unreachable, &records[i].subject);
                }
                ReachabilityStatus::Terminated => {
                    insert_addr(&mut terminated, &records[i].subject);
                }
            }
            i = i + 1;
        }
        proof {
            assert(rs.take(records@.len() as int) =~= rs);
        }
        // all_unreachable: those not terminated
        let mut all_unreachable: Vec<UniqueAddress> = Vec::new();
        let mut j: usize = 0;
        let ghost raw = subjects_with(rs, ReachabilityStatus::Unreachable);
        let ghost term = terminated_set(rs);
        proof {
            assert(addr_views(all_unreachable@) =~= Seq::<UniqueAddressView>::empty());
            assert(addr_views(all_unreachable@).to_set() =~= Set::<UniqueAddressView>::empty());
            assert(addr_views(unreachable@).take(0).to_set() =~= Set::<UniqueAddressView>::empty());
        }
        while j < unreachable.len()
            invariant
                j <= unreachable@.len(),
                holds_set(unreachable@, raw),
                holds_set(terminated@, term),
                addr_views(all_unreachable@).no_duplicates(),
                addr_views(all_unreachable@).to_set()
                    == addr_views(unreachable@).take(j as int).to_set().difference(term),
            decreases unreachable.len() - j,
        {
            let ghost t0 = addr_views(unreachable@).take(j as int);
            let ghost t1 = addr_views(unreachable@).take(j + 1);
            let ghost u = unreachable@[j as int]@;
            proof {
                assert(t1 =~= t0.push(u));
                assert forall|x: UniqueAddressView| #[trigger] t1.to_set().contains(x) == t0.to_set().insert(u).contains(x) by {
                    if t1.contains(x) {
                        let k = choose|k: int| 0 <= k < t1.len() && t1[k] == x;
                        if k < t0.len() { assert(t0[k] == x); }
                    }
                    if t0.contains(x) {
                        let k = choose|k: int| 0 <= k < t0.len() && t0[k] == x;
                        assert(t1[k] == x);
                    }
                    if x == u { assert(t1[j as int] == x); }
                }
                assert(t1.to_set() =~= t0.to_set().insert(u));
            }
            if !contains_addr(&terminated, &unreachable[j]) {
                insert_addr(&mut all_unreachable, &unreachable[j]);
                proof {
                    assert(addr_views(all_unreachable@).to_set() =~= t1.to_set().difference(term));
                }
            } else {
                proof {
                    assert(addr_views(all_unreachable@).to_set() =~= t1.to_set().difference(term));
                }
            }
            j = j + 1;
        }
        proof {
            assert(addr_views(unreachable@).take(unreachable@.len() as int) =~= addr_views(unreachable@));
            assert(addr_views(all_unreachable@).to_set() =~= unreachable_set(rs));
        }
        let mut all_unreachable_or_terminated = clone_addrs(&all_unreachable);
        if terminated.len() > 0 {
            extend_addrs(&mut all_unreachable_or_terminated, &terminated);
        } else {
            proof {
                assert(addr_views(terminated@) =~= Seq::<UniqueAddressView>::empty());
                assert(term =~= Set::<UniqueAddressView>::empty());
            }
        }
        proof {
            assert(addr_views(all_unreachable_or_terminated@).to_set() =~= unreachable_or_terminated_set(rs));
        }
        Cache {
            all_unreachable,
            all_terminated: terminated,
            all_unreachable_or_terminated,
        }
    }
}


proof fn lemma_status_at(rs: Seq<RecordView>, i: int)
    requires
        pairs_unique(rs),
        0 <= i < rs.len(),
    ensures
        has_record(rs, rs[i].observer, rs[i].subject),
        status_of(rs, rs[i].observer, rs[i].subject) == rs[i].status,
{
    let o = rs[i].observer;
    let s = rs[i].subject;
    assert(has_record(rs, o, s));
    let c = choose|c: int| 0 <= c < rs.len() && rs[c].observer == o && rs[c].subject == s;
    if c < i {
        assert(!(rs[c].observer == rs[i].observer && rs[c].subject == rs[i].subject));
    } else if i < c {
        assert(!(rs[i].observer == rs[c].observer && rs[i].subject == rs[c].subject));
    }
}

/// The reachability table.
pub struct Reachability {
    records: Vec<Record>,
    versions: Vec<(UniqueAddress, i64)>,
    cache: Cache,
}

/// What a reachability table stands for: its records, in order, and the
/// version of each observer.
pub struct ReachabilityView {
    pub records: Seq<RecordView>,
    pub versions: Map<UniqueAddressView, i64>,
}

impl View for Reachability {
    type V = ReachabilityView;

    closed spec fn view(&self) -> ReachabilityView {
        ReachabilityView {
            records: record_views(self.records@),
            versions: assoc_map(version_views(self.versions@)),
        }
    }
}

impl Reachability {
    /// The records as values.
    pub closed spec fn record_values(&self) -> Seq<Record> {
        self.records@
    }

    #[verifier::type_invariant]
    closed spec fn wf(self) -> bool {
        &&& pairs_unique(record_views(self.records@))
        &&& keys_unique(version_views(self.versions@))
        &&& cache_matches(self.cache, record_views(self.records@))
    }

    /// A table of the given records and observer versions; no pair of
    /// observer and subject is recorded twice, and no observer has two
    /// versions (as for the maps that hold them).  Every table is built so,
    /// by `empty` and by the reports, merges and removals that derive one
    /// table from another, so the rows of an observer are exactly its
    /// records, one for each subject (see `observer_rows`).
    pub fn new(records: Vec<Record>, versions: Vec<(UniqueAddress, i64)>) -> (r: Reachability)
        requires
            pairs_unique(record_views(records@)),
            keys_unique(version_views(versions@)),
        ensures
            r@.records == record_views(records@),
            r@.versions == assoc_map(version_views(versions@)),
            pairs_unique(r@.records),
    {
        let cache = Cache::new(&records);
        Reachability { records, versions, cache }
    }

    /// The table with no records and no versions.
    pub fn empty() -> (r: Reachability)
        ensures
            r@.records == Seq::<RecordView>::empty(),
            r@.versions == Map::<UniqueAddressView, i64>::empty(),
            pairs_unique(r@.records),
    {
        let records: Vec<Record> = Vec::new();
        let versions: Vec<(UniqueAddress, i64)> = Vec::new();
        proof {
            assert(record_views(records@) =~= Seq::<RecordView>::empty());
            assert(version_views(versions@) =~= Seq::<(UniqueAddressView, i64)>::empty());
            assert(assoc_map(version_views(versions@)) =~= Map::<UniqueAddressView, i64>::empty());
        }
        Self::new(records, versions)
    }

    /// The records, in order.
    pub fn records(&self) -> (r: &Vec<Record>)
        ensures
            record_views(r@) == self@.records,
            r@ == self.record_values(),
            pairs_unique(self@.records),
    {
        proof { use_type_invariant(self); }
        &self.records
    }

    /// The observer versions.
    pub fn versions(&self) -> (r: &Vec<(UniqueAddress, i64)>)
        ensures
            keys_unique(version_views(r@)),
            assoc_map(version_views(r@)) == self@.versions,
    {
        proof { use_type_invariant(self); }
        &self.versions
    }

    /// The version of `observer`, 0 if it has none.
    pub fn current_version(&self, observer: &UniqueAddress) -> (r: i64)
        ensures
            r == version_or_zero(self@.versions, observer@),
    {
        proof { use_type_invariant(self); }
        version_of(&self.versions, observer)
    }

    /// The version an observer's next change gets.
    pub fn next_version(&self, observer: &UniqueAddress) -> (r: i64)
        requires
            version_or_zero(self@.versions, observer@) < i64::MAX,
        ensures
            r == version_or_zero(self@.versions, observer@) + 1,
    {
        self.current_version(observer) + 1
    }

    /// Index of the record of `observer` about `subject`, if any.
    fn find_record(&self, observer: &UniqueAddress, subject: &UniqueAddress) -> (r: Option<usize>)
        ensures
            r is None <==> !has_record(self@.records, observer@, subject@),
            r matches Some(i) ==> i < self@.records.len() && self@.records[i as int].observer == observer@
                && self@.records[i as int].subject == subject@
                && status_of(self@.records, observer@, subject@) == self@.records[i as int].status,
    {
        proof { use_type_invariant(self); }
        let ghost rs = self@.records;
        let mut i: usize = 0;
        while i < self.records.len()
            invariant
                rs == record_views(self.records@),
                pairs_unique(rs),
                i <= rs.len(),
                forall|x: int| 0 <= x < i ==> !(rs[x].observer == observer@ && rs[x].subject == subject@),
            decreases self.records.len() - i,
        {
            assert(rs[i as int] == self.records@[i as int]@);
            if self.records[i].observer.same_as(observer) && self.records[i].subject.same_as(subject) {
                proof { lemma_status_at(rs, i as int); }
                return Some(i);
            }
            i = i + 1;
        }
        None
    }

    /// Whether `observer` has recorded anything.
    fn observer_has_rows(&self, observer: &UniqueAddress) -> (r: bool)
        ensures
            r == has_rows(self@.records, observer@),
    {
        let ghost rs = self@.records;
        let mut i: usize = 0;
        while i < self.records.len()
            invariant
                rs == record_views(self.records@),
                i <= rs.len(),
                forall|x: int| 0 <= x < i ==> rs[x].observer != observer@,
            decreases self.records.len() - i,
        {
            assert(rs[i as int] == self.records@[i as int]@);
            if self.records[i].observer.same_as(observer) {
                return true;
            }
            i = i + 1;
        }
        false
    }

    /// The status `observer` reports for `subject` (`Reachable` if none).
    pub fn status(&self, observer: &UniqueAddress, subject: &UniqueAddress) -> (r: ReachabilityStatus)
        ensures
            r == status_of(self@.records, observer@, subject@),
    {
        match self.find_record(observer, subject) {
            Some(i) => self.records[i].status,
            None => ReachabilityStatus::Reachable,
        }
    }

    /// The aggregated status of `node` over all observers: terminated if any
    /// observer says so, else unreachable if any says so, else reachable.
    pub fn status_by_node(&self, node: &UniqueAddress) -> (r: ReachabilityStatus)
        ensures
            r == (if terminated_set(self@.records).contains(node@) {
                ReachabilityStatus::Terminated
            } else if unreachable_set(self@.records).contains(node@) {
                ReachabilityStatus::Unreachable
            } else {
                ReachabilityStatus::Reachable
            }),
    {
        proof { use_type_invariant(self); }
        if contains_addr(&self.cache.all_terminated, node) {
            ReachabilityStatus::Terminated
        } else if contains_addr(&self.cache.all_unreachable, node) {
            ReachabilityStatus::Unreachable
        } else {
            ReachabilityStatus::Reachable
        }
    }

    /// Whether there are no records at all.
    pub fn is_all_unreachable(&self) -> (r: bool)
        ensures
            r == (self@.records.len() == 0),
    {
        self.records.len() == 0
    }

    /// Whether `node` counts as reachable: no observer reports it
    /// unreachable or terminated (or there are no records).
    pub fn is_reachable_by_node(&self, node: &UniqueAddress) -> (r: bool)
        ensures
            r == (self@.records.len() == 0 || !unreachable_or_terminated_set(self@.records).contains(node@)),
    {
        proof { use_type_invariant(self); }
        self.is_all_unreachable() || !contains_addr(&self.cache.all_unreachable_or_terminated, node)
    }

    /// Whether `observer` reports `subject` reachable.
    pub fn is_reachable(&self, observer: &UniqueAddress, subject: &UniqueAddress) -> (r: bool)
        ensures
            r == (status_of(self@.records, observer@, subject@) == ReachabilityStatus::Reachable),
    {
        self.status(observer, subject) == ReachabilityStatus::Reachable
    }

    /// Subjects reported unreachable and not terminated.
    pub fn all_unreachable(&self) -> (r: &Vec<UniqueAddress>)
        ensures
            holds_set(r@, unreachable_set(self@.records)),
    {
        proof { use_type_invariant(self); }
        &self.cache.all_unreachable
    }

    /// Subjects reported unreachable or terminated.
    pub fn all_unreachable_or_terminated(&self) -> (r: &Vec<UniqueAddress>)
        ensures
            holds_set(r@, unreachable_or_terminated_set(self@.records)),
    {
        proof { use_type_invariant(self); }
        &self.cache.all_unreachable_or_terminated
    }
}


/// Every record of `o` is `Reachable`, or is about `except`.
pub open spec fn rows_reachable_except(rs: Seq<RecordView>, o: UniqueAddressView, except: Option<UniqueAddressView>) -> bool {
    forall|i: int| 0 <= i < rs.len() && rs[i].observer == o ==>
        (rs[i].status == ReachabilityStatus::Reachable || except == Some(rs[i].subject))
}

/// How a table changes when an observer reports a status.
pub enum ChangeStep {
    Keep,
    Append,
    DropObserver,
    Replace,
}

/// The step that reporting `st` for `s` by `o` takes: a report of
/// `Reachable` by an observer without records changes nothing; a report
/// that leaves all of the observer's records `Reachable` drops them all; a
/// terminated record or an unchanged status stays as it is.
pub open spec fn change_step(rs: Seq<RecordView>, o: UniqueAddressView, s: UniqueAddressView, st: ReachabilityStatus) -> ChangeStep {
    if !has_rows(rs, o) {
        if st == ReachabilityStatus::Reachable { ChangeStep::Keep } else { ChangeStep::Append }
    } else if !has_record(rs, o, s) {
        if st == ReachabilityStatus::Reachable && rows_reachable_except(rs, o, None) {
            ChangeStep::DropObserver
        } else {
            ChangeStep::Append
        }
    } else {
        let old = status_of(rs, o, s);
        if old == ReachabilityStatus::Terminated || old == st {
            ChangeStep::Keep
        } else if st == ReachabilityStatus::Reachable && rows_reachable_except(rs, o, Some(s)) {
            ChangeStep::DropObserver
        } else {
            ChangeStep::Replace
        }
    }
}

/// Index of the record of `o` about `s`.
pub open spec fn record_index(rs: Seq<RecordView>, o: UniqueAddressView, s: UniqueAddressView) -> int {
    choose|i: int| 0 <= i < rs.len() && rs[i].observer == o && rs[i].subject == s
}

/// The records without those of observer `o`.
pub open spec fn without_observer(rs: Seq<RecordView>, o: UniqueAddressView) -> Seq<RecordView> {
    rs.filter(|r: RecordView| r.observer != o)
}

/// The records after `o` reports `st` for `s` at version `v`.
pub open spec fn changed_records(rs: Seq<RecordView>, o: UniqueAddressView, s: UniqueAddressView, st: ReachabilityStatus, v: i64) -> Seq<RecordView> {
    let rec = RecordView { observer: o, subject: s, status: st, version: v };
    match change_step(rs, o, s, st) {
        ChangeStep::Keep => rs,
        ChangeStep::Append => rs.push(rec),
        ChangeStep::DropObserver => without_observer(rs, o),
        ChangeStep::Replace => rs.update(record_index(rs, o, s), rec),
    }
}

/// The versions after `o` reports: its version goes up by one, unless
/// nothing changes.
pub open spec fn changed_versions(rs: Seq<RecordView>, vs: Map<UniqueAddressView, i64>, o: UniqueAddressView, s: UniqueAddressView, st: ReachabilityStatus) -> Map<UniqueAddressView, i64> {
    match change_step(rs, o, s, st) {
        ChangeStep::Keep => vs,
        _ => vs.insert(o, (version_or_zero(vs, o) + 1) as i64),
    }
}

pub proof fn lemma_filter_unique(rs: Seq<RecordView>, pred: spec_fn(RecordView) -> bool)
    requires
        pairs_unique(rs),
    ensures
        pairs_unique(rs.filter(pred)),
    decreases rs.len(),
{
    reveal(Seq::filter);
    if rs.len() > 0 {
        let t = rs.drop_last();
        assert(pairs_unique(t)) by {
            assert forall|i: int, j: int| 0 <= i < j < t.len() implies !(#[trigger] t[i].observer == #[trigger] t[j].observer && t[i].subject == t[j].subject) by {
                assert(t[i] == rs[i] && t[j] == rs[j]);
            }
        }
        lemma_filter_unique(t, pred);
        if pred(rs.last()) {
            let f = t.filter(pred);
            crate::seq_facts::lemma_filter_members(t, pred);
            let g = f.push(rs.last());
            assert forall|i: int, j: int| 0 <= i < j < g.len() implies !(#[trigger] g[i].observer == #[trigger] g[j].observer && g[i].subject == g[j].subject) by {
                if j < f.len() {
                    assert(g[i] == f[i] && g[j] == f[j]);
                } else {
                    assert(g[i] == f[i]);
                    assert(f.contains(f[i]));
                    assert(t.contains(f[i]));
                    let k = choose|k: int| 0 <= k < t.len() && t[k] == f[i];
                    assert(rs[k] == t[k]);
                    assert(!(rs[k].observer == rs[rs.len() - 1].observer && rs[k].subject == rs[rs.len() - 1].subject));
                }
            }
        }
    }
}

/// A copy of a vector of records.
fn clone_records(v: &Vec<Record>) -> (r: Vec<Record>)
    ensures
        record_views(r@) == record_views(v@),
{
    let mut r: Vec<Record> = Vec::new();
    let mut i: usize = 0;
    while i < v.len()
        invariant
            i <= v@.len(),
            record_views(r@) == record_views(v@).take(i as int),
        decreases v.len() - i,
    {
        let c = v[i].clone();
        let ghost before = r@;
        r.push(c);
        proof {
            assert(record_views(before).len() == before.len());
            assert(record_views(r@) =~= record_views(v@).take(i + 1)) by {
                assert forall|k: int| 0 <= k < i + 1 implies #[trigger] record_views(r@)[k] == record_views(v@).take(i + 1)[k] by {
                    if k < i {
                        assert(record_views(before)[k] == record_views(v@).take(i as int)[k]);
                        assert(r@[k] == before[k]);
                    } else {
                        assert(r@[k] == c);
                    }
                }
            }
        }
        i = i + 1;
    }
    assert(record_views(v@).take(v@.len() as int) =~= record_views(v@));
    r
}

/// A copy of a vector of observer versions.
fn clone_versions(v: &Vec<(UniqueAddress, i64)>) -> (r: Vec<(UniqueAddress, i64)>)
    ensures
        version_views(r@) == version_views(v@),
{
    let mut r: Vec<(UniqueAddress, i64)> = Vec::new();
    let mut i: usize = 0;
    while i < v.len()
        invariant
            i <= v@.len(),
            version_views(r@) == version_views(v@).take(i as int),
        decreases v.len() - i,
    {
        let c = (v[i].0.clone(), v[i].1);
        let ghost before = r@;
        r.push(c);
        proof {
            assert(version_views(before).len() == before.len());
            assert(version_views(r@) =~= version_views(v@).take(i + 1)) by {
                assert forall|k: int| 0 <= k < i + 1 implies #[trigger] version_views(r@)[k] == version_views(v@).take(i + 1)[k] by {
                    if k < i {
                        assert(version_views(before)[k] == version_views(v@).take(i as int)[k]);
                        assert(r@[k] == before[k]);
                    } else {
                        assert(r@[k] == c);
                    }
                }
            }
        }
        i = i + 1;
    }
    assert(version_views(v@).take(v@.len() as int) =~= version_views(v@));
    r
}

/// The records for which `keep` holds, in order.
fn records_where_observer_not(v: &Vec<Record>, o: &UniqueAddress) -> (r: Vec<Record>)
    ensures
        record_views(r@) == without_observer(record_views(v@), o@),
{
    let ghost rs = record_views(v@);
    let ghost pred = |x: RecordView| x.observer != o@;
    let mut r: Vec<Record> = Vec::new();
    let mut i: usize = 0;
    proof {
        crate::seq_facts::lemma_filter_empty(rs, pred);
        assert(record_views(r@) =~= Seq::<RecordView>::empty());
    }
    while i < v.len()
        invariant
            rs == record_views(v@),
            pred == (|x: RecordView| x.observer != o@),
            i <= v@.len(),
            record_views(r@) == rs.take(i as int).filter(pred),
        decreases v.len() - i,
    {
        proof {
            crate::seq_facts::lemma_filter_step(rs, pred, i as int);
            assert(rs[i as int] == v@[i as int]@);
        }
        if !v[i].observer.same_as(o) {
            let c = v[i].clone();
            let ghost before = r@;
            r.push(c);
            proof {
                assert(record_views(before).len() == before.len());
                assert(record_views(r@) =~= record_views(before).push(c@)) by {
                    assert forall|k: int| 0 <= k < r@.len() implies #[trigger] record_views(r@)[k] == record_views(before).push(c@)[k] by {
                        if k < before.len() { assert(r@[k] == before[k]); } else { assert(r@[k] == c); }
                    }
                }
            }
        }
        i = i + 1;
    }
    proof { crate::seq_facts::lemma_take_all(rs); }
    r
}

impl Clone for Reachability {
    fn clone(&self) -> (r: Self)
        ensures
            r@.records == self@.records,
            r@.versions == self@.versions,
    {
        proof { use_type_invariant(self); }
        Reachability::new(clone_records(&self.records), clone_versions(&self.versions))
    }
}

impl Reachability {
    /// Whether all records of `observer` are `Reachable`, except any about
    /// `except`.
    fn rows_reachable(&self, observer: &UniqueAddress, except: Option<&UniqueAddress>) -> (r: bool)
        ensures
            r == rows_reachable_except(self@.records, observer@, match except { Some(e) => Some(e@), None => None }),
    {
        let ghost rs = self@.records;
        let ghost ex = match except { Some(e) => Some(e@), None => None::<UniqueAddressView> };
        let mut i: usize = 0;
        while i < self.records.len()
            invariant
                rs == record_views(self.records@),
                ex == (match except { Some(e) => Some(e@), None => None::<UniqueAddressView> }),
                i <= rs.len(),
                forall|x: int| 0 <= x < i && rs[x].observer == observer@ ==>
                    (rs[x].status == ReachabilityStatus::Reachable || ex == Some(rs[x].subject)),
            decreases self.records.len() - i,
        {
            assert(rs[i as int] == self.records@[i as int]@);
            if self.records[i].observer.same_as(observer) && self.records[i].status != ReachabilityStatus::Reachable {
                let excepted = match except {
                    Some(e) => self.records[i].subject.same_as(e),
                    None => false,
                };
                if !excepted {
                    return false;
                }
            }
            i = i + 1;
        }
        true
    }

    /// The table after `observer` reports `status` for `subject`.
    pub fn change(&self, observer: &UniqueAddress, subject: &UniqueAddress, status: ReachabilityStatus) -> (r: Reachability)
        requires
            version_or_zero(self@.versions, observer@) < i64::MAX,
        ensures
            r@.records == changed_records(self@.records, observer@, subject@, status,
                (version_or_zero(self@.versions, observer@) + 1) as i64),
            r@.versions == changed_versions(self@.records, self@.versions, observer@, subject@, status),
            pairs_unique(r@.records),
    {
        proof { use_type_invariant(self); }
        let ghost rs = self@.records;
        let v = self.next_version(observer);
        let mut new_versions = clone_versions(&self.versions);
        set_version(&mut new_versions, observer, v);
        let new_record = Record::new(observer.clone(), subject.clone(), status, v);
        let ghost rec = new_record@;
        if !self.observer_has_rows(observer) {
            if status == ReachabilityStatus::Reachable {
                return self.clone();
            }
            let mut records = clone_records(&self.records);
            let ghost before = records@;
            records.push(new_record);
            proof {
                assert(record_views(before).len() == before.len());
                assert(record_views(records@) =~= rs.push(rec)) by {
                    assert forall|k: int| 0 <= k < records@.len() implies #[trigger] record_views(records@)[k] == rs.push(rec)[k] by {
                        if k < before.len() { assert(records@[k] == before[k]); }
                    }
                }
                self.lemma_append_unique(observer@, subject@, status, v);
            }
            return Reachability::new(records, new_versions);
        }
        match self.find_record(observer, subject) {
            None => {
                if status == ReachabilityStatus::Reachable && self.rows_reachable(observer, None) {
                    let records = records_where_observer_not(&self.records, observer);
                    proof { lemma_filter_unique(rs, |x: RecordView| x.observer != observer@); }
                    Reachability::new(records, new_versions)
                } else {
                    let mut records = clone_records(&self.records);
                    let ghost before = records@;
                    records.push(new_record);
                    proof {
                        assert(record_views(before).len() == before.len());
                        assert(record_views(records@) =~= rs.push(rec)) by {
                            assert forall|k: int| 0 <= k < records@.len() implies #[trigger] record_views(records@)[k] == rs.push(rec)[k] by {
                                if k < before.len() { assert(records@[k] == before[k]); }
                            }
                        }
                        self.lemma_append_unique(observer@, subject@, status, v);
                    }
                    Reachability::new(records, new_versions)
                }
            }
            Some(i) => {
                let old_status = self.records[i].status;
                proof { assert(rs[i as int] == self.records@[i as int]@); }
                if old_status == ReachabilityStatus::Terminated || old_status == status {
                    self.clone()
                } else if status == ReachabilityStatus::Reachable && self.rows_reachable(observer, Some(subject)) {
                    let records = records_where_observer_not(&self.records, observer);
                    proof { lemma_filter_unique(rs, |x: RecordView| x.observer != observer@); }
                    Reachability::new(records, new_versions)
                } else {
                    let mut records = clone_records(&self.records);
                    let ghost before = records@;
                    records.set(i, new_record);
                    proof {
                        assert(record_views(before).len() == before.len());
                        let idx = record_index(rs, observer@, subject@);
                        assert(idx == i) by {
                            if idx != i as int {
                                if idx < i as int {
                                    assert(!(rs[idx].observer == rs[i as int].observer && rs[idx].subject == rs[i as int].subject));
                                } else {
                                    assert(!(rs[i as int].observer == rs[idx].observer && rs[i as int].subject == rs[idx].subject));
                                }
                            }
                        }
                        assert(record_views(records@) =~= rs.update(i as int, rec)) by {
                            assert forall|k: int| 0 <= k < records@.len() implies #[trigger] record_views(records@)[k] == rs.update(i as int, rec)[k] by {
                                if k != i { assert(records@[k] == before[k]); }
                            }
                        }
                        let u = rs.update(i as int, rec);
                        assert forall|x: int, y: int| 0 <= x < y < u.len() implies !(#[trigger] u[x].observer == #[trigger] u[y].observer && u[x].subject == u[y].subject) by {
                            assert(!(rs[x].observer == rs[y].observer && rs[x].subject == rs[y].subject));
                        }
                    }
                    Reachability::new(records, new_versions)
                }
            }
        }
    }

    proof fn lemma_append_unique(&self, o: UniqueAddressView, s: UniqueAddressView, st: ReachabilityStatus, v: i64)
        requires
            pairs_unique(self@.records),
            !has_record(self@.records, o, s),
        ensures
            pairs_unique(self@.records.push(RecordView { observer: o, subject: s, status: st, version: v })),
    {
        let rs = self@.records;
        let u = rs.push(RecordView { observer: o, subject: s, status: st, version: v });
        assert forall|x: int, y: int| 0 <= x < y < u.len() implies !(#[trigger] u[x].observer == #[trigger] u[y].observer && u[x].subject == u[y].subject) by {
            if y < rs.len() {
                assert(u[x] == rs[x] && u[y] == rs[y]);
            } else {
                assert(u[x] == rs[x]);
            }
        }
    }

    /// `observer` reports `subject` unreachable.
    pub fn unreachable(&self, observer: &UniqueAddress, subject: &UniqueAddress) -> (r: Reachability)
        requires
            version_or_zero(self@.versions, observer@) < i64::MAX,
        ensures
            r@.records == changed_records(self@.records, observer@, subject@, ReachabilityStatus::Unreachable,
                (version_or_zero(self@.versions, observer@) + 1) as i64),
            r@.versions == changed_versions(self@.records, self@.versions, observer@, subject@, ReachabilityStatus::Unreachable),
            pairs_unique(r@.records),
    {
        self.change(observer, subject, ReachabilityStatus::Unreachable)
    }

    /// `observer` reports `subject` reachable.
    pub fn reachable(&self, observer: &UniqueAddress, subject: &UniqueAddress) -> (r: Reachability)
        requires
            version_or_zero(self@.versions, observer@) < i64::MAX,
        ensures
            r@.records == changed_records(self@.records, observer@, subject@, ReachabilityStatus::Reachable,
                (version_or_zero(self@.versions, observer@) + 1) as i64),
            r@.versions == changed_versions(self@.records, self@.versions, observer@, subject@, ReachabilityStatus::Reachable),
            pairs_unique(r@.records),
    {
        self.change(observer, subject, ReachabilityStatus::Reachable)
    }

    /// `observer` reports `subject` terminated.
    pub fn terminated(&self, observer: &UniqueAddress, subject: &UniqueAddress) -> (r: Reachability)
        requires
            version_or_zero(self@.versions, observer@) < i64::MAX,
        ensures
            r@.records == changed_records(self@.records, observer@, subject@, ReachabilityStatus::Terminated,
                (version_or_zero(self@.versions, observer@) + 1) as i64),
            r@.versions == changed_versions(self@.records, self@.versions, observer@, subject@, ReachabilityStatus::Terminated),
            pairs_unique(r@.records),
    {
        self.change(observer, subject, ReachabilityStatus::Terminated)
    }
}

/// The records touching none of `nodes`, as observer or subject.
fn records_not_touching(v: &Vec<Record>, nodes: &Vec<UniqueAddress>) -> (r: Vec<Record>)
    ensures
        record_views(r@) == record_views(v@).filter(|x: RecordView| !addr_views(nodes@).contains(x.observer) && !addr_views(nodes@).contains(x.subject)),

{
    let ghost rs = record_views(v@);
    let ghost pred = |x: RecordView| !addr_views(nodes@).contains(x.observer) && !addr_views(nodes@).contains(x.subject);
    let mut r: Vec<Record> = Vec::new();
    let mut i: usize = 0;
    proof {
        crate::seq_facts::lemma_filter_empty(rs, pred);
        assert(record_views(r@) =~= Seq::<RecordView>::empty());
    }
    while i < v.len()
        invariant
            rs == record_views(v@),
            pred == (|x: RecordView| !addr_views(nodes@).contains(x.observer) && !addr_views(nodes@).contains(x.subject)),
            i <= v@.len(),
            record_views(r@) == rs.take(i as int).filter(pred),
        decreases v.len() - i,
    {
        proof {
            crate::seq_facts::lemma_filter_step(rs, pred, i as int);
            assert(rs[i as int] == v@[i as int]@);
        }
        if !contains_addr(nodes, &v[i].observer) && !contains_addr(nodes, &v[i].subject) {
            let c = v[i].clone();
            let ghost before = r@;
            r.push(c);
            proof {
                assert(record_views(before).len() == before.len());
                assert(record_views(r@) =~= record_views(before).push(c@)) by {
                    assert forall|k: int| 0 <= k < r@.len() implies #[trigger] record_views(r@)[k] == record_views(before).push(c@)[k] by {
                        if k < before.len() { assert(r@[k] == before[k]); } else { assert(r@[k] == c); }
                    }
                }
            }
        }
        i = i + 1;
    }
    proof { crate::seq_facts::lemma_take_all(rs); }
    r
}

/// The records whose observer is none of `nodes`.
fn records_not_observed_by(v: &Vec<Record>, nodes: &Vec<UniqueAddress>) -> (r: Vec<Record>)
    ensures
        record_views(r@) == record_views(v@).filter(|x: RecordView| !addr_views(nodes@).contains(x.observer)),

{
    let ghost rs = record_views(v@);
    let ghost pred = |x: RecordView| !addr_views(nodes@).contains(x.observer);
    let mut r: Vec<Record> = Vec::new();
    let mut i: usize = 0;
    proof {
        crate::seq_facts::lemma_filter_empty(rs, pred);
        assert(record_views(r@) =~= Seq::<RecordView>::empty());
    }
    while i < v.len()
        invariant
            rs == record_views(v@),
            pred == (|x: RecordView| !addr_views(nodes@).contains(x.observer)),
            i <= v@.len(),
            record_views(r@) == rs.take(i as int).filter(pred),
        decreases v.len() - i,
    {
        proof {
            crate::seq_facts::lemma_filter_step(rs, pred, i as int);
            assert(rs[i as int] == v@[i as int]@);
        }
        if !contains_addr(nodes, &v[i].observer) {
            let c = v[i].clone();
            let ghost before = r@;
            r.push(c);
            proof {
                assert(record_views(before).len() == before.len());
                assert(record_views(r@) =~= record_views(before).push(c@)) by {
                    assert forall|k: int| 0 <= k < r@.len() implies #[trigger] record_views(r@)[k] == record_views(before).push(c@)[k] by {
                        if k < before.len() { assert(r@[k] == before[k]); } else { assert(r@[k] == c); }
                    }
                }
            }
        }
        i = i + 1;
    }
    proof { crate::seq_facts::lemma_take_all(rs); }
    r
}

/// The records of `o` about members of `allowed`.
fn allowed_rows(v: &Vec<Record>, o: &UniqueAddress, allowed: &Vec<UniqueAddress>) -> (r: Vec<Record>)
    ensures
        record_views(r@) == record_views(v@).filter(|x: RecordView| x.observer == o@ && addr_views(allowed@).contains(x.subject)),

{
    let ghost rs = record_views(v@);
    let ghost pred = |x: RecordView| x.observer == o@ && addr_views(allowed@).contains(x.subject);
    let mut r: Vec<Record> = Vec::new();
    let mut i: usize = 0;
    proof {
        crate::seq_facts::lemma_filter_empty(rs, pred);
        assert(record_views(r@) =~= Seq::<RecordView>::empty());
    }
    while i < v.len()
        invariant
            rs == record_views(v@),
            pred == (|x: RecordView| x.observer == o@ && addr_views(allowed@).contains(x.subject)),
            i <= v@.len(),
            record_views(r@) == rs.take(i as int).filter(pred),
        decreases v.len() - i,
    {
        proof {
            crate::seq_facts::lemma_filter_step(rs, pred, i as int);
            assert(rs[i as int] == v@[i as int]@);
        }
        if v[i].observer.same_as(o) && contains_addr(allowed, &v[i].subject) {
            let c = v[i].clone();
            let ghost before = r@;
            r.push(c);
            proof {
                assert(record_views(before).len() == before.len());
                assert(record_views(r@) =~= record_views(before).push(c@)) by {
                    assert forall|k: int| 0 <= k < r@.len() implies #[trigger] record_views(r@)[k] == record_views(before).push(c@)[k] by {
                        if k < before.len() { assert(r@[k] == before[k]); } else { assert(r@[k] == c); }
                    }
                }
            }
        }
        i = i + 1;
    }
    proof { crate::seq_facts::lemma_take_all(rs); }
    r
}


/// Records of `o` about members of `allowed`.
pub open spec fn pick_rows(rs: Seq<RecordView>, o: UniqueAddressView, allowed: Seq<UniqueAddressView>) -> Seq<RecordView> {
    rs.filter(|x: RecordView| x.observer == o && allowed.contains(x.subject))
}

/// The rows of observer `o` that a merge of `a` with `b` takes: those of the
/// side with the higher version of `o` (of `b` on a tie), restricted to
/// allowed subjects; a side without rows of `o` is only taken over when it
/// has the strictly higher version.
pub open spec fn chosen_rows(a: ReachabilityView, b: ReachabilityView, allowed: Seq<UniqueAddressView>, o: UniqueAddressView) -> Seq<RecordView> {
    let v1 = version_or_zero(a.versions, o);
    let v2 = version_or_zero(b.versions, o);
    let h1 = has_rows(a.records, o);
    let h2 = has_rows(b.records, o);
    if h1 && h2 {
        if v1 > v2 { pick_rows(a.records, o, allowed) } else { pick_rows(b.records, o, allowed) }
    } else if h1 {
        if v1 > v2 { pick_rows(a.records, o, allowed) } else { Seq::empty() }
    } else if h2 {
        if v2 > v1 { pick_rows(b.records, o, allowed) } else { Seq::empty() }
    } else {
        Seq::empty()
    }
}

/// The records of a merge, observer by observer in the order of `order`.
pub open spec fn merged_records(order: Seq<UniqueAddressView>, allowed: Seq<UniqueAddressView>, a: ReachabilityView, b: ReachabilityView) -> Seq<RecordView>
    decreases order.len(),
{
    if order.len() == 0 {
        Seq::empty()
    } else {
        merged_records(order.drop_last(), allowed, a, b) + chosen_rows(a, b, allowed, order.last())
    }
}

/// The versions of a merge: for each allowed observer, `b`'s version where
/// it is higher, else `a`'s; observers outside `allowed` are dropped.
pub open spec fn merged_versions(allowed: Seq<UniqueAddressView>, a: Map<UniqueAddressView, i64>, b: Map<UniqueAddressView, i64>) -> Map<UniqueAddressView, i64> {
    Map::new(
        |k: UniqueAddressView| allowed.contains(k) && (a.contains_key(k) || version_or_zero(b, k) > version_or_zero(a, k)),
        |k: UniqueAddressView| if version_or_zero(b, k) > version_or_zero(a, k) { version_or_zero(b, k) } else { a[k] },
    )
}

spec fn raised_versions(prefix: Seq<UniqueAddressView>, a: Map<UniqueAddressView, i64>, b: Map<UniqueAddressView, i64>) -> Map<UniqueAddressView, i64> {
    Map::new(
        |k: UniqueAddressView| a.contains_key(k) || (prefix.contains(k) && version_or_zero(b, k) > version_or_zero(a, k)),
        |k: UniqueAddressView| if prefix.contains(k) && version_or_zero(b, k) > version_or_zero(a, k) { version_or_zero(b, k) } else { a[k] },
    )
}

proof fn lemma_contains_take_step(s: Seq<UniqueAddressView>, i: int, k: UniqueAddressView)
    requires
        0 <= i < s.len(),
    ensures
        s.take(i + 1).contains(k) == (s.take(i).contains(k) || s[i] == k),
{
    let t1 = s.take(i + 1);
    let t0 = s.take(i);
    if t1.contains(k) {
        let j = choose|j: int| 0 <= j < t1.len() && t1[j] == k;
        if j < i { assert(t0[j] == k); }
    }
    if t0.contains(k) {
        let j = choose|j: int| 0 <= j < t0.len() && t0[j] == k;
        assert(t1[j] == k);
    }
    if s[i] == k { assert(s.take(i + 1)[i] == k); }
}

impl Reachability {
    /// Merges `other` into this table, keeping only members of `allowed`
    /// (a set): for each allowed observer the rows of the side with its
    /// higher version are taken.
    pub fn merge(&self, allowed: &Vec<UniqueAddress>, other: &Reachability) -> (r: Reachability)
        requires
            addr_views(allowed@).no_duplicates(),
        ensures
            r@.records == merged_records(addr_views(allowed@), addr_views(allowed@), self@, other@),
            r@.versions == merged_versions(addr_views(allowed@), self@.versions, other@.versions),
            pairs_unique(r@.records),
    {
        proof {
            use_type_invariant(self);
            use_type_invariant(other);
        }
        let ghost al = addr_views(allowed@);
        let ghost a = self@;
        let ghost b = other@;
        let mut records: Vec<Record> = Vec::new();
        let mut new_versions = clone_versions(&self.versions);
        let mut i: usize = 0;
        proof {
            assert(record_views(records@) =~= Seq::<RecordView>::empty());
            assert(al.take(0) =~= Seq::<UniqueAddressView>::empty());
            assert(raised_versions(al.take(0), a.versions, b.versions) =~= a.versions);
        }
        while i < allowed.len()
            invariant
                al == addr_views(allowed@),
                al.no_duplicates(),
                a == self@,
                b == other@,
                pairs_unique(a.records),
                pairs_unique(b.records),
                i <= allowed@.len(),
                record_views(records@) == merged_records(al.take(i as int), al, a, b),
                pairs_unique(record_views(records@)),
                forall|x: int| 0 <= x < record_views(records@).len() ==> al.take(i as int).contains(#[trigger] record_views(records@)[x].observer),
                keys_unique(version_views(new_versions@)),
                assoc_map(version_views(new_versions@)) == raised_versions(al.take(i as int), a.versions, b.versions),
            decreases allowed.len() - i,
        {
            let ghost gi = i as int;
            let o = &allowed[i];
            let ghost ov = o@;
            proof {
                assert(al[gi] == ov);
                assert(al.take(gi + 1).drop_last() =~= al.take(gi));
                assert(al.take(gi + 1).last() == ov);
            }
            let v1 = self.current_version(o);
            let v2 = other.current_version(o);
            let h1 = self.observer_has_rows(o);
            let h2 = other.observer_has_rows(o);
            let take_self: Option<bool> = if h1 && h2 {
                Some(v1 > v2)
            } else if h1 {
                if v1 > v2 { Some(true) } else { None }
            } else if h2 {
                if v2 > v1 { Some(false) } else { None }
            } else {
                None
            };
            let ghost before = record_views(records@);
            match take_self {
                Some(true) => {
                    let mut rows = allowed_rows(&self.records, o, allowed);
                    records.append(&mut rows);
                }
                Some(false) => {
                    let mut rows = allowed_rows(&other.records, o, allowed);
                    records.append(&mut rows);
                }
                None => {}
            }
            proof {
                let after = record_views(records@);
                if take_self is None {
                    assert(after =~= before + Seq::<RecordView>::empty());
                } else {
                    assert(after =~= before + chosen_rows(a, b, al, ov)) by {
                        assert forall|k: int| 0 <= k < after.len() implies #[trigger] after[k] == (before + chosen_rows(a, b, al, ov))[k] by {}
                    }
                }
                assert(after =~= merged_records(al.take(gi + 1), al, a, b));
                self.lemma_merge_unique(other, before, al, gi);
                assert forall|x: int| 0 <= x < after.len() implies al.take(gi + 1).contains(#[trigger] after[x].observer) by {
                    lemma_contains_take_step(al, gi, after[x].observer);
                    if x >= before.len() {
                        let rows = chosen_rows(a, b, al, ov);
                        assert(after[x] == rows[x - before.len()]);
                        crate::seq_facts::lemma_filter_members(a.records, |y: RecordView| y.observer == ov && al.contains(y.subject));
                        crate::seq_facts::lemma_filter_members(b.records, |y: RecordView| y.observer == ov && al.contains(y.subject));
                        assert(rows.contains(rows[x - before.len()]));
                    }
                }
            }
            if v2 > v1 {
                set_version(&mut new_versions, o, v2);
            }
            proof {
                let m = assoc_map(version_views(new_versions@));
                let t = raised_versions(al.take(gi + 1), a.versions, b.versions);
                assert forall|k: UniqueAddressView| #[trigger] m.dom().contains(k) == t.dom().contains(k) by {
                    lemma_contains_take_step(al, gi, k);
                }
                assert(m.dom() =~= t.dom());
                assert forall|k: UniqueAddressView| #[trigger] m.dom().contains(k) implies m[k] == t[k] by {
                    lemma_contains_take_step(al, gi, k);
                }
                assert(m =~= t);
            }
            i = i + 1;
        }
        let kept = retain_versions(&new_versions, allowed, true);
        proof {
            assert(al.take(allowed@.len() as int) =~= al);
            let m = assoc_map(version_views(kept@));
            let t = merged_versions(al, a.versions, b.versions);
            assert(m.dom() =~= t.dom());
            assert(m =~= t);
        }
        Reachability::new(records, kept)
    }

    proof fn lemma_merge_unique(&self, other: &Reachability, before: Seq<RecordView>, al: Seq<UniqueAddressView>, gi: int)
        requires
            al.no_duplicates(),
            0 <= gi < al.len(),
            pairs_unique(self@.records),
            pairs_unique(other@.records),
            pairs_unique(before),
            forall|x: int| 0 <= x < before.len() ==> al.take(gi).contains(#[trigger] before[x].observer),
        ensures
            pairs_unique(before + chosen_rows(self@, other@, al, al[gi])),
    {
        let o = al[gi];
        let rows = chosen_rows(self@, other@, al, o);
        let p = |y: RecordView| y.observer == o && al.contains(y.subject);
        lemma_filter_unique(self@.records, p);
        lemma_filter_unique(other@.records, p);
        crate::seq_facts::lemma_filter_members(self@.records, p);
        crate::seq_facts::lemma_filter_members(other@.records, p);
        let all = before + rows;
        assert forall|x: int, y: int| 0 <= x < y < all.len() implies !(#[trigger] all[x].observer == #[trigger] all[y].observer && all[x].subject == all[y].subject) by {
            if y < before.len() {
                assert(all[x] == before[x] && all[y] == before[y]);
            } else if x >= before.len() {
                assert(all[x] == rows[x - before.len()] && all[y] == rows[y - before.len()]);
            } else {
                assert(all[x] == before[x]);
                assert(all[y] == rows[y - before.len()]);
                assert(rows.contains(rows[y - before.len()]));
                assert(all[y].observer == o);
                assert(al.take(gi).contains(before[x].observer));
                let j = choose|j: int| 0 <= j < gi && al.take(gi)[j] == before[x].observer;
                assert(al[j] == al.take(gi)[j]);
                assert(al[j] != al[gi]);
            }
        }
    }

    /// The table without the given members, as observers or subjects.
    pub fn remove(&self, nodes: &Vec<UniqueAddress>) -> (r: Reachability)
        ensures
            r@.records == self@.records.filter(|x: RecordView| !addr_views(nodes@).contains(x.observer) && !addr_views(nodes@).contains(x.subject)),
            r@.versions == Map::new(
                |k: UniqueAddressView| self@.versions.contains_key(k) && !addr_views(nodes@).contains(k),
                |k: UniqueAddressView| self@.versions[k],
            ),
            pairs_unique(r@.records),
    {
        proof { use_type_invariant(self); }
        let records = records_not_touching(&self.records, nodes);
        let versions = retain_versions(&self.versions, nodes, false);
        proof {
            lemma_filter_unique(self@.records, |x: RecordView| !addr_views(nodes@).contains(x.observer) && !addr_views(nodes@).contains(x.subject));
            let m = assoc_map(version_views(versions@));
            let t = Map::new(
                |k: UniqueAddressView| self@.versions.contains_key(k) && !addr_views(nodes@).contains(k),
                |k: UniqueAddressView| self@.versions[k],
            );
            assert(m.dom() =~= t.dom());
            assert(m =~= t);
        }
        Reachability::new(records, versions)
    }

    /// The table without the records and versions of the given observers.
    pub fn remove_observers(&self, nodes: &Vec<UniqueAddress>) -> (r: Reachability)
        ensures
            r@.records == self@.records.filter(|x: RecordView| !addr_views(nodes@).contains(x.observer)),
            r@.versions == Map::new(
                |k: UniqueAddressView| self@.versions.contains_key(k) && !addr_views(nodes@).contains(k),
                |k: UniqueAddressView| self@.versions[k],
            ),
            pairs_unique(r@.records),
    {
        proof { use_type_invariant(self); }
        if nodes.len() == 0 {
            proof {
                let p = |x: RecordView| !addr_views(nodes@).contains(x.observer);
                assert(addr_views(nodes@) =~= Seq::<UniqueAddressView>::empty());
                lemma_filter_all(self@.records, p);
                let t = Map::new(
                    |k: UniqueAddressView| self@.versions.contains_key(k) && !addr_views(nodes@).contains(k),
                    |k: UniqueAddressView| self@.versions[k],
                );
                assert(t =~= self@.versions);
            }
            return self.clone();
        }
        let records = records_not_observed_by(&self.records, nodes);
        let versions = retain_versions(&self.versions, nodes, false);
        proof {
            lemma_filter_unique(self@.records, |x: RecordView| !addr_views(nodes@).contains(x.observer));
            let m = assoc_map(version_views(versions@));
            let t = Map::new(
                |k: UniqueAddressView| self@.versions.contains_key(k) && !addr_views(nodes@).contains(k),
                |k: UniqueAddressView| self@.versions[k],
            );
            assert(m.dom() =~= t.dom());
            assert(m =~= t);
        }
        Reachability::new(records, versions)
    }
}

proof fn lemma_filter_all(rs: Seq<RecordView>, p: spec_fn(RecordView) -> bool)
    requires
        forall|x: RecordView| #[trigger] p(x),
    ensures
        rs.filter(p) == rs,
    decreases rs.len(),
{
    reveal(Seq::filter);
    if rs.len() > 0 {
        lemma_filter_all(rs.drop_last(), p);
        assert(rs.drop_last().push(rs.last()) =~= rs);
    }
}


proof fn lemma_select_pairs_unique(rs: Seq<RecordView>, keep: Seq<bool>)
    requires
        pairs_unique(rs),
    ensures
        pairs_unique(crate::seq_facts::select(rs, keep)),
    decreases rs.len(),
{
    if rs.len() > 0 && keep.len() > 0 {
        let t = rs.drop_last();
        assert(pairs_unique(t)) by {
            assert forall|i: int, j: int| 0 <= i < j < t.len() implies !(#[trigger] t[i].observer == #[trigger] t[j].observer && t[i].subject == t[j].subject) by {
                assert(t[i] == rs[i] && t[j] == rs[j]);
            }
        }
        lemma_select_pairs_unique(t, keep.drop_last());
        if keep.last() {
            let f = crate::seq_facts::select(t, keep.drop_last());
            crate::seq_facts::lemma_select_members(t, keep.drop_last());
            let g = f.push(rs.last());
            assert forall|i: int, j: int| 0 <= i < j < g.len() implies !(#[trigger] g[i].observer == #[trigger] g[j].observer && g[i].subject == g[j].subject) by {
                if j < f.len() {
                    assert(g[i] == f[i] && g[j] == f[j]);
                } else {
                    assert(g[i] == f[i]);
                    assert(f.contains(f[i]));
                    let k = choose|k: int| 0 <= k < t.len() && t[k] == f[i];
                    assert(rs[k] == t[k]);
                    assert(!(rs[k].observer == rs[rs.len() - 1].observer && rs[k].subject == rs[rs.len() - 1].subject));
                }
            }
        }
    }
}

/// Subjects that `o` reports unreachable.
pub open spec fn unreachable_from(rs: Seq<RecordView>, o: UniqueAddressView) -> Set<UniqueAddressView> {
    Set::new(|u: UniqueAddressView| exists|i: int| 0 <= i < rs.len() && rs[i].observer == o && rs[i].subject == u
        && rs[i].status == ReachabilityStatus::Unreachable)
}

/// Members that have recorded anything.
pub open spec fn observers_of(rs: Seq<RecordView>) -> Set<UniqueAddressView> {
    Set::new(|u: UniqueAddressView| has_rows(rs, u))
}

/// Two tables are equal as `==` compares them: the same number of records,
/// the same versions and the same records for each pair.
pub open spec fn same_table(a: ReachabilityView, b: ReachabilityView) -> bool {
    &&& a.records.len() == b.records.len()
    &&& a.versions == b.versions
    &&& a.records.to_set() == b.records.to_set()
}

proof fn lemma_unique_no_dups(rs: Seq<RecordView>)
    requires
        pairs_unique(rs),
    ensures
        rs.no_duplicates(),
{
    assert forall|i: int, j: int| 0 <= i < rs.len() && 0 <= j < rs.len() && i != j implies rs[i] != rs[j] by {
        if i < j {
            assert(!(rs[i].observer == rs[j].observer && rs[i].subject == rs[j].subject));
        } else {
            assert(!(rs[j].observer == rs[i].observer && rs[j].subject == rs[i].subject));
        }
    }
}

impl Reachability {
    /// The table with only the records for which `predicate` holds, in order;
    /// the versions stay.
    pub fn filter_records<F: Fn(&Record) -> bool>(&self, predicate: F) -> (r: Reachability)
        requires
            forall|x: &Record| #[trigger] predicate.requires((x,)),
        ensures
            exists|keep: Seq<bool>| {
                &&& keep.len() == self@.records.len()
                &&& (forall|j: int| 0 <= j < keep.len() ==> #[trigger] predicate.ensures((&self.record_values()[j],), keep[j]))
                &&& r@.records == crate::seq_facts::select(self@.records, keep)
            },
            r@.versions == self@.versions,
            pairs_unique(r@.records),
    {
        proof { use_type_invariant(self); }
        let ghost rs = self@.records;
        let ghost mut keep: Seq<bool> = Seq::empty();
        let mut out: Vec<Record> = Vec::new();
        let mut i: usize = 0;
        proof {
            assert(record_views(out@) =~= crate::seq_facts::select(rs.take(0), keep));
        }
        while i < self.records.len()
            invariant
                rs == self@.records,
                rs == record_views(self.records@),
                forall|x: &Record| #[trigger] predicate.requires((x,)),
                i <= rs.len(),
                keep.len() == i,
                forall|j: int| 0 <= j < i ==> #[trigger] predicate.ensures((&self.records@[j],), keep[j]),
                record_views(out@) == crate::seq_facts::select(rs.take(i as int), keep),
            decreases self.records.len() - i,
        {
            let b = predicate(&self.records[i]);
            proof {
                crate::seq_facts::lemma_select_step(rs, keep, i as int, b);
                assert(rs[i as int] == self.records@[i as int]@);
            }
            if b {
                let c = self.records[i].clone();
                let ghost before = out@;
                out.push(c);
                proof {
                    assert(record_views(before).len() == before.len());
                    assert(record_views(out@) =~= record_views(before).push(c@)) by {
                        assert forall|k: int| 0 <= k < out@.len() implies #[trigger] record_views(out@)[k] == record_views(before).push(c@)[k] by {
                            if k < before.len() { assert(out@[k] == before[k]); } else { assert(out@[k] == c); }
                        }
                    }
                }
            }
            proof {
                keep = keep.push(b);
            }
            i = i + 1;
        }
        proof {
            crate::seq_facts::lemma_take_all(rs);
            lemma_select_pairs_unique(rs, keep);
        }
        let versions = clone_versions(&self.versions);
        Reachability::new(out, versions)
    }

    /// Subjects that `observer` reports unreachable; `None` when it has no
    /// records at all.
    pub fn all_unreachable_from(&self, observer: &UniqueAddress) -> (r: Option<Vec<UniqueAddress>>)
        ensures
            r is None <==> !has_rows(self@.records, observer@),
            r matches Some(v) ==> holds_set(v@, unreachable_from(self@.records, observer@)),
    {
        if !self.observer_has_rows(observer) {
            return None;
        }
        let ghost rs = self@.records;
        let mut out: Vec<UniqueAddress> = Vec::new();
        let mut i: usize = 0;
        proof {
            assert(addr_views(out@) =~= Seq::<UniqueAddressView>::empty());
            assert(addr_views(out@).to_set() =~= unreachable_from(rs.take(0), observer@));
        }
        while i < self.records.len()
            invariant
                rs == record_views(self.records@),
                i <= rs.len(),
                holds_set(out@, unreachable_from(rs.take(i as int), observer@)),
            decreases self.records.len() - i,
        {
            proof {
                assert(rs[i as int] == self.records@[i as int]@);
                let t0 = rs.take(i as int);
                let t1 = rs.take(i + 1);
                let rec = rs[i as int];
                assert forall|u: UniqueAddressView| #[trigger] unreachable_from(t1, observer@).contains(u)
                    == (unreachable_from(t0, observer@).contains(u) || (rec.observer == observer@ && rec.subject == u && rec.status == ReachabilityStatus::Unreachable)) by {
                    if unreachable_from(t1, observer@).contains(u) {
                        let x = choose|x: int| 0 <= x < t1.len() && t1[x].observer == observer@ && t1[x].subject == u && t1[x].status == ReachabilityStatus::Unreachable;
                        if x < i { assert(t0[x] == t1[x]); }
                    }
                    if unreachable_from(t0, observer@).contains(u) {
                        let x = choose|x: int| 0 <= x < t0.len() && t0[x].observer == observer@ && t0[x].subject == u && t0[x].status == ReachabilityStatus::Unreachable;
                        assert(t1[x] == t0[x]);
                    }
                    if rec.observer == observer@ && rec.subject == u && rec.status == ReachabilityStatus::Unreachable {
                        assert(t1[i as int] == rec);
                    }
                }
            }
            if self.records[i].status == ReachabilityStatus::Unreachable && self.records[i].observer.same_as(observer) {
                insert_addr(&mut out, &self.records[i].subject);
                proof {
                    assert(addr_views(out@).to_set() =~= unreachable_from(rs.take(i + 1), observer@));
                }
            } else {
                proof {
                    assert(addr_views(out@).to_set() =~= unreachable_from(rs.take(i + 1), observer@));
                }
            }
            i = i + 1;
        }
        proof { crate::seq_facts::lemma_take_all(rs); }
        Some(out)
    }

    /// Members that have recorded anything.
    pub fn all_observers(&self) -> (r: Vec<UniqueAddress>)
        ensures
            holds_set(r@, observers_of(self@.records)),
    {
        let ghost rs = self@.records;
        let mut out: Vec<UniqueAddress> = Vec::new();
        let mut i: usize = 0;
        proof {
            assert(addr_views(out@) =~= Seq::<UniqueAddressView>::empty());
            assert(addr_views(out@).to_set() =~= observers_of(rs.take(0)));
        }
        while i < self.records.len()
            invariant
                rs == record_views(self.records@),
                i <= rs.len(),
                holds_set(out@, observers_of(rs.take(i as int))),
            decreases self.records.len() - i,
        {
            insert_addr(&mut out, &self.records[i].observer);
            proof {
                assert(rs[i as int] == self.records@[i as int]@);
                let t0 = rs.take(i as int);
                let t1 = rs.take(i + 1);
                assert forall|u: UniqueAddressView| #[trigger] observers_of(t1).contains(u) == observers_of(t0).insert(rs[i as int].observer).contains(u) by {
                    if has_rows(t1, u) {
                        let x = choose|x: int| 0 <= x < t1.len() && t1[x].observer == u;
                        if x < i { assert(t0[x] == t1[x]); }
                    }
                    if has_rows(t0, u) {
                        let x = choose|x: int| 0 <= x < t0.len() && t0[x].observer == u;
                        assert(t1[x] == t0[x]);
                    }
                    if u == rs[i as int].observer { assert(t1[i as int].observer == u); }
                }
                assert(addr_views(out@).to_set() =~= observers_of(t1));
            }
            i = i + 1;
        }
        proof { crate::seq_facts::lemma_take_all(rs); }
        out
    }

    /// The rows of `observer`, as the per-observer map of a table gives
    /// them: none where it has recorded nothing, else its records (one for
    /// each subject it observes, as no pair is recorded twice).
    pub fn observer_rows(&self, observer: &UniqueAddress) -> (r: Option<Vec<Record>>)
        ensures
            r is None <==> !has_rows(self@.records, observer@),
            r matches Some(v) ==> record_views(v@) == self@.records.filter(|x: RecordView| x.observer == observer@),
    {
        if !self.observer_has_rows(observer) {
            return None;
        }
        Some(self.records_from(observer))
    }

    /// The records of `observer`, in order.
    pub fn records_from(&self, observer: &UniqueAddress) -> (r: Vec<Record>)
        ensures
            record_views(r@) == self@.records.filter(|x: RecordView| x.observer == observer@),
    {
        let ghost rs = record_views(self.records@);
        let ghost pred = |x: RecordView| x.observer == observer@;
        let v = &self.records;
        let mut r: Vec<Record> = Vec::new();
        let mut i: usize = 0;
        proof {
            crate::seq_facts::lemma_filter_empty(rs, pred);
            assert(record_views(r@) =~= Seq::<RecordView>::empty());
        }
        while i < v.len()
            invariant
                v == &self.records,
                rs == record_views(v@),
                pred == (|x: RecordView| x.observer == observer@),
                i <= v@.len(),
                record_views(r@) == rs.take(i as int).filter(pred),
            decreases v.len() - i,
        {
            proof {
                crate::seq_facts::lemma_filter_step(rs, pred, i as int);
                assert(rs[i as int] == v@[i as int]@);
            }
            if v[i].observer.same_as(observer) {
                let c = v[i].clone();
                let ghost before = r@;
                r.push(c);
                proof {
                    assert(record_views(before).len() == before.len());
                    assert(record_views(r@) =~= record_views(before).push(c@)) by {
                        assert forall|k: int| 0 <= k < r@.len() implies #[trigger] record_views(r@)[k] == record_views(before).push(c@)[k] by {
                            if k < before.len() { assert(r@[k] == before[k]); } else { assert(r@[k] == c); }
                        }
                    }
                }
            }
            i = i + 1;
        }
        proof { crate::seq_facts::lemma_take_all(rs); }
        r
    }

    /// Whether `a`'s record set is included in `b`'s.
    fn records_included(a: &Vec<Record>, b: &Vec<Record>) -> (r: bool)
        ensures
            r == record_views(a@).to_set().subset_of(record_views(b@).to_set()),
    {
        let ghost ra = record_views(a@);
        let ghost rb = record_views(b@);
        let mut i: usize = 0;
        while i < a.len()
            invariant
                ra == record_views(a@),
                rb == record_views(b@),
                i <= a@.len(),
                forall|x: int| 0 <= x < i ==> rb.contains(#[trigger] ra[x]),
            decreases a.len() - i,
        {
            let mut found = false;
            let mut j: usize = 0;
            while j < b.len()
                invariant
                    ra == record_views(a@),
                    rb == record_views(b@),
                    i < a@.len(),
                    j <= b@.len(),
                    found ==> rb.contains(ra[i as int]),
                    !found ==> forall|y: int| 0 <= y < j ==> rb[y] != ra[i as int],
                decreases b.len() - j,
            {
                if !found && b[j].same_as(&a[i]) {
                    proof {
                        assert(rb[j as int] == b@[j as int]@);
                        assert(ra[i as int] == a@[i as int]@);
                        assert(rb[j as int] == ra[i as int]);
                    }
                    found = true;
                }
                proof {
                    assert(rb[j as int] == b@[j as int]@);
                    assert(ra[i as int] == a@[i as int]@);
                }
                j = j + 1;
            }
            if !found {
                proof {
                    assert(ra.to_set().contains(ra[i as int]));
                    if rb.to_set().contains(ra[i as int]) {
                        let y = choose|y: int| 0 <= y < rb.len() && rb[y] == ra[i as int];
                    }
                }
                return false;
            }
            i = i + 1;
        }
        proof {
            assert forall|x: RecordView| #[trigger] ra.to_set().contains(x) implies rb.to_set().contains(x) by {
                let k = choose|k: int| 0 <= k < ra.len() && ra[k] == x;
            }
        }
        true
    }

    /// Whether the versions of `a` all occur, with the same values, in `b`.
    fn versions_included(a: &Vec<(UniqueAddress, i64)>, b: &Vec<(UniqueAddress, i64)>) -> (r: bool)
        requires
            keys_unique(version_views(a@)),
            keys_unique(version_views(b@)),
        ensures
            r == (forall|k: UniqueAddressView| #[trigger] assoc_map(version_views(a@)).contains_key(k) ==>
                assoc_map(version_views(b@)).contains_key(k) && assoc_map(version_views(b@))[k] == assoc_map(version_views(a@))[k]),
    {
        let ghost ma = assoc_map(version_views(a@));
        let ghost mb = assoc_map(version_views(b@));
        let mut i: usize = 0;
        while i < a.len()
            invariant
                ma == assoc_map(version_views(a@)),
                mb == assoc_map(version_views(b@)),
                keys_unique(version_views(a@)),
                keys_unique(version_views(b@)),
                i <= a@.len(),
                forall|x: int| 0 <= x < i ==> mb.contains_key(#[trigger] version_views(a@)[x].0) && mb[version_views(a@)[x].0] == version_views(a@)[x].1,
            decreases a.len() - i,
        {
            proof {
                crate::addr_set::lemma_assoc_index(version_views(a@), i as int);
                assert(version_views(a@)[i as int] == (a@[i as int].0@, a@[i as int].1));
            }
            let vb = version_of(b, &a[i].0);
            let present = contains_version_key(b, &a[i].0);
            if !present || vb != a[i].1 {
                return false;
            }
            i = i + 1;
        }
        proof {
            assert forall|k: UniqueAddressView| #[trigger] ma.contains_key(k) implies mb.contains_key(k) && mb[k] == ma[k] by {
                let x = choose|x: int| 0 <= x < version_views(a@).len() && version_views(a@)[x].0 == k;
                crate::addr_set::lemma_assoc_index(version_views(a@), x);
            }
        }
        true
    }

    /// Equality of tables (`==`): same number of records, same versions,
    /// same records.
    pub fn same_as(&self, other: &Reachability) -> (r: bool)
        ensures
            r == same_table(self@, other@),
    {
        proof {
            use_type_invariant(self);
            use_type_invariant(other);
            lemma_unique_no_dups(self@.records);
            lemma_unique_no_dups(other@.records);
            self@.records.unique_seq_to_set();
            other@.records.unique_seq_to_set();
        }
        if self.records.len() != other.records.len() {
            return false;
        }
        if self.versions.len() != other.versions.len()
            || !Self::versions_included(&self.versions, &other.versions)
            || !Self::versions_included(&other.versions, &self.versions) {
            proof {
                if self@.versions == other@.versions {
                    // equal maps with unique keys have equally many entries
                    lemma_assoc_len(version_views(self.versions@));
                    lemma_assoc_len(version_views(other.versions@));
                }
            }
            return false;
        }
        proof {
            assert(self@.versions =~= other@.versions);
        }
        let inc = Self::records_included(&self.records, &other.records);
        proof {
            if inc {
                vstd::set_lib::lemma_subset_equality(self@.records.to_set(), other@.records.to_set());
            }
        }
        inc
    }
}

/// Whether some entry has member `a`.
fn contains_version_key(v: &Vec<(UniqueAddress, i64)>, a: &UniqueAddress) -> (r: bool)
    ensures
        r == assoc_map(version_views(v@)).contains_key(a@),
{
    let mut i: usize = 0;
    while i < v.len()
        invariant
            i <= v@.len(),
            forall|x: int| 0 <= x < i ==> v@[x].0@ != a@,
        decreases v.len() - i,
    {
        if v[i].0.same_as(a) {
            assert(version_views(v@)[i as int].0 == a@);
            return true;
        }
        i = i + 1;
    }
    proof {
        if assoc_map(version_views(v@)).contains_key(a@) {
            let x = choose|x: int| 0 <= x < version_views(v@).len() && version_views(v@)[x].0 == a@;
            assert(v@[x].0@ == a@);
        }
    }
    false
}

/// A map held by entries with unique keys has as many keys as entries.
proof fn lemma_assoc_len(e: Seq<(UniqueAddressView, i64)>)
    requires
        keys_unique(e),
    ensures
        assoc_map(e).dom().finite(),
        assoc_map(e).dom().len() == e.len(),
{
    let keys = e.map_values(|p: (UniqueAddressView, i64)| p.0);
    assert forall|i: int, j: int| 0 <= i < keys.len() && 0 <= j < keys.len() && i != j implies keys[i] != keys[j] by {
        if i < j { assert(e[i].0 != e[j].0); } else { assert(e[j].0 != e[i].0); }
    }
    keys.unique_seq_to_set();
    assert(assoc_map(e).dom() =~= keys.to_set()) by {
        assert forall|k: UniqueAddressView| #[trigger] assoc_map(e).dom().contains(k) == keys.to_set().contains(k) by {
            if assoc_map(e).dom().contains(k) {
                let i = choose|i: int| 0 <= i < e.len() && e[i].0 == k;
                assert(keys[i] == k);
            }
            if keys.contains(k) {
                let i = choose|i: int| 0 <= i < keys.len() && keys[i] == k;
                assert(e[i].0 == k);
            }
        }
    }
    vstd::seq_lib::seq_to_set_is_finite(keys);
}

} // verus!
