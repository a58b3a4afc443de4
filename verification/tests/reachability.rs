use actor_rs::address::{Address, Protocol, SocketAddress, UniqueAddress};
use actor_rs::reachability::{Reachability, ReachabilityStatus, Record};

fn node(uid: i64) -> UniqueAddress {
    UniqueAddress {
        address: Address::new(
            Protocol::Tcp,
            "sys",
            Some(SocketAddress { a: 127, b: 0, c: 0, d: 1, port: 2552 }),
        ),
        uid,
    }
}

fn node_a() -> UniqueAddress {
    node(1)
}

fn node_b() -> UniqueAddress {
    node(2)
}

fn node_c() -> UniqueAddress {
    node(3)
}

fn node_d() -> UniqueAddress {
    node(4)
}

fn node_e() -> UniqueAddress {
    node(5)
}

fn same_members(actual: &[UniqueAddress], expected: &[UniqueAddress]) -> bool {
    actual.len() == expected.len()
        && expected.iter().all(|e| actual.iter().any(|a| a.same_as(e)))
        && actual.iter().all(|a| expected.iter().any(|e| e.same_as(a)))
}

fn same_records(actual: &[Record], expected: &[Record]) -> bool {
    actual.len() == expected.len()
        && expected.iter().all(|e| actual.iter().any(|a| a.same_as(e)))
        && actual.iter().all(|a| expected.iter().any(|e| e.same_as(a)))
}

fn same_versions(actual: &[(UniqueAddress, i64)], expected: &[(UniqueAddress, i64)]) -> bool {
    actual.len() == expected.len()
        && expected.iter().all(|(k, v)| actual.iter().any(|(a, w)| a.same_as(k) && v == w))
}

fn version_keys(r: &Reachability) -> Vec<UniqueAddress> {
    r.versions().iter().map(|(k, _)| k.clone()).collect()
}

#[test]
fn be_reachable_when_empty() {
    let reachability = Reachability::empty();
    assert_eq!(reachability.is_reachable_by_node(&node_a()), true);
    assert_eq!(reachability.all_unreachable().is_empty(), true);
}

#[test]
fn be_unreachable_when_one_observed_unreachable() {
    let node_a = node_a();
    let node_b = node_b();
    let reachability = Reachability::empty().unreachable(&node_b, &node_a);
    assert_eq!(reachability.is_reachable_by_node(&node_a), false);
    assert!(same_members(reachability.all_unreachable(), &[node_a]));
}

#[test]
fn not_be_reachable_when_terminated() {
    let node_a = node_a();
    let node_b = node_b();
    let reachability = Reachability::empty().terminated(&node_b, &node_a);
    assert_eq!(reachability.is_reachable_by_node(&node_a), false);
    assert!(same_members(reachability.all_unreachable_or_terminated(), &[node_a]));
}

#[test]
fn not_change_terminated_entry() {
    let node_a = node_a();
    let node_b = node_b();
    let reachability = Reachability::empty().terminated(&node_b, &node_a);
    let new_reachability = reachability.reachable(&node_b, &node_a);
    assert!(reachability.same_as(&new_reachability));
    let new_reachability = reachability.unreachable(&node_b, &node_a);
    assert!(reachability.same_as(&new_reachability));
}

#[test]
fn not_change_when_same_status() {
    let node_a = node_a();
    let node_b = node_b();
    let reachability = Reachability::empty().unreachable(&node_b, &node_a);
    let new_reachability = reachability.unreachable(&node_b, &node_a);
    assert!(reachability.same_as(&new_reachability));
}

#[test]
fn be_unreachable_when_some_observed_unreachable_and_others_reachable() {
    let node_a = node_a();
    let node_b = node_b();
    let node_c = node_c();
    let node_d = node_d();
    let reachability = Reachability::empty()
        .unreachable(&node_b, &node_a)
        .reachable(&node_c, &node_a)
        .reachable(&node_d, &node_a);
    assert_eq!(reachability.is_reachable_by_node(&node_a), false);
}

#[test]
fn be_reachable_when_all_observed_reachable_again() {
    let node_a = node_a();
    let node_b = node_b();
    let node_c = node_c();
    let reachability = Reachability::empty()
        .unreachable(&node_b, &node_a)
        .unreachable(&node_c, &node_a)
        .reachable(&node_b, &node_a)
        .reachable(&node_c, &node_a)
        .unreachable(&node_b, &node_c)
        .unreachable(&node_c, &node_b);
    assert_eq!(reachability.is_reachable_by_node(&node_a), true);
}

#[test]
fn exclude_observations_from_specific_downed_nodes() {
    let node_a = node_a();
    let node_b = node_b();
    let node_c = node_c();
    let reachability = Reachability::empty()
        .unreachable(&node_c, &node_a)
        .reachable(&node_c, &node_a)
        .unreachable(&node_c, &node_b)
        .unreachable(&node_b, &node_a)
        .unreachable(&node_b, &node_c);
    assert_eq!(reachability.is_reachable_by_node(&node_a), false);
    assert_eq!(reachability.is_reachable_by_node(&node_b), false);
    assert_eq!(reachability.is_reachable_by_node(&node_c), false);
    assert!(same_members(
        reachability.all_unreachable_or_terminated(),
        &[node_a.clone(), node_b.clone(), node_c.clone()]
    ));
    let removed = vec![node_b.clone()];
    assert!(same_members(
        reachability.remove_observers(&removed).all_unreachable_or_terminated(),
        &[node_b.clone()]
    ));
}

#[test]
fn be_pruned_when_all_records_of_an_observer_are_reachable() {
    let node_a = node_a();
    let node_b = node_b();
    let node_c = node_c();
    let node_d = node_d();
    let node_e = node_e();
    let reachability = Reachability::empty()
        .unreachable(&node_b, &node_a)
        .unreachable(&node_b, &node_c)
        .unreachable(&node_d, &node_c)
        .reachable(&node_b, &node_a)
        .reachable(&node_b, &node_c);
    assert_eq!(reachability.is_reachable_by_node(&node_a), true);
    assert_eq!(reachability.is_reachable_by_node(&node_c), false);
    let expected = vec![Record::new(node_d.clone(), node_c.clone(), ReachabilityStatus::Unreachable, 1)];
    assert_eq!(reachability.records().len(), expected.len());
    assert!(reachability.records()[0].same_as(&expected[0]));
    let reachability2 = reachability.unreachable(&node_b, &node_d).unreachable(&node_b, &node_e);
    let records = vec![
        Record::new(node_d.clone(), node_c.clone(), ReachabilityStatus::Unreachable, 1),
        Record::new(node_b.clone(), node_d.clone(), ReachabilityStatus::Unreachable, 5),
        Record::new(node_b.clone(), node_e.clone(), ReachabilityStatus::Unreachable, 6),
    ];
    assert!(same_records(reachability2.records(), &records));
}

#[test]
fn have_correct_aggregated_status() {
    let records = vec![
        Record::new(node_a(), node_b(), ReachabilityStatus::Reachable, 2),
        Record::new(node_c(), node_b(), ReachabilityStatus::Unreachable, 2),
        Record::new(node_a(), node_d(), ReachabilityStatus::Unreachable, 3),
        Record::new(node_d(), node_b(), ReachabilityStatus::Terminated, 4),
    ];
    let versions = vec![(node_a(), 3), (node_c(), 3), (node_d(), 4)];
    let reachability = Reachability::new(records, versions);
    assert_eq!(reachability.status_by_node(&node_a()), ReachabilityStatus::Reachable);
    assert_eq!(reachability.status_by_node(&node_b()), ReachabilityStatus::Terminated);
    assert_eq!(reachability.status_by_node(&node_d()), ReachabilityStatus::Unreachable);
}

#[test]
fn have_correct_status_for_a_mix_of_nodes() {
    let node_a = node_a();
    let node_b = node_b();
    let node_c = node_c();
    let node_d = node_d();
    let node_e = node_e();
    let reachability = Reachability::empty()
        .unreachable(&node_b, &node_a)
        .unreachable(&node_c, &node_a)
        .unreachable(&node_d, &node_a)
        .unreachable(&node_c, &node_b)
        .reachable(&node_c, &node_b)
        .unreachable(&node_d, &node_b)
        .unreachable(&node_d, &node_c)
        .reachable(&node_d, &node_c)
        .reachable(&node_e, &node_d)
        .unreachable(&node_a, &node_e)
        .terminated(&node_b, &node_e);
    assert_eq!(reachability.status(&node_b, &node_a), ReachabilityStatus::Unreachable);
    assert_eq!(reachability.status(&node_c, &node_a), ReachabilityStatus::Unreachable);
    assert_eq!(reachability.status(&node_d, &node_a), ReachabilityStatus::Unreachable);

    assert_eq!(reachability.status(&node_c, &node_b), ReachabilityStatus::Reachable);
    assert_eq!(reachability.status(&node_d, &node_b), ReachabilityStatus::Unreachable);

    assert_eq!(reachability.status(&node_a, &node_e), ReachabilityStatus::Unreachable);
    assert_eq!(reachability.status(&node_b, &node_e), ReachabilityStatus::Terminated);

    assert_eq!(reachability.is_reachable_by_node(&node_a), false);
    assert_eq!(reachability.is_reachable_by_node(&node_b), false);
    assert_eq!(reachability.is_reachable_by_node(&node_c), true);
    assert_eq!(reachability.is_reachable_by_node(&node_d), true);
    assert_eq!(reachability.is_reachable_by_node(&node_e), false);

    assert!(same_members(reachability.all_unreachable(), &[node_a.clone(), node_b.clone()]));
    assert!(same_members(&reachability.all_unreachable_from(&node_a).unwrap(), &[node_e.clone()]));
    assert!(same_members(&reachability.all_unreachable_from(&node_b).unwrap(), &[node_a.clone()]));
    assert!(same_members(&reachability.all_unreachable_from(&node_c).unwrap(), &[node_a.clone()]));
    assert!(same_members(
        &reachability.all_unreachable_from(&node_d).unwrap(),
        &[node_a.clone(), node_b.clone()]
    ));

    let expected = vec![
        (node_a.clone(), vec![node_b.clone(), node_c.clone(), node_d.clone()]),
        (node_b.clone(), vec![node_d.clone()]),
        (node_e.clone(), vec![node_a.clone()]),
    ];
    let grouped = reachability.observers_grouped_by_unreachable();
    assert_eq!(grouped.len(), expected.len());
    for (subject, observers) in &expected {
        let found = grouped.iter().find(|(s, _)| s.same_as(subject)).expect("subject missing");
        assert!(same_members(&found.1, observers));
    }
}

#[test]
fn merge_by_picking_latest_version_of_each_record() {
    let node_a = node_a();
    let node_b = node_b();
    let node_c = node_c();
    let node_d = node_d();
    let node_e = node_e();
    let r1 = Reachability::empty().unreachable(&node_b, &node_a).unreachable(&node_c, &node_d);
    let r2 = r1
        .reachable(&node_b, &node_a)
        .unreachable(&node_d, &node_e)
        .unreachable(&node_c, &node_a);
    let set = vec![node_a.clone(), node_b.clone(), node_c.clone(), node_d.clone(), node_e.clone()];
    let merged = r1.merge(&set, &r2);

    assert_eq!(merged.status(&node_b, &node_a), ReachabilityStatus::Reachable);
    assert_eq!(merged.status(&node_c, &node_a), ReachabilityStatus::Unreachable);
    assert_eq!(merged.status(&node_c, &node_d), ReachabilityStatus::Unreachable);
    assert_eq!(merged.status(&node_d, &node_e), ReachabilityStatus::Unreachable);
    assert_eq!(merged.status(&node_e, &node_a), ReachabilityStatus::Reachable);

    assert_eq!(merged.is_reachable_by_node(&node_a), false);
    assert_eq!(merged.is_reachable_by_node(&node_d), false);
    assert_eq!(merged.is_reachable_by_node(&node_e), false);

    let merged2 = r2.merge(&set, &r1);
    assert!(same_records(merged2.records(), merged.records()));
}

#[test]
fn merge_by_taking_allowed_set_into_account() {
    let node_a = node_a();
    let node_b = node_b();
    let node_c = node_c();
    let node_d = node_d();
    let node_e = node_e();
    let r1 = Reachability::empty().unreachable(&node_b, &node_a).unreachable(&node_c, &node_d);
    let r2 = r1
        .reachable(&node_b, &node_a)
        .unreachable(&node_d, &node_e)
        .unreachable(&node_c, &node_a);
    let allowed = vec![node_a.clone(), node_b.clone(), node_c.clone(), node_e.clone()];
    let merged = r1.merge(&allowed, &r2);

    assert_eq!(merged.status(&node_b, &node_a), ReachabilityStatus::Reachable);
    assert_eq!(merged.status(&node_c, &node_a), ReachabilityStatus::Unreachable);
    assert_eq!(merged.status(&node_c, &node_d), ReachabilityStatus::Reachable);
    assert_eq!(merged.status(&node_d, &node_e), ReachabilityStatus::Reachable);
    assert_eq!(merged.status(&node_e, &node_a), ReachabilityStatus::Reachable);

    assert_eq!(merged.is_reachable_by_node(&node_a), false);
    assert_eq!(merged.is_reachable_by_node(&node_d), true);
    assert_eq!(merged.is_reachable_by_node(&node_e), true);

    assert!(same_members(&version_keys(&merged), &[node_b.clone(), node_c.clone()]));

    let merged2 = r2.merge(&allowed, &r1);
    assert!(same_records(merged2.records(), merged.records()));
    assert!(same_versions(merged2.versions(), merged.versions()));
}

#[test]
fn merge_correctly_after_pruning() {
    let node_a = node_a();
    let node_b = node_b();
    let node_c = node_c();
    let node_d = node_d();
    let node_e = node_e();
    let r1 = Reachability::empty().unreachable(&node_b, &node_a).unreachable(&node_c, &node_d);
    let r2 = r1.unreachable(&node_a, &node_e);
    let r3 = r1.reachable(&node_b, &node_a);
    let set = vec![node_a.clone(), node_b.clone(), node_c.clone(), node_d.clone(), node_e.clone()];
    let merged = r2.merge(&set, &r3);
    let records = vec![
        Record::new(node_a.clone(), node_e.clone(), ReachabilityStatus::Unreachable, 1),
        Record::new(node_c.clone(), node_d.clone(), ReachabilityStatus::Unreachable, 1),
    ];
    assert!(same_records(merged.records(), &records));

    let merged3 = r3.merge(&set, &r2);
    assert!(same_records(merged3.records(), &records));
}

#[test]
fn merge_versions_correctly() {
    let node_a = node_a();
    let node_b = node_b();
    let node_c = node_c();
    let node_d = node_d();
    let node_e = node_e();
    let r1 = Reachability::new(vec![], vec![(node_a.clone(), 3), (node_b.clone(), 5), (node_c.clone(), 7)]);
    let r2 = Reachability::new(vec![], vec![(node_a.clone(), 6), (node_b.clone(), 2), (node_d.clone(), 1)]);
    let set = vec![node_a.clone(), node_b.clone(), node_c.clone(), node_d.clone(), node_e.clone()];
    let merged = r1.merge(&set, &r2);

    let expected = vec![(node_a.clone(), 6), (node_b.clone(), 5), (node_c.clone(), 7), (node_d.clone(), 1)];
    assert!(same_versions(merged.versions(), &expected));

    let merged2 = r2.merge(&set, &r1);
    assert!(same_versions(merged2.versions(), &expected));
}

#[test]
fn remove_node() {
    let node_a = node_a();
    let node_b = node_b();
    let node_c = node_c();
    let node_d = node_d();
    let node_e = node_e();
    let r = Reachability::empty()
        .unreachable(&node_b, &node_a)
        .unreachable(&node_c, &node_d)
        .unreachable(&node_b, &node_c)
        .unreachable(&node_b, &node_e)
        .remove(&vec![node_a.clone(), node_b.clone()]);

    assert_eq!(r.status(&node_b, &node_a), ReachabilityStatus::Reachable);
    assert_eq!(r.status(&node_c, &node_d), ReachabilityStatus::Unreachable);
    assert_eq!(r.status(&node_b, &node_c), ReachabilityStatus::Reachable);
    assert_eq!(r.status(&node_b, &node_e), ReachabilityStatus::Reachable);
}

#[test]
fn remove_correctly_after_pruning() {
    let node_a = node_a();
    let node_b = node_b();
    let node_c = node_c();
    let node_d = node_d();
    let r = Reachability::empty()
        .unreachable(&node_b, &node_a)
        .unreachable(&node_b, &node_c)
        .unreachable(&node_d, &node_c)
        .reachable(&node_b, &node_a)
        .reachable(&node_b, &node_c);
    let expected = vec![Record::new(node_d.clone(), node_c.clone(), ReachabilityStatus::Unreachable, 1)];
    assert!(same_records(r.records(), &expected));
    assert_eq!(r.records().len(), 1);
    let r2 = r.remove(&vec![node_b.clone()]);
    assert!(same_members(&r2.all_observers(), &[node_d.clone()]));
    assert!(same_members(&version_keys(&r2), &[node_d.clone()]));
}

#[test]
fn be_able_to_filter_records() {
    let node_a = node_a();
    let node_b = node_b();
    let node_c = node_c();
    let r = Reachability::empty()
        .unreachable(&node_c, &node_b)
        .unreachable(&node_b, &node_a)
        .unreachable(&node_b, &node_c);
    let filtered1 = r.filter_records(|record| !record.observer.same_as(&node_c));
    assert_eq!(filtered1.is_reachable_by_node(&node_b), true);
    assert_eq!(filtered1.is_reachable_by_node(&node_a), false);
    assert!(same_members(&filtered1.all_observers(), &[node_b.clone()]));
}

#[test]
fn versions_count_each_observers_changes() {
    let node_a = node_a();
    let node_b = node_b();
    let r = Reachability::empty().unreachable(&node_a, &node_b);
    assert_eq!(r.current_version(&node_a), 1);
    assert_eq!(r.next_version(&node_a), 2);
    assert_eq!(r.current_version(&node_b), 0);
    let r2 = r.reachable(&node_a, &node_b);
    assert_eq!(r2.records().len(), 0);
    assert_eq!(r2.current_version(&node_a), 2);
}

fn at_port(port: u16, uid: i64) -> UniqueAddress {
    UniqueAddress {
        address: Address::new(
            Protocol::Tcp,
            "sys",
            Some(SocketAddress { a: 127, b: 0, c: 0, d: 1, port }),
        ),
        uid,
    }
}

#[test]
fn text_lists_records_by_observer_then_subject() {
    let n1 = at_port(2551, 1);
    let n2 = at_port(2552, 2);
    let n3 = at_port(2553, 3);
    let r = Reachability::empty()
        .unreachable(&n2, &n1)
        .unreachable(&n1, &n3)
        .terminated(&n1, &n2);
    let expected = "tcp://sys@127.0.0.1:2551 -> tcp://sys@127.0.0.1:2552: Terminated [Terminated] (2)\n\
                    tcp://sys@127.0.0.1:2551 -> tcp://sys@127.0.0.1:2553: Unreachable [Unreachable] (1)\n\
                    tcp://sys@127.0.0.1:2552 -> tcp://sys@127.0.0.1:2551: Unreachable [Unreachable] (1)\n";
    assert_eq!(r.to_display_string(), expected);
    assert_eq!(Reachability::empty().to_display_string(), "");
}

#[test]
fn text_leaves_out_observers_without_a_version() {
    let n1 = at_port(2551, 1);
    let n2 = at_port(2552, 2);
    let records = vec![
        Record::new(n1.clone(), n2.clone(), ReachabilityStatus::Unreachable, 3),
        Record::new(n2.clone(), n1.clone(), ReachabilityStatus::Reachable, 1),
    ];
    let r = Reachability::new(records, vec![(n2.clone(), 1)]);
    assert_eq!(
        r.to_display_string(),
        "tcp://sys@127.0.0.1:2552 -> tcp://sys@127.0.0.1:2551: Reachable [Reachable] (1)\n"
    );
}

#[test]
fn observer_rows_and_pairwise_reachability() {
    let r = Reachability::empty()
        .unreachable(&node_a(), &node_b())
        .unreachable(&node_c(), &node_d())
        .terminated(&node_a(), &node_c());
    assert!(!r.is_reachable(&node_a(), &node_b()));
    assert!(!r.is_reachable(&node_a(), &node_c()));
    assert!(r.is_reachable(&node_b(), &node_a()));
    assert!(r.is_reachable(&node_a(), &node_d()));
    let from_a = r.records_from(&node_a());
    assert_eq!(from_a.len(), 2);
    assert!(from_a[0].same_as(&Record::new(node_a(), node_b(), ReachabilityStatus::Unreachable, 1)));
    assert!(from_a[1].same_as(&Record::new(node_a(), node_c(), ReachabilityStatus::Terminated, 2)));
    assert!(r.records_from(&node_e()).is_empty());
    let a = node_a();
    assert_eq!(a.socket_addr(), Some(SocketAddress { a: 127, b: 0, c: 0, d: 1, port: 2552 }));
    assert_eq!(a.system_name(), "sys");
}

#[test]
fn socket_address_with_uid_text() {
    assert_eq!(node(7).socket_addr_with_uid(), Some("127.0.0.1:2552/7".to_string()));
    assert_eq!(node(-3).socket_addr_with_uid(), Some("127.0.0.1:2552/-3".to_string()));
    let local = UniqueAddress { address: Address::new(Protocol::Tcp, "sys", None), uid: 1 };
    assert_eq!(local.socket_addr_with_uid(), None);
}

#[test]
fn reports_keep_an_unreachable_row_per_observer_and_versions_ahead() {
    let r = Reachability::empty()
        .unreachable(&node_a(), &node_b())
        .unreachable(&node_a(), &node_c())
        .reachable(&node_a(), &node_b())
        .terminated(&node_b(), &node_c())
        .reachable(&node_a(), &node_c());
    for rec in r.records() {
        assert!(r.records().iter().any(|y| y.observer.same_as(&rec.observer) && y.status != ReachabilityStatus::Reachable));
        assert!(rec.version <= r.current_version(&rec.observer));
    }
    assert!(r.records_from(&node_a()).is_empty());
    assert_eq!(r.current_version(&node_a()), 4);
    assert_eq!(r.records_from(&node_b()).len(), 1);
}

#[test]
fn observer_rows_are_the_observers_records() {
    let r = Reachability::empty()
        .unreachable(&node_a(), &node_b())
        .terminated(&node_a(), &node_c())
        .unreachable(&node_b(), &node_c());
    let rows = r.observer_rows(&node_a()).unwrap();
    assert_eq!(rows.len(), 2);
    assert!(rows[0].same_as(&Record::new(node_a(), node_b(), ReachabilityStatus::Unreachable, 1)));
    assert!(rows[1].same_as(&Record::new(node_a(), node_c(), ReachabilityStatus::Terminated, 2)));
    assert!(r.observer_rows(&node_c()).is_none());
}

#[test]
fn grouping_goes_by_subject_not_by_runs() {
    let records = vec![
        Record::new(node_a(), node_d(), ReachabilityStatus::Unreachable, 1),
        Record::new(node_b(), node_e(), ReachabilityStatus::Unreachable, 1),
        Record::new(node_c(), node_d(), ReachabilityStatus::Unreachable, 1),
        Record::new(node_b(), node_d(), ReachabilityStatus::Terminated, 2),
    ];
    let versions = vec![(node_a(), 1), (node_b(), 2), (node_c(), 1)];
    let r = Reachability::new(records, versions);
    let grouped = r.observers_grouped_by_unreachable();
    assert_eq!(grouped.len(), 2);
    let d = grouped.iter().find(|(s, _)| s.same_as(&node_d())).unwrap();
    assert!(same_members(&d.1, &[node_a(), node_c()]));
    let e = grouped.iter().find(|(s, _)| s.same_as(&node_e())).unwrap();
    assert!(same_members(&e.1, &[node_b()]));
}
