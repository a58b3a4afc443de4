use actor_rs::vector_clock::{Node, VectorClock};
use actor_rs::clock_model::ClockOrdering;

#[test]
fn have_zero_versions_when_created() {
    let clock = VectorClock::default();
    assert_eq!(clock.len(), 0);
}

#[test]
fn not_happen_before_itself() {
    let clock1 = VectorClock::default();
    let clock2 = VectorClock::default();
    assert!(!clock1.concurrent(&clock2));
}

#[test]
fn pass_misc_comparison_test1() {
    let clock1_1 = VectorClock::default();
    let clock2_1 = clock1_1 + Node::new("1");
    let clock3_1 = clock2_1 + Node::new("2");
    let clock4_1 = clock3_1 + Node::new("1");

    let clock1_2 = VectorClock::default();
    let clock2_2 = clock1_2 + Node::new("1");
    let clock3_2 = clock2_2 + Node::new("2");
    let clock4_2 = clock3_2 + Node::new("1");

    assert!(!clock4_1.concurrent(&clock4_2));
}

#[test]
fn pass_misc_comparison_test2() {
    let clock1_1 = VectorClock::default();
    let clock2_1 = clock1_1 + Node::new("1");
    let clock3_1 = clock2_1 + Node::new("2");
    let clock4_1 = clock3_1 + Node::new("1");

    let clock1_2 = VectorClock::default();
    let clock2_2 = clock1_2 + Node::new("1");
    let clock3_2 = clock2_2 + Node::new("2");
    let clock4_2 = clock3_2 + Node::new("1");
    let clock5_2 = clock4_2 + Node::new("3");

    assert!(clock4_1.before(&clock5_2));
}

#[test]
fn pass_misc_comparison_test3() {
    let clock1_1 = VectorClock::default();
    let clock2_1 = clock1_1 + Node::new("1");

    let clock1_2 = VectorClock::default();
    let clock2_2 = clock1_2 + Node::new("2");

    assert!(clock2_1.concurrent(&clock2_2));
}

#[test]
fn pass_misc_comparison_test4() {
    let clock1_3 = VectorClock::default();
    let clock2_3 = clock1_3 + Node::new("1");
    let clock3_3 = clock2_3 + Node::new("2");
    let clock4_3 = clock3_3 + Node::new("1");

    let clock1_4 = VectorClock::default();
    let clock2_4 = clock1_4 + Node::new("1");
    let clock3_4 = clock2_4 + Node::new("1");
    let clock4_4 = clock3_4 + Node::new("3");

    assert!(clock4_3.concurrent(&clock4_4));
}

#[test]
fn pass_misc_comparison_test5() {
    let clock1_1 = VectorClock::default();
    let clock2_1 = clock1_1 + Node::new("2");
    let clock3_1 = clock2_1 + Node::new("2");

    let clock1_2 = VectorClock::default();
    let clock2_2 = clock1_2 + Node::new("1");
    let clock3_2 = clock2_2 + Node::new("2");
    let clock4_2 = clock3_2 + Node::new("2");
    let clock5_2 = clock4_2 + Node::new("3");

    assert!(clock3_1.before(&clock5_2));
    assert!(clock5_2.after(&clock3_1));
}

#[test]
fn pass_misc_comparison_test6() {
    let clock1_1 = VectorClock::default();
    let clock2_1 = clock1_1 + Node::new("1");
    let clock3_1 = clock2_1 + Node::new("2");

    let clock1_2 = VectorClock::default();
    let clock2_2 = clock1_2 + Node::new("1");
    let clock3_2 = clock2_2 + Node::new("1");

    assert!(clock3_1.concurrent(&clock3_2));
    assert!(clock3_2.concurrent(&clock3_1));
}

#[test]
fn pass_misc_comparison_test7() {
    let clock1_1 = VectorClock::default();
    let clock2_1 = clock1_1 + Node::new("1");
    let clock3_1 = clock2_1 + Node::new("2");
    let clock4_1 = clock3_1 + Node::new("2");
    let clock5_1 = clock4_1.clone() + Node::new("3");

    let clock1_2 = clock4_1;
    let clock2_2 = clock1_2 + Node::new("2");
    let clock3_2 = clock2_2 + Node::new("2");

    assert!(clock5_1.concurrent(&clock3_2));
    assert!(clock3_2.concurrent(&clock5_1));
}

#[test]
fn pass_misc_comparison_test8() {
    let clock1_1 = VectorClock::default();
    let clock2_1 = clock1_1 + Node::from_hash("1");
    let clock3_1 = clock2_1 + Node::from_hash("3");

    let clock1_2 = clock3_1.clone() + Node::from_hash("2");

    let clock4_1 = clock3_1 + Node::from_hash("3");

    assert!(clock4_1.concurrent(&clock1_2));
    assert!(clock1_2.concurrent(&clock4_1));
}

#[test]
fn correctly_merge_two_clocks() {
    let node1 = Node::new("1");
    let node2 = Node::new("2");
    let node3 = Node::new("3");

    let clock1_1 = VectorClock::default();
    let clock2_1 = clock1_1 + node1.clone();
    let clock3_1 = clock2_1 + node2.clone();
    let clock4_1 = clock3_1 + node2.clone();
    let clock5_1 = clock4_1.clone() + node3.clone();

    let clock1_2 = clock4_1;
    let clock2_2 = clock1_2 + node2.clone();
    let clock3_2 = clock2_2 + node2.clone();

    let merged1 = clock3_2.merge(&clock5_1);
    assert_eq!(merged1.len(), 3);
    assert!(merged1.contains_node(&node1));
    assert!(merged1.contains_node(&node2));
    assert!(merged1.contains_node(&node3));

    let merged2 = clock5_1.merge(&clock3_2);
    assert_eq!(merged2.len(), 3);
    assert!(merged2.contains_node(&node1));
    assert!(merged2.contains_node(&node2));
    assert!(merged2.contains_node(&node3));

    assert!(clock3_2.before(&merged1));
    assert!(clock5_1.before(&merged1));

    assert!(clock3_2.before(&merged2));
    assert!(clock5_1.before(&merged2));

    assert!(merged1.same(&merged2));
}

#[test]
fn node_names_are_hashed_to_hex_sha256() {
    let node = Node::new("1");
    assert_eq!(
        node.as_str(),
        "6b86b273ff34fce19d6b804eff5a3f5747ada4eaa22f1d49c01e52ddb7875b4b"
    );
    let same = Node::from_hash("6b86b273ff34fce19d6b804eff5a3f5747ada4eaa22f1d49c01e52ddb7875b4b");
    assert!(node.same_node(&same));
    assert_eq!(Node::hash("").len(), 64);
}

#[test]
fn increment_counts_events_per_node() {
    let clock = VectorClock::default() + Node::from_hash("a") + Node::from_hash("a") + Node::from_hash("b");
    assert_eq!(clock.len(), 2);
    let again = clock.clone() + Node::from_hash("a");
    assert!(clock.before(&again));
    assert!(again.after(&clock));
    assert!(!again.same(&clock));
}

#[test]
fn comparison_is_reflexive_and_antisymmetric() {
    let a = VectorClock::default() + Node::from_hash("x") + Node::from_hash("y");
    let b = a.clone() + Node::from_hash("z");
    assert!(a.same(&a.clone()));
    assert!(matches!(a.compare_to(&b), ClockOrdering::Before));
    assert!(matches!(b.compare_to(&a), ClockOrdering::After));
    assert!(matches!(a.compare_to(&a), ClockOrdering::Same));
}

#[test]
fn merge_is_an_upper_bound_and_idempotent() {
    let a = VectorClock::default() + Node::from_hash("x") + Node::from_hash("x");
    let b = VectorClock::default() + Node::from_hash("y");
    let m = a.merge(&b);
    assert!(a.before(&m));
    assert!(b.before(&m));
    assert!(m.merge(&m).same(&m));
    assert!(a.merge(&b).same(&b.merge(&a)));
}

#[test]
fn prune_removes_the_node() {
    let a = VectorClock::default() + Node::from_hash("x") + Node::from_hash("y");
    let p = a.prune(&Node::from_hash("x"));
    assert_eq!(p.len(), 1);
    assert!(!p.contains_node(&Node::from_hash("x")));
    assert!(p.contains_node(&Node::from_hash("y")));
}

#[test]
fn end_marker_is_the_hash_of_endmaker() {
    let (node, counter) = VectorClock::cmp_end_maker();
    assert_eq!(counter, 0);
    assert!(node.same_node(&Node::new("endmaker")));
}
