use perfect_collaborative_text_editing::history::clock_model::ClockRelation;
use perfect_collaborative_text_editing::history::{
    DAGHistory, History, VectorClock, VectorClockHistory,
};
use std::cmp::Ordering;

#[test]
fn vector_clock() {
    let vector_clocka = VectorClock::single("a".to_owned(), 1);
    let vector_clockb = VectorClock::single("b".to_owned(), 1);
    assert!(!(vector_clocka < vector_clockb));
    assert!(!(vector_clocka > vector_clockb));
}

#[test]
fn history_it_works() {
    let mut history1 = VectorClockHistory::new("a".to_string());
    let a = history1.add_value("a");

    let mut history2 = VectorClockHistory::new("b".to_string());

    let new_for_history2 = history1.new_for_other(&history2);
    assert_eq!(new_for_history2, [a]);

    let new_for_history1 = history2.new_for_other(&history1);
    assert_eq!(new_for_history1, []);

    for entry in new_for_history2 {
        history2.add_entry(entry);
    }

    let new_for_history2 = history1.new_for_other(&history2);
    assert_eq!(new_for_history2, []);

    let new_for_history1 = history2.new_for_other(&history1);
    assert_eq!(new_for_history1, []);
}

#[test]
fn history_it_works2() {
    let mut history1 = VectorClockHistory::new("a".to_string());
    let a = history1.add_value("a");

    let mut history2 = VectorClockHistory::new("b".to_string());

    let new_for_history2 = history1.new_for_other(&history2);
    assert_eq!(new_for_history2, [a.clone()]);

    let new_for_history1 = history2.new_for_other(&history1);
    assert_eq!(new_for_history1, []);

    for entry in new_for_history2 {
        history2.add_entry(entry);
    }

    assert_eq!(history1.heads, vec![a.clone()]);
    assert_eq!(history2.heads, vec![a.clone()]);

    let b = history2.add_value("b");

    assert_eq!(history1.heads, vec![a.clone()]);
    assert_eq!(history2.heads, vec![b.clone()]);

    let new_for_history1 = history2.new_for_other(&history1);
    assert_eq!(new_for_history1, [b.clone()]);

    let new_for_history2 = history1.new_for_other(&history2);
    assert_eq!(new_for_history2, []);
}

fn clock(components: &[(&str, usize)]) -> VectorClock {
    let mut clock = VectorClock::new();
    for (name, counter) in components {
        clock.update_with(&VectorClock::single(name.to_string(), *counter));
    }
    clock
}

#[test]
fn clock_holds_the_larger_counter_for_each_name() {
    let mut a = clock(&[("b", 2), ("a", 1), ("d", 4)]);
    let b = clock(&[("c", 3), ("a", 5), ("d", 1)]);
    a.update_with(&b);
    assert_eq!(a.get("a"), Some(5));
    assert_eq!(a.get("b"), Some(2));
    assert_eq!(a.get("c"), Some(3));
    assert_eq!(a.get("d"), Some(4));
    assert_eq!(a.get("e"), None);
    assert_eq!(a, clock(&[("a", 5), ("b", 2), ("c", 3), ("d", 4)]));
    assert_ne!(a, clock(&[("a", 5), ("b", 2), ("c", 3)]));
}

#[test]
fn clocks_compare_component_by_component() {
    let small = clock(&[("a", 1)]);
    let wide = clock(&[("a", 1), ("b", 1)]);
    let tall = clock(&[("a", 2)]);
    let other = clock(&[("b", 1)]);
    assert_eq!(small.partial_cmp(&wide), Some(Ordering::Less));
    assert_eq!(wide.partial_cmp(&small), Some(Ordering::Greater));
    assert_eq!(small.partial_cmp(&tall), Some(Ordering::Less));
    assert_eq!(tall.partial_cmp(&wide), None);
    assert_eq!(small.partial_cmp(&other), None);
    assert_eq!(small.partial_cmp(&clock(&[("a", 1)])), Some(Ordering::Equal));
    assert_eq!(small.relate(&wide), ClockRelation::Before);
    assert_eq!(wide.relate(&small), ClockRelation::After);
    assert_eq!(tall.relate(&wide), ClockRelation::Concurrent);
    assert_eq!(wide.relate(&wide.clone()), ClockRelation::Same);
    assert!(small < wide);
    assert!(!(wide < small));
    assert!(wide >= small);
}

#[test]
fn raising_a_counter_leaves_the_others() {
    let mut a = clock(&[("a", 1), ("b", 7)]);
    a.raise("a");
    assert_eq!(a.get("a"), Some(2));
    assert_eq!(a.get("b"), Some(7));
    a.raise("z");
    assert_eq!(a, clock(&[("a", 2), ("b", 7)]));
}

#[test]
fn asking_for_news_moves_the_own_clock() {
    let mut history = VectorClockHistory::<&str>::new("a".to_string());
    let other = VectorClockHistory::<&str>::new("b".to_string());
    assert_eq!(history.clock.get("a"), Some(1));
    history.new_for_other(&other);
    history.new_for_other(&other);
    assert_eq!(history.clock.get("a"), Some(3));
    assert_eq!(history.replica_id, "a");
}

#[test]
fn dag_add_value_makes_the_entry_the_only_head() {
    let mut history = DAGHistory::<String>::new("a".to_string());
    let first = history.add_value("one".to_string());
    assert_eq!(history.counter, 1);
    assert_eq!(first.id.counter, 1);
    assert_eq!(*first.id.replica_id, "a");
    assert_eq!(first.parents.len(), 0);
    let second = history.add_value("two".to_string());
    assert_eq!(history.counter, 2);
    assert_eq!(second.id.counter, 2);
    assert_eq!(second.parents.len(), 1);
    assert!(second.parents[0].same(&first.id));
    assert_eq!(history.heads.len(), 1);
    assert_eq!(history.heads[0].0, 1);
    assert_eq!(history.history.len(), 2);
    assert!(history.contains(&first.id));
}

#[test]
fn dag_add_entry_replaces_parents_among_heads() {
    let mut a = DAGHistory::<String>::new("a".to_string());
    let mut b = DAGHistory::<String>::new("b".to_string());
    let a1 = a.add_value("a1".to_string());
    let b1 = b.add_value("b1".to_string());
    assert!(b.add_entry(a1.clone()));
    assert_eq!(b.heads.len(), 2);
    let b2 = b.add_value("b2".to_string());
    assert_eq!(b2.parents.len(), 2);
    assert_eq!(b.heads.len(), 1);

    // an entry whose parents are missing is not taken in
    assert!(!a.add_entry(b2.clone()));
    assert_eq!(a.history.len(), 1);
    assert_eq!(a.heads.len(), 1);

    assert!(a.add_entry(b1.clone()));
    assert_eq!(a.heads.len(), 2);
    assert!(a.add_entry(b2.clone()));
    assert_eq!(a.heads.len(), 1);
    assert!(a.head_ids()[0].same(&b2.id));
    // an entry that is known changes nothing
    assert!(a.add_entry(b1.clone()));
    assert_eq!(a.history.len(), 3);
    assert_eq!(a.heads.len(), 1);
}

#[test]
fn dag_diff_is_what_the_other_lacks_parents_first() {
    let mut a = DAGHistory::<String>::new("a".to_string());
    let mut b = DAGHistory::<String>::new("b".to_string());
    let a1 = a.add_value("a1".to_string());
    let a2 = a.add_value("a2".to_string());
    let b1 = b.add_value("b1".to_string());
    a.add_entry(b1.clone());
    let a3 = a.add_value("a3".to_string());
    b.add_entry(a1.clone());

    let news = a.diff_to(&b);
    let ids: Vec<(String, usize)> =
        news.iter().map(|e| ((*e.id.replica_id).clone(), e.id.counter)).collect();
    assert_eq!(ids, vec![("a".to_string(), 2), ("a".to_string(), 3)]);
    assert_eq!(a3.parents.len(), 2);
    assert!(a2.parents[0].same(&a1.id));

    let back = b.new_for_other(&a);
    assert_eq!(back.len(), 0);

    let fresh = DAGHistory::<String>::new("c".to_string());
    let all = a.diff_to(&fresh);
    let ids: Vec<(String, usize)> =
        all.iter().map(|e| ((*e.id.replica_id).clone(), e.id.counter)).collect();
    assert_eq!(
        ids,
        vec![
            ("a".to_string(), 1),
            ("a".to_string(), 2),
            ("b".to_string(), 1),
            ("a".to_string(), 3)
        ]
    );
}

#[test]
fn dag_counter_follows_entries_under_the_own_name() {
    let mut first = DAGHistory::<String>::new("a".to_string());
    let one = first.add_value("one".to_string());
    let two = first.add_value("two".to_string());
    let mut reloaded = DAGHistory::<String>::new("a".to_string());
    assert!(reloaded.add_entry(one));
    assert!(reloaded.add_entry(two));
    assert_eq!(reloaded.counter, 2);
    let three = reloaded.add_value("three".to_string());
    assert_eq!(three.id.counter, 3);
}
