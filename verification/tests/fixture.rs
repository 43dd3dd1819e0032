use perfect_collaborative_text_editing::fixture::multi;
use perfect_collaborative_text_editing::fixture::single::{
    same_text, FixtureOperation, FixtureOperations,
};
use perfect_collaborative_text_editing::pcte::Pcte;
use std::rc::Rc;

#[test]
fn single_replica_follows_a_plain_sequence() {
    let operations = FixtureOperations {
        operations: vec![
            FixtureOperation::Insert { position: 0, character: 'b' },
            FixtureOperation::Insert { position: 0, character: 'a' },
            FixtureOperation::Insert { position: 2, character: 'd' },
            FixtureOperation::Insert { position: 2, character: 'c' },
            FixtureOperation::Delete { position: 1 },
            FixtureOperation::Insert { position: 1, character: 'B' },
            FixtureOperation::Delete { position: 3 },
            FixtureOperation::Delete { position: 0 },
            FixtureOperation::Insert { position: 2, character: 'z' },
        ],
    };
    assert!(operations.all_fit());
    assert_eq!(operations.first_mismatch(Rc::new("replica".to_string())), None);
}

#[test]
fn single_replica_reports_the_operation_that_does_not_fit() {
    let operations = FixtureOperations {
        operations: vec![
            FixtureOperation::Insert { position: 0, character: 'a' },
            FixtureOperation::Delete { position: 0 },
            FixtureOperation::Delete { position: 0 },
            FixtureOperation::Insert { position: 0, character: 'a' },
        ],
    };
    assert!(!operations.all_fit());
    assert_eq!(operations.first_mismatch(Rc::new("replica".to_string())), Some(2));
    let operations = FixtureOperations {
        operations: vec![FixtureOperation::Insert { position: 1, character: 'a' }],
    };
    assert!(!operations.all_fit());
    assert_eq!(operations.first_mismatch(Rc::new("replica".to_string())), Some(0));
}

#[test]
fn generation_rules() {
    assert!(!FixtureOperation::may_delete(0));
    assert!(FixtureOperation::may_delete(1));
    assert_eq!(FixtureOperation::insert_limit(3), 3);
    assert_eq!(FixtureOperation::delete_limit(3), 2);
    assert_eq!(FixtureOperation::character_of(0x21), '!');
    assert_eq!(FixtureOperation::character_of(0x7e), '~');
    assert_eq!(FixtureOperation::Insert { position: 0, character: 'a' }.size_after(4), 5);
    assert_eq!(FixtureOperation::Delete { position: 0 }.size_after(4), 3);
}

#[test]
fn same_text_compares_character_by_character() {
    assert!(same_text("", &vec![]));
    assert!(same_text("aé", &vec!['a', 'é']));
    assert!(!same_text("ab", &vec!['a']));
    assert!(!same_text("a", &vec!['a', 'b']));
    assert!(!same_text("ab", &vec!['a', 'c']));
}

#[test]
fn group_of_replicas_runs_its_steps() {
    let mut replicas: Vec<Pcte> = Vec::new();
    assert!(multi::FixtureOperation::CreateReplica.run(&mut replicas));
    assert!(multi::FixtureOperation::CreateReplica.run(&mut replicas));
    assert_eq!(*replicas[0].replica_id, "replica0");
    assert_eq!(*replicas[1].replica_id, "replica1");
    assert!(multi::FixtureOperation::Insert { index: 0, position: 7, character: 'a' }
        .run(&mut replicas));
    assert!(multi::FixtureOperation::Insert { index: 0, position: 3, character: 'b' }
        .run(&mut replicas));
    assert_eq!(replicas[0].text(), "ab");
    assert!(multi::FixtureOperation::Insert { index: 0, position: 4, character: 'c' }
        .run(&mut replicas));
    assert_eq!(replicas[0].text(), "acb");
    assert!(multi::FixtureOperation::Delete { index: 1, position: 5 }.run(&mut replicas));
    assert_eq!(replicas[1].text(), "");
    assert!(multi::FixtureOperation::Synchronize { index1: 1, index2: 0 }.run(&mut replicas));
    assert_eq!(replicas[1].text(), "acb");
    assert!(multi::FixtureOperation::Delete { index: 1, position: 5 }.run(&mut replicas));
    assert_eq!(replicas[1].text(), "ac");
    assert!(multi::FixtureOperation::Synchronize { index1: 0, index2: 1 }.run(&mut replicas));
    assert_eq!(replicas[0].text(), "ac");
    assert!(!multi::FixtureOperation::Synchronize { index1: 0, index2: 0 }.run(&mut replicas));
    assert!(!multi::FixtureOperation::Synchronize { index1: 0, index2: 2 }.run(&mut replicas));
    assert!(!multi::FixtureOperation::Insert { index: 2, position: 0, character: 'x' }
        .run(&mut replicas));
    assert_eq!(replicas.len(), 2);
}

#[test]
fn group_of_replicas_reports_the_first_failing_step() {
    let steps = multi::FixtureOperations {
        operations: vec![
            multi::FixtureOperation::CreateReplica,
            multi::FixtureOperation::Insert { index: 0, position: 0, character: 'a' },
            multi::FixtureOperation::CreateReplica,
            multi::FixtureOperation::Synchronize { index1: 0, index2: 1 },
            multi::FixtureOperation::Delete { index: 1, position: 9 },
            multi::FixtureOperation::Synchronize { index1: 1, index2: 0 },
        ],
    };
    assert_eq!(steps.first_failure(), None);
    let steps = multi::FixtureOperations {
        operations: vec![
            multi::FixtureOperation::CreateReplica,
            multi::FixtureOperation::Synchronize { index1: 0, index2: 1 },
        ],
    };
    assert_eq!(steps.first_failure(), Some(1));
}

#[test]
fn many_replicas_get_decimal_names() {
    let mut replicas: Vec<Pcte> = Vec::new();
    for _ in 0..12 {
        assert!(multi::FixtureOperation::CreateReplica.run(&mut replicas));
    }
    assert_eq!(*replicas[9].replica_id, "replica9");
    assert_eq!(*replicas[10].replica_id, "replica10");
    assert_eq!(*replicas[11].replica_id, "replica11");
}

fn pseudo_random_edits(seed: u64, count: usize) -> FixtureOperations {
    let mut state = seed;
    let mut next = move |bound: usize| {
        state = state.wrapping_mul(6364136223846793005).wrapping_add(1442695040888963407);
        ((state >> 33) as usize) % bound
    };
    let mut operations = Vec::new();
    let mut size = 0usize;
    for _ in 0..count {
        let insert = !FixtureOperation::may_delete(size) || next(3) != 0;
        let operation = if insert {
            FixtureOperation::Insert {
                position: next(FixtureOperation::insert_limit(size) + 1),
                character: FixtureOperation::character_of(0x21 + next(0x5e) as u8),
            }
        } else {
            FixtureOperation::Delete { position: next(FixtureOperation::delete_limit(size) + 1) }
        };
        size = operation.size_after(size);
        operations.push(operation);
    }
    FixtureOperations { operations }
}

#[test]
fn single_replica_follows_many_edits() {
    for seed in 0..40u64 {
        let operations = pseudo_random_edits(seed, 60);
        assert!(operations.all_fit());
        assert_eq!(operations.first_mismatch(Rc::new("replica".to_string())), None, "{:?}", operations);
    }
}
