use perfect_collaborative_text_editing::handle_vec::Handle;
use perfect_collaborative_text_editing::pcte::{DeleteMessage, InsertMessage, Pcte, PcteError};
use std::marker::PhantomData;
use std::rc::Rc;

#[test]
fn pcte_it_works() {
    let mut pcte = Pcte::new(Rc::new("a".to_string()));
    pcte.insert(0, 'h').unwrap();
    pcte.insert(1, 'e').unwrap();
    pcte.insert(2, 'l').unwrap();
    pcte.insert(3, 'l').unwrap();
    pcte.insert(4, 'o').unwrap();
    let text = pcte.text();
    assert_eq!(text, "hello");
    println!("{:#?}", pcte);
}

#[test]
fn pcte_it_works2() {
    let mut pcte = Pcte::new(Rc::new("a".to_string()));
    pcte.insert(0, 'h').unwrap();
    pcte.delete(0).unwrap();
    let text = pcte.text();
    assert_eq!(text, "");
    println!("{:#?}", pcte);
}

#[test]
fn it_works3() {
    let mut pcte = Pcte::new(Rc::new("a".to_string()));
    pcte.insert(0, 'o').unwrap();
    pcte.insert(0, 'l').unwrap();
    println!("{:#?}", pcte);
    assert_eq!(pcte.text(), "lo");
    pcte.delete(0).unwrap();
    let text = pcte.text();
    assert_eq!(text, "o");
}

#[test]
fn it_works4() {
    let mut pcte_a = Pcte::new(Rc::new("a".to_string()));
    let mut pcte_b = Pcte::new(Rc::new("b".to_string()));
    pcte_a.insert(0, 'a').unwrap();
    pcte_b.insert(0, 'b').unwrap();
    assert_eq!(pcte_a.text(), "a");
    assert_eq!(pcte_b.text(), "b");
    pcte_a.synchronize(&mut pcte_b).unwrap();
    assert_eq!(pcte_a.text(), "ab", "{:#?}", pcte_a);
    assert_eq!(pcte_b.text(), "ab");
}

#[test]
fn insert_beyond_the_end_is_refused() {
    let mut pcte = Pcte::new(Rc::new("a".to_string()));
    assert_eq!(pcte.insert(1, 'x'), Err(PcteError::IndexOutOfRange));
    pcte.insert(0, 'x').unwrap();
    assert_eq!(pcte.insert(2, 'y'), Err(PcteError::IndexOutOfRange));
    assert_eq!(pcte.text(), "x");
    pcte.insert(1, 'y').unwrap();
    assert_eq!(pcte.text(), "xy");
}

#[test]
fn delete_at_the_end_is_refused() {
    let mut pcte = Pcte::new(Rc::new("a".to_string()));
    assert_eq!(pcte.delete(0), Err(PcteError::IndexOutOfRange));
    pcte.insert(0, 'x').unwrap();
    assert_eq!(pcte.delete(1), Err(PcteError::IndexOutOfRange));
    assert_eq!(pcte.text(), "x");
}

fn replica(name: &str) -> Pcte {
    Pcte::new(Rc::new(name.to_string()))
}

fn type_in(pcte: &mut Pcte, text: &str) {
    for character in text.chars() {
        let end = pcte.text().chars().count();
        pcte.insert(end, character).unwrap();
    }
}

#[test]
fn deleted_character_stays_as_a_node() {
    let mut a = replica("A");
    a.insert(0, 'h').unwrap();
    a.delete(0).unwrap();
    assert_eq!(a.text(), "");
    assert_eq!(a.nodes.len(), 2);
    assert_eq!(a.nodes.0[1].character, None);
    assert_eq!(a.nodes.0[1].counter, 1);
    assert_eq!(*a.nodes.0[1].replica_id, "A");
}

#[test]
fn concurrent_inserts_at_the_start_are_ordered_by_replica_name() {
    let mut a = replica("A");
    let mut b = replica("B");
    b.insert(0, 'b').unwrap();
    a.insert(0, 'a').unwrap();
    b.synchronize(&mut a).unwrap();
    assert_eq!(a.text(), "ab");
    assert_eq!(b.text(), "ab");
}

#[test]
fn same_replica_name_orders_by_counter() {
    let mut a = replica("A");
    a.insert(0, 'x').unwrap();
    a.insert(1, 'y').unwrap();
    a.insert(1, 'z').unwrap();
    assert_eq!(a.text(), "xzy");
    a.insert(1, 'w').unwrap();
    assert_eq!(a.text(), "xwzy");
}

#[test]
fn interleaved_concurrent_edits() {
    let mut a = replica("A");
    let mut b = replica("B");
    a.insert(0, 'X').unwrap();
    a.insert(1, 'Z').unwrap();
    let batch = a.pending_for(&b);
    assert_eq!(batch.len(), 2);
    b.apply_batch(&batch).unwrap();
    assert_eq!(b.text(), "XZ");
    b.insert(1, 'Y').unwrap();
    let back = b.pending_for(&a);
    assert_eq!(back.len(), 1);
    a.apply_batch(&back).unwrap();
    assert_eq!(a.text(), "XYZ");
    assert_eq!(b.text(), "XYZ");
}

#[test]
fn concurrent_delete_of_the_same_character() {
    let mut a = replica("A");
    let mut b = replica("B");
    type_in(&mut a, "abc");
    a.synchronize(&mut b).unwrap();
    assert_eq!(b.text(), "abc");
    a.delete(1).unwrap();
    b.delete(1).unwrap();
    a.synchronize(&mut b).unwrap();
    assert_eq!(a.text(), "ac");
    assert_eq!(b.text(), "ac");
    a.synchronize(&mut b).unwrap();
    assert_eq!(a.text(), "ac");
    assert_eq!(b.text(), "ac");
}

#[test]
fn insert_next_to_a_deleted_character_then_sync() {
    let mut a = replica("A");
    let mut b = replica("B");
    type_in(&mut a, "abc");
    a.delete(1).unwrap();
    a.insert(1, 'x').unwrap();
    assert_eq!(a.text(), "axc");
    a.synchronize(&mut b).unwrap();
    assert_eq!(b.text(), "axc");
    b.insert(2, 'y').unwrap();
    b.synchronize(&mut a).unwrap();
    assert_eq!(a.text(), "axyc");
    assert_eq!(b.text(), "axyc");
}

#[test]
fn text_has_one_character_for_each_live_node() {
    let mut a = replica("A");
    type_in(&mut a, "hello world");
    a.delete(0).unwrap();
    a.delete(4).unwrap();
    a.insert(3, '!').unwrap();
    let live = a.nodes.0.iter().filter(|node| node.character.is_some()).count();
    assert_eq!(live, 10);
    assert_eq!(a.text().chars().count(), live);
    assert_eq!(a.text(), "ell!oworld");
}

#[test]
fn applying_an_entry_twice_changes_nothing() {
    let mut a = replica("A");
    let mut b = replica("B");
    type_in(&mut a, "ab");
    let batch = a.pending_for(&b);
    b.apply_entry(&batch[0]).unwrap();
    let once = format!("{:?}", b);
    b.apply_entry(&batch[0]).unwrap();
    assert_eq!(format!("{:?}", b), once);
    assert_eq!(b.text(), "a");
    b.apply_batch(&batch).unwrap();
    assert_eq!(b.text(), "ab");
    let twice = format!("{:?}", b);
    b.apply_batch(&batch).unwrap();
    assert_eq!(format!("{:?}", b), twice);
}

#[test]
fn exchange_in_either_order_gives_the_same_texts() {
    let mut a1 = replica("A");
    let mut b1 = replica("B");
    type_in(&mut a1, "one");
    type_in(&mut b1, "two");
    let mut a2 = replica("A");
    let mut b2 = replica("B");
    type_in(&mut a2, "one");
    type_in(&mut b2, "two");

    let for_a = b1.pending_for(&a1);
    let for_b = a1.pending_for(&b1);
    a1.apply_batch(&for_a).unwrap();
    b1.apply_batch(&for_b).unwrap();

    let for_a = b2.pending_for(&a2);
    let for_b = a2.pending_for(&b2);
    b2.apply_batch(&for_b).unwrap();
    a2.apply_batch(&for_a).unwrap();

    assert_eq!(a1.text(), a2.text());
    assert_eq!(b1.text(), b2.text());
    assert_eq!(a1.text(), "onetwo");
    assert_eq!(b1.text(), "onetwo");
}

#[test]
fn local_insert_reaches_the_peer_as_the_record_would() {
    let mut a = replica("A");
    let mut b = replica("B");
    let mut c = replica("B");
    type_in(&mut a, "ac");
    a.synchronize(&mut b).unwrap();
    c.apply_batch(&a.pending_for(&c)).unwrap();
    a.insert(1, 'b').unwrap();
    let pending = a.pending_for(&c);
    assert_eq!(pending.len(), 1);
    c.apply_entry(&pending[0]).unwrap();
    a.synchronize(&mut b).unwrap();
    assert_eq!(b.text(), "abc");
    assert_eq!(c.text(), b.text());
}

#[test]
fn synchronized_replicas_have_the_same_heads() {
    let mut a = replica("A");
    let mut b = replica("B");
    type_in(&mut a, "xa");
    type_in(&mut b, "yb");
    a.synchronize(&mut b).unwrap();
    let mut heads_a: Vec<(String, usize)> = a
        .history
        .head_ids()
        .iter()
        .map(|id| ((*id.replica_id).clone(), id.counter))
        .collect();
    let mut heads_b: Vec<(String, usize)> = b
        .history
        .head_ids()
        .iter()
        .map(|id| ((*id.replica_id).clone(), id.counter))
        .collect();
    heads_a.sort();
    heads_b.sort();
    assert_eq!(heads_a, vec![("A".to_string(), 2), ("B".to_string(), 2)]);
    assert_eq!(heads_a, heads_b);
    assert_eq!(a.history.history.len(), 4);
    assert_eq!(b.history.history.len(), 4);
    a.insert(0, '!').unwrap();
    assert_eq!(a.history.heads.len(), 1);
    a.synchronize(&mut b).unwrap();
    assert_eq!(b.history.heads.len(), 1);
    assert_eq!(b.history.head_ids()[0].counter, 3);
    assert_eq!(a.text(), b.text());
}

#[test]
fn every_character_is_placed_once_in_each_tree() {
    let mut a = replica("A");
    let mut b = replica("B");
    type_in(&mut a, "abc");
    type_in(&mut b, "de");
    a.synchronize(&mut b).unwrap();
    a.delete(2).unwrap();
    for (k, node) in a.nodes.0.iter().enumerate() {
        let (left, right) = a.locate_by_id(&node.replica_id, node.counter).unwrap();
        assert_eq!(a.tree_nodes.0[left.0].node_handle.0, k);
        assert_eq!(a.tree_nodes.0[right.0].node_handle.0, k);
        let in_left = a
            .tree_nodes
            .0
            .iter()
            .filter(|tree_node| tree_node.children.iter().any(|child| child.0 == left.0))
            .count();
        let in_right = a
            .tree_nodes
            .0
            .iter()
            .filter(|tree_node| tree_node.children.iter().any(|child| child.0 == right.0))
            .count();
        let placements = a.tree_nodes.0.iter().filter(|t| t.node_handle.0 == k).count();
        assert_eq!(placements, 2);
        if k == 0 {
            assert_eq!((in_left, in_right), (0, 0));
        } else {
            assert_eq!((in_left, in_right), (1, 1));
        }
    }
    assert!(a.locate_by_id(&"C".to_string(), 1).is_none());
}

#[test]
fn search_counts_children_of_one_node_alike() {
    let mut a = replica("A");
    type_in(&mut a, "ab");
    a.insert(1, 'x').unwrap();
    // right-origin tree: root -> [a, b], b -> [x]
    let root = a.right_origin_tree;
    let find = |node: usize| {
        a.node_last_node_and_index_including_deleted_of_node(
            root,
            a.tree_nodes.0[2 * node].node_handle,
            0,
        )
        .map(|found| (found.0 .0, found.1))
    };
    assert_eq!(find(0), Ok((1, 0)));
    assert_eq!(find(1), Ok((3, 1)));
    assert_eq!(find(2), Ok((5, 1)));
    assert_eq!(find(3), Ok((7, 3)));
    let from_leaf = a.node_last_node_and_index_including_deleted_of_node(
        Handle(7, PhantomData),
        a.tree_nodes.0[2].node_handle,
        5,
    );
    assert_eq!(from_leaf.map(|found| (found.0 .0, found.1)), Err(6));
}

#[test]
fn remote_insert_with_unknown_origin_is_a_causality_violation() {
    let mut a = replica("A");
    let root = Rc::new(String::new());
    let message = InsertMessage {
        left_replica_id: Rc::new("B".to_string()),
        left_counter: 7,
        right_replica_id: root.clone(),
        right_counter: 0,
        replica_id: Rc::new("B".to_string()),
        counter: 8,
        character: 'x',
    };
    assert_eq!(a.insert_remote(&message), Err(PcteError::CausalityViolation));
    assert_eq!(a.text(), "");
    assert_eq!(a.nodes.len(), 1);
    let message = InsertMessage {
        left_replica_id: root.clone(),
        left_counter: 0,
        right_replica_id: root.clone(),
        right_counter: 0,
        replica_id: Rc::new("B".to_string()),
        counter: 8,
        character: 'x',
    };
    assert_eq!(a.insert_remote(&message), Ok(()));
    assert_eq!(a.text(), "x");
    assert_eq!(a.insert_remote(&message), Err(PcteError::IdentityCollision));
    assert_eq!(a.text(), "x");
    assert_eq!(a.nodes.len(), 2);
}

#[test]
fn remote_delete_is_idempotent_and_needs_a_known_character() {
    let mut a = replica("A");
    type_in(&mut a, "ab");
    let unknown = DeleteMessage { replica_id: Rc::new("B".to_string()), counter: 1 };
    assert_eq!(a.delete_remote(&unknown), Err(PcteError::CausalityViolation));
    let known = DeleteMessage { replica_id: Rc::new("A".to_string()), counter: 1 };
    assert_eq!(a.delete_remote(&known), Ok(()));
    assert_eq!(a.text(), "b");
    assert_eq!(a.delete_remote(&known), Ok(()));
    assert_eq!(a.text(), "b");
}

#[test]
fn entry_with_unknown_parent_is_a_causality_violation() {
    let mut a = replica("A");
    let mut b = replica("B");
    type_in(&mut a, "ab");
    let batch = a.pending_for(&b);
    assert_eq!(b.apply_entry(&batch[1]), Err(PcteError::CausalityViolation));
    assert_eq!(b.text(), "");
    assert_eq!(b.history.history.len(), 0);
    assert_eq!(b.apply_entry(&batch[0]), Ok(()));
    assert_eq!(b.apply_entry(&batch[1]), Ok(()));
    assert_eq!(b.text(), "ab");
}

#[test]
fn local_insert_under_a_taken_identity_is_refused() {
    let mut a = replica("A");
    let root = Rc::new(String::new());
    let message = InsertMessage {
        left_replica_id: root.clone(),
        left_counter: 0,
        right_replica_id: root.clone(),
        right_counter: 0,
        replica_id: Rc::new("A".to_string()),
        counter: 1,
        character: 'x',
    };
    a.insert_remote(&message).unwrap();
    assert_eq!(a.insert(0, 'y'), Err(PcteError::IdentityCollision));
    assert_eq!(a.text(), "x");
    assert_eq!(a.counter, 0);
}

#[test]
fn replicas_may_differ_after_concurrent_inserts_before_concurrent_characters() {
    let mut a = replica("a");
    let mut b = replica("b");
    a.insert(0, 'a').unwrap();
    a.insert(0, 'x').unwrap();
    b.insert(0, 'b').unwrap();
    b.insert(0, 'y').unwrap();
    a.synchronize(&mut b).unwrap();
    let mut in_a: Vec<char> = a.text().chars().collect();
    let mut in_b: Vec<char> = b.text().chars().collect();
    in_a.sort();
    in_b.sort();
    assert_eq!(in_a, vec!['a', 'b', 'x', 'y']);
    assert_eq!(in_a, in_b);
    assert_eq!(a.history.heads.len(), 2);
    assert_eq!(b.history.heads.len(), 2);
}
