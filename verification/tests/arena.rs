use perfect_collaborative_text_editing::handle_vec::{Handle, HandleVec};
use perfect_collaborative_text_editing::lexical::string_sign;
use perfect_collaborative_text_editing::rc_hashable::RcHashable;

#[test]
fn handles_address_what_was_pushed() {
    let mut arena: HandleVec<String> = HandleVec::new();
    assert_eq!(arena.len(), 0);
    let first = arena.push("one".to_string());
    let second = arena.push("two".to_string());
    assert_eq!(first.0, 0);
    assert_eq!(second.0, 1);
    assert_eq!(arena.index(first), "one");
    assert_eq!(arena.index(second), "two");
    arena.index_mut(first).push('!');
    assert_eq!(arena.index(first), "one!");
    assert_eq!(arena.index(second), "two");
    assert_eq!(arena.len(), 2);
    let copy: Handle<String> = first;
    assert!(copy == first);
    assert!(first != second);
    assert!(first.clone() == first);
}

#[test]
fn shared_values_are_told_apart_by_allocation() {
    let a = RcHashable::new(5);
    let b = RcHashable::new(5);
    let c = a.clone();
    assert_eq!(*a.0, 5);
    assert!(a.ptr_eq(&c));
    assert!(!a.ptr_eq(&b));
    assert_eq!(*c.0, *b.0);
}

#[test]
fn strings_compare_by_code_point() {
    assert_eq!(string_sign("", ""), 0);
    assert_eq!(string_sign("", "a"), -1);
    assert_eq!(string_sign("a", ""), 1);
    assert_eq!(string_sign("A", "B"), -1);
    assert_eq!(string_sign("B", "A"), 1);
    assert_eq!(string_sign("abc", "abd"), -1);
    assert_eq!(string_sign("abc", "ab"), 1);
    assert_eq!(string_sign("replica10", "replica9"), -1);
    assert_eq!(string_sign("é", "z"), 1);
    assert_eq!(string_sign("same", "same"), 0);
}
