use monoid_trees::container::double_linked_list::{LinkedList, Node};
use monoid_trees::container::persistent_stack::PersistentStack;
use monoid_trees::container::vector::Vector;

fn drain<T: Clone>(s: &PersistentStack<T>) -> Vec<T> {
    let mut out = Vec::new();
    let mut it = s.iter();
    while let Some(x) = it.next() {
        out.push(x.clone());
    }
    out
}

#[test]
fn persistent_stack_push_leaves_the_old_version() {
    let empty: PersistentStack<i32> = PersistentStack::new();
    let one = empty.push(1);
    let two = one.push(2);
    let other = one.push(3);
    assert_eq!(drain(&empty), Vec::<i32>::new());
    assert_eq!(drain(&one), vec![1]);
    assert_eq!(drain(&two), vec![2, 1]);
    assert_eq!(drain(&other), vec![3, 1]);
    assert_eq!(two.top(), Some(&2));
    assert_eq!(empty.top(), None);
}

#[test]
fn persistent_stack_pop_of_empty_is_empty() {
    let empty: PersistentStack<u8> = PersistentStack::new();
    assert_eq!(drain(&empty.pop()), Vec::<u8>::new());
    let s = empty.push(7).push(8).push(9);
    assert_eq!(drain(&s.pop()), vec![8, 7]);
    assert_eq!(drain(&s.pop().pop().pop()), Vec::<u8>::new());
    assert_eq!(drain(&s.pop().pop().pop().pop()), Vec::<u8>::new());
    assert_eq!(drain(&s), vec![9, 8, 7]);
}

#[test]
fn persistent_stack_release_stops_at_the_shared_tail() {
    let mut base: PersistentStack<usize> = PersistentStack::new();
    for i in 0..100_000 {
        base = base.push(i);
    }
    let branch = base.push(7).push(8);
    branch.release();
    assert_eq!(base.top(), Some(&99_999));
    assert_eq!(drain(&base).len(), 100_000);
    base.release();
}

#[test]
fn linked_list_front_push_and_pop() {
    let mut l: LinkedList<&str> = LinkedList::new();
    assert!(l.pop_front_node().is_none());
    l.push_front_node(Box::new(Node::new("c")));
    l.push_front_node(Box::new(Node::new("b")));
    l.push_front_node(Box::new(Node::new("a")));
    assert_eq!(l.pop_front_node().unwrap().into_elem(), "a");
    assert_eq!(l.pop_front_node().unwrap().into_elem(), "b");
    l.push_front_node(Box::new(Node::new("z")));
    assert_eq!(l.pop_front_node().unwrap().into_elem(), "z");
    assert_eq!(l.pop_front_node().unwrap().into_elem(), "c");
    assert!(l.pop_front_node().is_none());
}

#[test]
fn vector_pop_of_empty_and_growth() {
    let mut v: Vector<u64> = Vector::new();
    assert_eq!(v.pop(), None);
    for i in 0..1000u64 {
        v.push(i);
    }
    for i in (0..1000u64).rev() {
        assert_eq!(v.pop(), Some(i));
    }
    assert_eq!(v.pop(), None);
}
