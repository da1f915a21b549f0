use monoid_trees::container::vector::Vector;

#[test]
fn vector_test() {
    let mut v = Vector::new();
    v.push(0);
    v.push(1);
    v.push(2);
    v.push(0);
    v.push(1);
    v.push(2);
    v.push(0);
    v.push(1);
    v.push(2);
    assert!(v.pop() == Some(2));
    assert!(v.pop() == Some(1));
    assert!(v.pop() == Some(0));
    assert!(v.pop() == Some(2));
    assert!(v.pop() == Some(1));
    assert!(v.pop() == Some(0));
    assert!(v.pop() == Some(2));
    assert!(v.pop() == Some(1));
    assert!(v.pop() == Some(0));
    assert!(v.pop() == None);
}
