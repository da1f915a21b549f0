use monoid_trees::algebra::{Associative, Magma, Unital};
use monoid_trees::bbstree::avl_tree_array::AVLTreeArray;
use monoid_trees::bbstree::nodes::{ArrFoldNode, ArrNode};

#[derive(Clone)]
struct Am(usize);

impl Magma for Am {
    fn op(&self, right: &Self) -> Self {
        Am(self.0 + right.0)
    }

    fn op_spec(self, right: Self) -> Self {
        Am(self.0 + right.0)
    }

    fn lemma_clone(_: Self, _: Self) {}
}

impl Associative for Am {
    fn lemma_associative(_: Self, _: Self, _: Self) {}
}

impl Unital for Am {
    fn identity() -> Self {
        Am(0)
    }

    fn identity_spec() -> Self {
        Am(0)
    }

    fn lemma_identity(_: Self) {}
}

#[test]
fn avlarray_test() {
    let arr = AVLTreeArray::none();
    let arr = arr.merge(AVLTreeArray::new(ArrNode::new(0)));
    let arr = arr.merge(AVLTreeArray::new(ArrNode::new(1)));
    let arr = arr.merge(AVLTreeArray::new(ArrNode::new(2)));
    let arr = arr.merge(AVLTreeArray::new(ArrNode::new(3)));
    let arr = arr.merge(AVLTreeArray::new(ArrNode::new(4)));
    let arr = arr.merge(AVLTreeArray::new(ArrNode::new(5)));
    assert!(*arr.at(0) == 0);
    assert!(*arr.at(1) == 1);
    assert!(*arr.at(2) == 2);
    assert!(*arr.at(3) == 3);
    assert!(*arr.at(4) == 4);
    assert!(*arr.at(5) == 5);
}

#[test]
fn avlrsq_test() {
    let arr = AVLTreeArray::none();
    let arr = arr.merge(AVLTreeArray::new(ArrFoldNode::new(Am(1))));
    let arr = arr.merge(AVLTreeArray::new(ArrFoldNode::new(Am(2))));
    let mut arr = arr.merge(AVLTreeArray::new(ArrFoldNode::new(Am(3))));
    {
        let (center, right) = arr.split(2);
        let (left, center) = center.split(0);
        assert!(center.fold().0 == Am(3).0);
        arr = left.merge(center).merge(right);
    }
    {
        let (center, right) = arr.split(2);
        let (left, center) = center.split(1);
        assert!(center.fold().0 == Am(2).0);
        let _ = left.merge(center).merge(right);
    }
}
