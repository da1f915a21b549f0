use monoid_trees::algebra::{Associative, Magma, Unital};
use monoid_trees::bbstree::avl_tree_array::{AVLSizeNode, AVLTreeArray};
use monoid_trees::bbstree::node_traits::{height, size, FoldNode, HeightNode, Link, Node, SizeNode};
use std::cmp::max;

#[derive(Clone)]
struct Am(usize);

impl Magma for Am {
    fn op(&self, right: &Self) -> Self {
        Am(self.0 + right.0)
    }

    fn op_spec(self, right: Self) -> Self {
        Am(self.0 + right.0)
    }

    fn lemma_clone(_: Self, _: Self) {}
}

impl Associative for Am {
    fn lemma_associative(_: Self, _: Self, _: Self) {}
}

impl Unital for Am {
    fn identity() -> Self {
        Am(0)
    }

    fn identity_spec() -> Self {
        Am(0)
    }

    fn lemma_identity(_: Self) {}
}

struct Qnode {
    size: usize,
    height: isize,
    val: Am,
    fold: Am,
    child: [Link<Qnode>; 2],
}

impl Qnode {
    fn new(val: Am) -> Self {
        Qnode { size: 1, height: 1, val: val, fold: Am::identity(), child: [None, None] }
    }
}

fn fold_of(link: &Link<Qnode>) -> Am {
    match link {
        Some(node) => node.fold.clone(),
        None => Am::identity(),
    }
}

impl Node for Qnode {
    type Value = Am;

    fn child_spec(&self, _: vstd::prelude::int) -> Link<Self> {
        unreachable!()
    }

    fn val_spec(&self) -> Am {
        unreachable!()
    }

    fn fixed(&self) -> bool {
        unreachable!()
    }

    fn fits(_: Link<Self>, _: Link<Self>) -> bool {
        unreachable!()
    }

    fn rank(&self) -> vstd::prelude::nat {
        unreachable!()
    }

    fn lemma_rank(&self, _: vstd::prelude::int) {}

    fn fix(&mut self) {
        self.size = size(&self.child[0]) + size(&self.child[1]) + 1;
        self.height = max(height(&self.child[0]), height(&self.child[1])) + 1;
        self.fold = fold_of(&self.child[0]).op(&self.val).op(&fold_of(&self.child[1]));
    }

    fn child(&mut self, dir: usize) -> &mut Link<Self> {
        &mut self.child[dir]
    }

    fn child_imut(&self, dir: usize) -> &Link<Self> {
        &self.child[dir]
    }

    fn cut(&mut self, dir: usize) -> Link<Self> {
        let nn = self.child[dir].take();
        self.fix();
        nn
    }

    fn set(&mut self, dir_node: Link<Self>, dir: usize) {
        self.child[dir] = dir_node;
        self.fix();
    }

    fn val(&self) -> &Am {
        &self.val
    }

    fn val_mut(&mut self) -> &mut Am {
        &mut self.val
    }
}

impl SizeNode for Qnode {
    fn size(&self) -> usize {
        self.size
    }

    fn size_spec(&self) -> usize {
        self.size
    }

    fn lemma_size_fixed(&self) {}
}

impl HeightNode for Qnode {
    fn height(&self) -> isize {
        self.height
    }

    fn height_spec(&self) -> isize {
        self.height
    }

    fn lemma_height_fixed(&self) {}
}

impl FoldNode for Qnode {
    fn fold(&self) -> &Am {
        &self.fold
    }

    fn fold_spec(&self) -> Am {
        self.fold.clone()
    }

    fn lemma_fold_fixed(&self) {}
}

impl AVLSizeNode for Qnode {
    fn lemma_fits(_: Link<Self>, _: Link<Self>) {}
}

#[test]
fn avl_tree_array_avlrsq_test() {
    let arr = AVLTreeArray::none();
    let arr = arr.merge(AVLTreeArray::new(Qnode::new(Am(1))));
    let arr = arr.merge(AVLTreeArray::new(Qnode::new(Am(2))));
    let mut arr = arr.merge(AVLTreeArray::new(Qnode::new(Am(3))));
    {
        let (center, right) = arr.split(2);
        let (left, center) = center.split(0);
        assert!(center.fold().0 == Am(3).0);
        arr = left.merge(center).merge(right);
    }
    {
        let (center, right) = arr.split(2);
        let (left, center) = center.split(1);
        assert!(center.fold().0 == Am(2).0);
        let _ = left.merge(center).merge(right);
    }
}
