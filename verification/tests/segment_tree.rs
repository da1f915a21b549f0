use monoid_trees::algebra::{Associative, Effector, LinearEffector, Magma, Unital};
use monoid_trees::segment_tree::dynamic_segment_tree::DynamicSegmentTree;
use monoid_trees::segment_tree::lazy_segment_tree::LazySegmentTree;
use monoid_trees::segment_tree::persistent_lazy_segment_tree::PersistentLazySegmentTree;
use monoid_trees::segment_tree::persistent_segment_tree::PersistentSegmentTree;
use std::cmp::min;
use vstd::prelude::nat;

#[derive(Clone, Debug)]
struct Am(usize);

impl Magma for Am {
    fn op(&self, right: &Self) -> Self {
        Am(self.0 + right.0)
    }

    fn op_spec(self, right: Self) -> Self {
        Am(self.0 + right.0)
    }

    fn lemma_clone(_: Self, _: Self) {}
}

impl Associative for Am {
    fn lemma_associative(_: Self, _: Self, _: Self) {}
}

impl Unital for Am {
    fn identity() -> Self {
        Am(0)
    }

    fn identity_spec() -> Self {
        Am(0)
    }

    fn lemma_identity(_: Self) {}
}

#[derive(Clone)]
struct Mm(usize);

impl Magma for Mm {
    fn op(&self, right: &Self) -> Self {
        Mm(min(self.0, right.0))
    }

    fn op_spec(self, right: Self) -> Self {
        Mm(min(self.0, right.0))
    }

    fn lemma_clone(_: Self, _: Self) {}
}

impl Associative for Mm {
    fn lemma_associative(_: Self, _: Self, _: Self) {}
}

impl Unital for Mm {
    fn identity() -> Self {
        Mm(std::usize::MAX)
    }

    fn identity_spec() -> Self {
        Mm(std::usize::MAX)
    }

    fn lemma_identity(_: Self) {}
}

#[derive(Clone)]
struct Uq(Option<usize>);

impl Magma for Uq {
    fn op(&self, right: &Self) -> Self {
        if right.0.is_none() {
            self.clone()
        } else {
            right.clone()
        }
    }

    fn op_spec(self, right: Self) -> Self {
        if right.0.is_none() {
            self
        } else {
            right
        }
    }

    fn lemma_clone(_: Self, _: Self) {}
}

impl Associative for Uq {
    fn lemma_associative(_: Self, _: Self, _: Self) {}
}

impl Unital for Uq {
    fn identity() -> Self {
        Uq(None)
    }

    fn identity_spec() -> Self {
        Uq(None)
    }

    fn lemma_identity(_: Self) {}
}

impl Effector for Uq {
    type Target = Mm;

    fn effect(&self, t: &Self::Target, _: usize) -> Self::Target {
        match self.0 {
            Some(u) => Mm(u),
            None => t.clone(),
        }
    }

    fn effect_spec(self, _: Mm, _: nat) -> Mm {
        unreachable!()
    }

    fn lemma_effect_composes(_: Self, _: Self, _: Mm, _: nat) {}
}

impl LinearEffector for Uq {
    fn lemma_identity_effect(_: Mm, _: nat) {}

    fn lemma_effect_distributes(_: Self, _: Mm, _: nat, _: Mm, _: nat) {}
}

#[derive(Clone, Debug)]
struct Sm(usize, usize);

impl Magma for Sm {
    fn op(&self, right: &Self) -> Self {
        Sm(self.0 + right.0, self.1 + right.1)
    }

    fn op_spec(self, right: Self) -> Self {
        Sm(self.0 + right.0, self.1 + right.1)
    }

    fn lemma_clone(_: Self, _: Self) {}
}

impl Associative for Sm {
    fn lemma_associative(_: Self, _: Self, _: Self) {}
}

impl Unital for Sm {
    fn identity() -> Self {
        Sm(0, 1)
    }

    fn identity_spec() -> Self {
        Sm(0, 1)
    }

    fn lemma_identity(_: Self) {}
}

#[derive(Clone, Debug)]
struct Aq(usize);

impl Magma for Aq {
    fn op(&self, right: &Self) -> Self {
        Aq(self.0 + right.0)
    }

    fn op_spec(self, right: Self) -> Self {
        Aq(self.0 + right.0)
    }

    fn lemma_clone(_: Self, _: Self) {}
}

impl Associative for Aq {
    fn lemma_associative(_: Self, _: Self, _: Self) {}
}

impl Unital for Aq {
    fn identity() -> Self {
        Aq(0)
    }

    fn identity_spec() -> Self {
        Aq(0)
    }

    fn lemma_identity(_: Self) {}
}

impl Effector for Aq {
    type Target = Sm;

    fn effect(&self, t: &Self::Target, _: usize) -> Self::Target {
        Sm(t.0 + self.0 * t.1, t.1)
    }

    fn effect_spec(self, _: Sm, _: nat) -> Sm {
        unreachable!()
    }

    fn lemma_effect_composes(_: Self, _: Self, _: Sm, _: nat) {}
}

impl LinearEffector for Aq {
    fn lemma_identity_effect(_: Sm, _: nat) {}

    fn lemma_effect_distributes(_: Self, _: Sm, _: nat, _: Sm, _: nat) {}
}

/// Adds to every value it reaches; the target is a plain sum.
#[derive(Clone, Debug)]
struct Add(usize);

impl Magma for Add {
    fn op(&self, right: &Self) -> Self {
        Add(self.0 + right.0)
    }

    fn op_spec(self, right: Self) -> Self {
        Add(self.0 + right.0)
    }

    fn lemma_clone(_: Self, _: Self) {}
}

impl Associative for Add {
    fn lemma_associative(_: Self, _: Self, _: Self) {}
}

impl Unital for Add {
    fn identity() -> Self {
        Add(0)
    }

    fn identity_spec() -> Self {
        Add(0)
    }

    fn lemma_identity(_: Self) {}
}

impl Effector for Add {
    type Target = Am;

    fn effect(&self, t: &Self::Target, s: usize) -> Self::Target {
        Am(t.0 + self.0 * s)
    }

    fn effect_spec(self, _: Am, _: nat) -> Am {
        unreachable!()
    }

    fn lemma_effect_composes(_: Self, _: Self, _: Am, _: nat) {}
}

impl LinearEffector for Add {
    fn lemma_identity_effect(_: Am, _: nat) {}

    fn lemma_effect_distributes(_: Self, _: Am, _: nat, _: Am, _: nat) {}
}

#[test]
fn lazy_segment_tree_rmq_ruq_test() {
    let mut seg = LazySegmentTree::init(vec![Mm::identity(); 3]);
    seg.update_range(0, 2, Uq(Some(1)));
    seg.update_range(1, 3, Uq(Some(3)));
    seg.update_range(2, 3, Uq(Some(2)));
    assert_eq!(seg.fold(0, 3).0, 1);
    assert_eq!(seg.fold(1, 3).0, 2);
}

#[test]
fn persistent_lazy_segment_tree_rmq_ruq_test() {
    let seg = PersistentLazySegmentTree::new(3);
    let seg = seg.effect_range(0, 2, Uq(Some(1)));
    let seg = seg.effect_range(1, 3, Uq(Some(3)));
    let seg = seg.effect_range(2, 3, Uq(Some(2)));
    assert_eq!(seg.fold(0, 3).0, 1);
    assert_eq!(seg.fold(1, 3).0, 2);
}

#[test]
fn rsq_raq_test() {
    let seg = PersistentLazySegmentTree::new(3)
        .effect_range(0, 2, Aq(1))
        .effect_range(1, 3, Aq(2))
        .effect_range(2, 3, Aq(3));
    assert_eq!(seg.fold(0, 2).0, 4);
    assert_eq!(seg.fold(1, 3).0, 8);
}

#[test]
fn rsq_test() {
    let seg = PersistentSegmentTree::new(3);
    let seg = seg.update(0, Am(1));
    let seg = seg.update(1, Am(2));
    let seg = seg.update(2, Am(3));
    assert_eq!(seg.fold(0, 2).0, 3);
    assert_eq!(seg.fold(1, 2).0, 2);
}

#[test]
fn persistent_segment_tree_keeps_old_versions() {
    let v0: PersistentSegmentTree<Am> = PersistentSegmentTree::new(5);
    let v1 = v0.update(4, Am(10));
    let v2 = v1.update(0, Am(1));
    let v3 = v1.update(4, Am(7));
    assert_eq!(v0.fold(0, 5).0, 0);
    assert_eq!(v1.fold(0, 5).0, 10);
    assert_eq!(v2.fold(0, 5).0, 11);
    assert_eq!(v3.fold(0, 5).0, 7);
    assert_eq!(v2.fold(1, 4).0, 0);
    assert_eq!(v2.fold(3, 100).0, 10);
    assert_eq!(v2.fold(2, 2).0, 0);
}

#[test]
fn dynamic_segment_tree_point_writes_and_range_folds() {
    let mut seg: DynamicSegmentTree<Am> = DynamicSegmentTree::new(6);
    assert_eq!(seg.fold(0, 8).0, 0);
    for i in 0..6 {
        seg.update(i, Am(i + 1));
    }
    assert_eq!(seg.fold(0, 6).0, 21);
    assert_eq!(seg.fold(0, 8).0, 21);
    assert_eq!(seg.fold(2, 5).0, 3 + 4 + 5);
    assert_eq!(seg.fold(5, 6).0, 6);
    assert_eq!(seg.fold(3, 3).0, 0);
    seg.update(2, Am(100));
    assert_eq!(seg.fold(0, 3).0, 103);
    assert_eq!(seg.fold(7, 1000).0, 0);
}

#[test]
fn dynamic_segment_tree_of_one_position() {
    let mut seg: DynamicSegmentTree<Am> = DynamicSegmentTree::new(0);
    seg.update(0, Am(9));
    assert_eq!(seg.fold(0, 1).0, 9);
    assert_eq!(seg.fold(1, 5).0, 0);
}

#[test]
fn lazy_segment_tree_range_add_range_sum() {
    let mut seg: LazySegmentTree<Am, Add> =
        LazySegmentTree::init(vec![Am(1), Am(2), Am(3), Am(4), Am(5)]);
    assert_eq!(seg.fold(0, 5).0, 15);
    seg.update_range(1, 4, Add(10));
    assert_eq!(seg.fold(0, 5).0, 45);
    assert_eq!(seg.fold(0, 1).0, 1);
    assert_eq!(seg.fold(1, 2).0, 12);
    assert_eq!(seg.fold(3, 5).0, 19);
    seg.update_range(0, 100, Add(1));
    assert_eq!(seg.fold(0, 5).0, 50);
    assert_eq!(seg.fold(4, 5).0, 6);
    assert_eq!(seg.fold(2, 2).0, 0);
}

#[test]
fn persistent_lazy_segment_tree_keeps_old_versions() {
    let v0: PersistentLazySegmentTree<Am, Add> = PersistentLazySegmentTree::new(4);
    let v1 = v0.effect_range(0, 4, Add(1));
    let v2 = v1.effect_range(1, 3, Add(5));
    let v3 = v1.effect_range(3, 4, Add(2));
    assert_eq!(v0.fold(0, 4).0, 0);
    assert_eq!(v1.fold(0, 4).0, 4);
    assert_eq!(v2.fold(0, 4).0, 14);
    assert_eq!(v2.fold(1, 2).0, 6);
    assert_eq!(v2.fold(3, 4).0, 1);
    assert_eq!(v3.fold(2, 4).0, 4);
    assert_eq!(v3.fold(0, 3).0, 3);
}
