//! Cell data with a cached fold and a pending effect.
use vstd::prelude::*;
use crate::algebra::{
    duplicate, Associative, Effector, LinearEffector, Magma, Monoid, Reversible, Unital,
};
use crate::lctree::node_traits::{EffectNode, Node};

verus! {

/// A value, the fold of its subtree, and an effect that the children have not
/// received yet.
#[verifier::reject_recursive_types(T)]
pub struct EffNode<T: Monoid + Reversible, E: LinearEffector<Target = T>> {
    val: T,
    fold: T,
    eff: E,
    sz: usize,
}

impl<T: Monoid + Reversible, E: LinearEffector<Target = T>> Node for EffNode<T, E> {
    type Value = T;

    type Lazy = E;

    type Summary = T;

    closed spec fn value_spec(&self) -> T {
        self.val
    }

    closed spec fn size_spec(&self) -> usize {
        self.sz
    }

    closed spec fn lazy_spec(&self) -> E {
        self.eff
    }

    closed spec fn summary_spec(&self) -> T {
        self.fold
    }

    open spec fn lazy_id() -> E {
        E::identity_spec()
    }

    open spec fn lazy_then(first: E, second: E) -> E {
        first.op_spec(second)
    }

    open spec fn act(a: E, v: T) -> T {
        a.effect_spec(v, 1)
    }

    open spec fn act_sum(a: E, s: T, n: nat) -> T {
        a.effect_spec(s, n)
    }

    open spec fn sum_unit() -> T {
        T::identity_spec()
    }

    open spec fn sum_of(v: T) -> T {
        v
    }

    open spec fn sum_join(a: T, b: T) -> T {
        a.op_spec(b)
    }

    proof fn lemma_lazy_monoid(a: E, b: E, c: E) {
        E::lemma_associative(a, b, c);
        E::lemma_identity(a);
    }

    proof fn lemma_act_id(v: T, s: T, n: nat) {
        E::lemma_identity_effect(v, 1);
        E::lemma_identity_effect(s, n);
    }

    proof fn lemma_act_then(a: E, b: E, v: T, s: T, n: nat) {
        E::lemma_effect_composes(a, b, v, 1);
        E::lemma_effect_composes(a, b, s, n);
    }

    proof fn lemma_sum_monoid(a: T, b: T, c: T) {
        T::lemma_associative(a, b, c);
        T::lemma_commutes(a, b);
        T::lemma_identity(a);
    }

    proof fn lemma_act_distributes(a: E, s1: T, n1: nat, s2: T, n2: nat, v: T) {
        E::lemma_effect_distributes(a, s1, n1, s2, n2);
    }

    fn new(val: T) -> (r: Self) {
        let fold = duplicate(&val);
        EffNode { val: val, fold: fold, eff: E::identity(), sz: 1 }
    }

    fn push(&mut self) -> (lz: E) {
        let lz = duplicate(&self.eff);
        self.eff = E::identity();
        lz
    }

    fn apply(&mut self, a: &E) {
        self.val = a.effect(&self.val, 1);
        self.fold = a.effect(&self.fold, self.sz);
        self.eff = self.eff.op(a);
    }

    fn cache(&self) -> (r: (usize, T)) {
        (self.sz, duplicate(&self.fold))
    }

    fn fix(&mut self, left: Option<(usize, T)>, right: Option<(usize, T)>) {
        self.sz = 1;
        self.fold = duplicate(&self.val);
        let ghost v = self.val;
        proof {
            T::lemma_identity(v);
        }
        match left {
            Some(l) => {
                self.sz += l.0;
                self.fold = self.eff.effect(&l.1, l.0).op(&self.fold);
            },
            None => {},
        }
        let ghost mid = self.fold;
        proof {
            T::lemma_identity(mid);
        }
        match right {
            Some(r) => {
                self.sz += r.0;
                self.fold = self.fold.op(&self.eff.effect(&r.1, r.0));
            },
            None => {},
        }
    }

    fn value(&self) -> (r: &T) {
        &self.val
    }

    fn value_mut(&mut self) -> (r: &mut T) {
        &mut self.val
    }

    fn size(&self) -> (r: usize) {
        self.sz
    }
}

impl<T: Monoid + Reversible, E: LinearEffector<Target = T>> EffectNode for EffNode<T, E> {
    type Effector = E;

    open spec fn lift(e: E) -> E {
        e
    }

    open spec fn fold_of(s: T) -> T {
        s
    }

    proof fn lemma_lift(e: E, v: T, s: T, n: nat) {
    }

    proof fn lemma_fold_of(v: T, a: T, b: T) {
    }

    fn effect(&mut self, e: E) {
        self.apply(&e);
    }

    fn fold(&self) -> (r: &T) {
        &self.fold
    }
}

} // verus!
