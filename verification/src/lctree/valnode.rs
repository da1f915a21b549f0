//! Cell data that is a value and nothing more.
use vstd::prelude::*;
use crate::lctree::node_traits::Node;

verus! {

/// A value with the size of its subtree; nothing is folded and no action is
/// ever pending.
pub struct ValNode<T> {
    val: T,
    sz: usize,
}

impl<T> Node for ValNode<T> {
    type Value = T;

    type Lazy = ();

    type Summary = ();

    closed spec fn value_spec(&self) -> T {
        self.val
    }

    closed spec fn size_spec(&self) -> usize {
        self.sz
    }

    open spec fn lazy_spec(&self) -> () {
        ()
    }

    open spec fn summary_spec(&self) -> () {
        ()
    }

    open spec fn lazy_id() -> () {
        ()
    }

    open spec fn lazy_then(first: (), second: ()) -> () {
        ()
    }

    open spec fn act(a: (), v: T) -> T {
        v
    }

    open spec fn act_sum(a: (), s: (), n: nat) -> () {
        ()
    }

    open spec fn sum_unit() -> () {
        ()
    }

    open spec fn sum_of(v: T) -> () {
        ()
    }

    open spec fn sum_join(a: (), b: ()) -> () {
        ()
    }

    proof fn lemma_lazy_monoid(a: (), b: (), c: ()) {
    }

    proof fn lemma_act_id(v: T, s: (), n: nat) {
    }

    proof fn lemma_act_then(a: (), b: (), v: T, s: (), n: nat) {
    }

    proof fn lemma_sum_monoid(a: (), b: (), c: ()) {
    }

    proof fn lemma_act_distributes(a: (), s1: (), n1: nat, s2: (), n2: nat, v: T) {
    }

    fn new(val: T) -> (r: Self) {
        ValNode { val: val, sz: 1 }
    }

    fn push(&mut self) -> (lz: ()) {
        ()
    }

    fn apply(&mut self, a: &()) {
    }

    fn cache(&self) -> (r: (usize, ())) {
        (self.sz, ())
    }

    fn fix(&mut self, left: Option<(usize, ())>, right: Option<(usize, ())>) {
        self.sz = 1;
        if let Some(l) = left {
            self.sz += l.0;
        }
        if let Some(r) = right {
            self.sz += r.0;
        }
    }

    fn value(&self) -> (r: &T) {
        &self.val
    }

    fn value_mut(&mut self) -> (r: &mut T) {
        &mut self.val
    }

    fn size(&self) -> (r: usize) {
        self.sz
    }
}

} // verus!
