//! What the forest engine asks of the data it keeps in a cell.
use vstd::prelude::*;
use crate::algebra::{Effector, Magma, Monoid, Unital};

verus! {

/// A non-owning edge to a cell of the arena, or none.
pub type Link = Option<usize>;

/// The data of a forest cell: a value, the number of cells of its subtree, a
/// cached summary of the subtree, and a pending action that its children have
/// not received yet. The value and the summary already include the pending
/// action.
pub trait Node: Sized {
    type Value;

    /// A deferred action on values; `lazy_then(a, b)` is `a` followed by `b`.
    type Lazy;

    /// What is cached of a subtree's values.
    type Summary;

    spec fn value_spec(&self) -> Self::Value;

    spec fn size_spec(&self) -> usize;

    spec fn lazy_spec(&self) -> Self::Lazy;

    spec fn summary_spec(&self) -> Self::Summary;

    spec fn lazy_id() -> Self::Lazy;

    spec fn lazy_then(first: Self::Lazy, second: Self::Lazy) -> Self::Lazy;

    /// The action on one value.
    spec fn act(a: Self::Lazy, v: Self::Value) -> Self::Value;

    /// The action on the summary of `n` values.
    spec fn act_sum(a: Self::Lazy, s: Self::Summary, n: nat) -> Self::Summary;

    spec fn sum_unit() -> Self::Summary;

    spec fn sum_of(v: Self::Value) -> Self::Summary;

    spec fn sum_join(a: Self::Summary, b: Self::Summary) -> Self::Summary;

    /// Actions form a monoid.
    proof fn lemma_lazy_monoid(a: Self::Lazy, b: Self::Lazy, c: Self::Lazy)
        ensures
            Self::lazy_then(Self::lazy_then(a, b), c) == Self::lazy_then(a, Self::lazy_then(b, c)),
            Self::lazy_then(Self::lazy_id(), a) == a,
            Self::lazy_then(a, Self::lazy_id()) == a,
    ;

    /// The identity action changes nothing.
    proof fn lemma_act_id(v: Self::Value, s: Self::Summary, n: nat)
        ensures
            Self::act(Self::lazy_id(), v) == v,
            Self::act_sum(Self::lazy_id(), s, n) == s,
    ;

    /// Two actions in turn equal their composite.
    proof fn lemma_act_then(a: Self::Lazy, b: Self::Lazy, v: Self::Value, s: Self::Summary, n: nat)
        ensures
            Self::act(b, Self::act(a, v)) == Self::act(Self::lazy_then(a, b), v),
            Self::act_sum(b, Self::act_sum(a, s, n), n) == Self::act_sum(Self::lazy_then(a, b), s, n),
    ;

    /// Summaries form a commutative monoid.
    proof fn lemma_sum_monoid(a: Self::Summary, b: Self::Summary, c: Self::Summary)
        ensures
            Self::sum_join(Self::sum_join(a, b), c) == Self::sum_join(a, Self::sum_join(b, c)),
            Self::sum_join(a, b) == Self::sum_join(b, a),
            Self::sum_join(Self::sum_unit(), a) == a,
            Self::sum_join(a, Self::sum_unit()) == a,
    ;

    /// An action on a joined summary is the join of the actions on its parts.
    proof fn lemma_act_distributes(
        a: Self::Lazy,
        s1: Self::Summary,
        n1: nat,
        s2: Self::Summary,
        n2: nat,
        v: Self::Value,
    )
        ensures
            Self::act_sum(a, Self::sum_join(s1, s2), n1 + n2) == Self::sum_join(
                Self::act_sum(a, s1, n1),
                Self::act_sum(a, s2, n2),
            ),
            Self::act_sum(a, Self::sum_of(v), 1) == Self::sum_of(Self::act(a, v)),
            Self::act_sum(a, Self::sum_unit(), 0) == Self::sum_unit(),
    ;

    /// The data of a cell on its own.
    fn new(val: Self::Value) -> (r: Self)
        ensures
            r.value_spec() == val,
            r.size_spec() == 1,
            r.lazy_spec() == Self::lazy_id(),
            r.summary_spec() == Self::sum_of(val),
    ;

    /// Hands out the pending action, for the children to receive, and resets it.
    fn push(&mut self) -> (lz: Self::Lazy)
        ensures
            lz == old(self).lazy_spec(),
            final(self).lazy_spec() == Self::lazy_id(),
            final(self).value_spec() == old(self).value_spec(),
            final(self).size_spec() == old(self).size_spec(),
            final(self).summary_spec() == old(self).summary_spec(),
    ;

    /// Receives an action: it is applied to the value and the summary and added to
    /// what is pending for the children.
    fn apply(&mut self, a: &Self::Lazy)
        ensures
            final(self).value_spec() == Self::act(*a, old(self).value_spec()),
            final(self).summary_spec() == Self::act_sum(
                *a,
                old(self).summary_spec(),
                old(self).size_spec() as nat,
            ),
            final(self).lazy_spec() == Self::lazy_then(old(self).lazy_spec(), *a),
            final(self).size_spec() == old(self).size_spec(),
    ;

    /// The cached size and summary, for the parent to read.
    fn cache(&self) -> (r: (usize, Self::Summary))
        ensures
            r.0 == self.size_spec(),
            r.1 == self.summary_spec(),
    ;

    /// Recomputes the size and the summary from the children's caches and the
    /// value.
    fn fix(&mut self, left: Option<(usize, Self::Summary)>, right: Option<(usize, Self::Summary)>)
        requires
            (match left {
                Some(c) => c.0 as int,
                None => 0,
            }) + (match right {
                Some(c) => c.0 as int,
                None => 0,
            }) + 1 <= usize::MAX,
        ensures
            final(self).value_spec() == old(self).value_spec(),
            final(self).lazy_spec() == old(self).lazy_spec(),
            final(self).size_spec() == (match left {
                Some(c) => c.0 as int,
                None => 0,
            }) + (match right {
                Some(c) => c.0 as int,
                None => 0,
            }) + 1,
            final(self).summary_spec() == Self::sum_join(
                Self::sum_join(
                    match left {
                        Some(c) => Self::act_sum(old(self).lazy_spec(), c.1, c.0 as nat),
                        None => Self::sum_unit(),
                    },
                    Self::sum_of(old(self).value_spec()),
                ),
                match right {
                    Some(c) => Self::act_sum(old(self).lazy_spec(), c.1, c.0 as nat),
                    None => Self::sum_unit(),
                },
            ),
    ;

    fn value(&self) -> (r: &Self::Value)
        ensures
            *r == self.value_spec(),
    ;

    fn value_mut(&mut self) -> (r: &mut Self::Value)
        ensures
            *r == old(self).value_spec(),
            final(self).value_spec() == *final(r),
            final(self).size_spec() == old(self).size_spec(),
            final(self).lazy_spec() == old(self).lazy_spec(),
    ;

    fn size(&self) -> (r: usize)
        ensures
            r == self.size_spec(),
    ;
}

/// Cell data whose summary is the monoid product of the values and whose
/// pending action is an effector on them.
pub trait EffectNode: Node where Self::Value: Monoid {
    type Effector: Effector<Target = Self::Value>;

    /// The effector as a pending action.
    spec fn lift(e: Self::Effector) -> Self::Lazy;

    /// The product that a summary stands for.
    spec fn fold_of(s: Self::Summary) -> Self::Value;

    proof fn lemma_lift(e: Self::Effector, v: Self::Value, s: Self::Summary, n: nat)
        ensures
            Self::act(Self::lift(e), v) == e.effect_spec(v, 1),
            Self::fold_of(Self::act_sum(Self::lift(e), s, n)) == e.effect_spec(Self::fold_of(s), n),
    ;

    proof fn lemma_fold_of(v: Self::Value, a: Self::Summary, b: Self::Summary)
        ensures
            Self::fold_of(Self::sum_of(v)) == v,
            Self::fold_of(Self::sum_join(a, b)) == Self::fold_of(a).op_spec(Self::fold_of(b)),
            Self::fold_of(Self::sum_unit()) == <Self::Value as Unital>::identity_spec(),
    ;

    /// Applies `e` to the value and the cached fold and adds it to what is pending
    /// for the children.
    fn effect(&mut self, e: Self::Effector)
        ensures
            final(self).value_spec() == Self::act(Self::lift(e), old(self).value_spec()),
            final(self).summary_spec() == Self::act_sum(
                Self::lift(e),
                old(self).summary_spec(),
                old(self).size_spec() as nat,
            ),
            final(self).lazy_spec() == Self::lazy_then(old(self).lazy_spec(), Self::lift(e)),
            final(self).size_spec() == old(self).size_spec(),
    ;

    /// The cached fold of the subtree.
    fn fold(&self) -> (r: &Self::Value)
        ensures
            *r == Self::fold_of(self.summary_spec()),
    ;
}

} // verus!
