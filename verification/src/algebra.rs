//! Algebraic capabilities that the containers are parameterised over.
use vstd::prelude::*;

verus! {

/// A set with a binary operation. No laws beyond determinism are asked of `op`;
/// cloning a value yields an equal value.
pub trait Magma: Sized + Clone {
    /// The mathematical operation that `op` computes.
    spec fn op_spec(self, rhs: Self) -> Self;

    fn op(&self, rhs: &Self) -> (r: Self)
        ensures
            r == self.op_spec(*rhs),
    ;

    /// A clone is indistinguishable from the value it was made from.
    proof fn lemma_clone(a: Self, b: Self)
        requires
            cloned::<Self>(a, b),
        ensures
            a == b,
    ;
}

/// Marker with its law: `op` is associative.
pub trait Associative: Magma {
    proof fn lemma_associative(a: Self, b: Self, c: Self)
        ensures
            a.op_spec(b).op_spec(c) == a.op_spec(b.op_spec(c)),
    ;
}

/// A magma with a two-sided identity element.
pub trait Unital: Magma {
    spec fn identity_spec() -> Self;

    fn identity() -> (r: Self)
        ensures
            r == Self::identity_spec(),
    ;

    proof fn lemma_identity(a: Self)
        ensures
            Self::identity_spec().op_spec(a) == a,
            a.op_spec(Self::identity_spec()) == a,
    ;
}

/// Magma + Associative + Unital.
pub trait Monoid: Magma + Associative + Unital {}

impl<T: Magma + Associative + Unital> Monoid for T {}

/// The product of a sequence from left to right; the identity for the empty
/// sequence.
pub open spec fn fold_seq<M: Monoid>(s: Seq<M>) -> M
    decreases s.len(),
{
    if s.len() == 0 {
        M::identity_spec()
    } else {
        fold_seq(s.drop_last()).op_spec(s.last())
    }
}

/// The product of one value is that value.
pub proof fn lemma_fold_one<M: Monoid>(v: M)
    ensures
        fold_seq(seq![v]) == v,
{
    assert(seq![v].drop_last() =~= Seq::<M>::empty());
    reveal_with_fuel(fold_seq, 2);
    M::lemma_identity(v);
}

/// The product of a concatenation is the product of the two products.
pub proof fn lemma_fold_concat<M: Monoid>(a: Seq<M>, b: Seq<M>)
    ensures
        fold_seq(a + b) == fold_seq(a).op_spec(fold_seq(b)),
    decreases b.len(),
{
    if b.len() == 0 {
        assert(a + b =~= a);
        M::lemma_identity(fold_seq(a));
    } else {
        assert((a + b).drop_last() =~= a + b.drop_last());
        lemma_fold_concat(a, b.drop_last());
        M::lemma_associative(fold_seq(a), fold_seq(b.drop_last()), b.last());
    }
}

/// A copy of `a`.
pub fn duplicate<T: Magma>(a: &T) -> (r: T)
    ensures
        r == *a,
{
    let r = a.clone();
    proof {
        T::lemma_clone(*a, r);
    }
    r
}

/// An action on a target domain. The actions form a monoid under `op`, where
/// `e1.op(e2)` is "first `e1`, then `e2`"; `effect` applies an action to a folded
/// value that covers `sz` elements.
pub trait Effector: Monoid {
    type Target;

    spec fn effect_spec(self, t: Self::Target, sz: nat) -> Self::Target;

    fn effect(&self, t: &Self::Target, sz: usize) -> (r: Self::Target)
        ensures
            r == self.effect_spec(*t, sz as nat),
    ;

    /// Applying `e1` and then `e2` is applying `e1.op(e2)` once.
    proof fn lemma_effect_composes(e1: Self, e2: Self, t: Self::Target, n: nat)
        ensures
            e2.effect_spec(e1.effect_spec(t, n), n) == e1.op_spec(e2).effect_spec(t, n),
    ;
}

/// Effect linearity: two deferred actions applied in turn equal their composite
/// applied once.
pub proof fn lemma_effect_linearity<E: Effector>(e1: E, e2: E, t: E::Target, n: nat)
    ensures
        e2.effect_spec(e1.effect_spec(t, n), n) == e1.op_spec(e2).effect_spec(t, n),
{
    E::lemma_effect_composes(e1, e2, t, n);
}

/// An effector whose action is compatible with the product of its target: the
/// identity effect changes nothing, and an effect on a product is the product of
/// the effects on the parts.
pub trait LinearEffector: Effector where Self::Target: Monoid {
    proof fn lemma_identity_effect(t: Self::Target, n: nat)
        ensures
            Self::identity_spec().effect_spec(t, n) == t,
    ;

    proof fn lemma_effect_distributes(e: Self, a: Self::Target, n: nat, b: Self::Target, m: nat)
        ensures
            e.effect_spec(a.op_spec(b), n + m) == e.effect_spec(a, n).op_spec(e.effect_spec(b, m)),
            e.effect_spec(<Self::Target as Unital>::identity_spec(), 0) == <Self::Target as Unital>::identity_spec(),
    ;
}

/// The sequence with the effect `e` applied to each of its values.
pub open spec fn acted<E: Effector>(e: E, s: Seq<E::Target>) -> Seq<E::Target> {
    Seq::new(s.len(), |k: int| e.effect_spec(s[k], 1))
}

/// An effect on the product of a sequence, taken over the length of the
/// sequence, is the product of the effects on its values.
pub proof fn lemma_effect_fold<E: LinearEffector>(e: E, s: Seq<E::Target>) where E::Target: Monoid
    ensures
        e.effect_spec(fold_seq(s), s.len()) == fold_seq(acted(e, s)),
    decreases s.len(),
{
    if s.len() == 0 {
        E::lemma_effect_distributes(e, fold_seq(s), 0, fold_seq(s), 0);
    } else {
        lemma_effect_fold(e, s.drop_last());
        E::lemma_effect_distributes(e, fold_seq(s.drop_last()), (s.len() - 1) as nat, s.last(), 1);
        assert(acted(e, s).drop_last() =~= acted(e, s.drop_last()));
    }
}

/// Marker: the product of a sequence does not change when the sequence is
/// reversed.
pub trait Reversible: Monoid {
    proof fn lemma_commutes(a: Self, b: Self)
        ensures
            a.op_spec(b) == b.op_spec(a),
    ;
}

} // verus!
