//! What splitting and merging do to the sequence that a tree represents, stated
//! on sequences: the laws that every sequence container of this library obeys.
use vstd::prelude::*;
use crate::algebra::{fold_seq, lemma_fold_concat, Magma, Monoid};

verus! {

/// Inorder preservation: a concatenation, split where the two parts met, gives
/// the two parts back.
pub proof fn lemma_merge_then_split<V>(a: Seq<V>, b: Seq<V>)
    ensures
        (a + b).take(a.len() as int) == a,
        (a + b).skip(a.len() as int) == b,
{
    assert((a + b).take(a.len() as int) =~= a);
    assert((a + b).skip(a.len() as int) =~= b);
}

/// Round trip, element-wise: the two parts of a split, concatenated, are the
/// sequence that was split.
pub proof fn lemma_split_then_merge<V>(s: Seq<V>, i: int)
    requires
        0 <= i <= s.len(),
    ensures
        s.take(i) + s.skip(i) == s,
{
    assert(s.take(i) + s.skip(i) =~= s);
}

/// Round trip, fold-wise: the product of the two parts of a split is the product
/// of the sequence that was split.
pub proof fn lemma_split_then_merge_fold<M: Monoid>(s: Seq<M>, i: int)
    requires
        0 <= i <= s.len(),
    ensures
        fold_seq(s.take(i) + s.skip(i)) == fold_seq(s),
        fold_seq(s.take(i)).op_spec(fold_seq(s.skip(i))) == fold_seq(s),
{
    lemma_split_then_merge(s, i);
    lemma_fold_concat(s.take(i), s.skip(i));
}

} // verus!
