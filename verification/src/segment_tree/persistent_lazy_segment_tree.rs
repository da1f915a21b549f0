//! A segment tree with deferred effects of which every version stays: an effect
//! on a range makes new cells along the two borders of the range and shares all
//! others with the version before.
use std::rc::Rc;
use vstd::prelude::*;
use crate::algebra::{
    acted, duplicate, fold_seq, lemma_effect_fold, lemma_fold_concat, lemma_fold_one, Effector,
    LinearEffector, Magma, Monoid, Unital,
};
use crate::segment_tree::dynamic_segment_tree::clip;
use crate::segment_tree::lazy_segment_tree::{
    lemma_acted, lemma_acted_concat, lemma_range_acted_concat, range_acted,
};
use crate::sharing::share;

verus! {

type Link<T, E> = Option<Rc<Node<T, E>>>;

#[verifier::reject_recursive_types(T)]
struct Node<T: Monoid, E: LinearEffector<Target = T>> {
    data: T,
    eff: E,
    left: Link<T, E>,
    right: Link<T, E>,
}

/// The values at the positions from `l` up to `r` that the cell covers, with the
/// effects recorded at the cell and below applied. What a cell holds includes
/// the effect recorded at it; its children have yet to receive that effect.
spec fn trues<T: Monoid, E: LinearEffector<Target = T>>(node: &Node<T, E>, l: int, r: int) -> Seq<T>
    decreases r - l,
{
    if r <= l {
        Seq::empty()
    } else if l + 1 == r {
        seq![node.data]
    } else if node.left is Some && node.right is Some {
        let m = (l + r) / 2;
        acted(node.eff, trues(&*node.left.unwrap(), l, m) + trues(&*node.right.unwrap(), m, r))
    } else {
        Seq::empty()
    }
}

/// Every cell holds the product of what it stands for, and every cell that
/// covers two positions or more has both children.
spec fn node_wf<T: Monoid, E: LinearEffector<Target = T>>(node: &Node<T, E>, l: int, r: int) -> bool
    decreases r - l,
{
    if r <= l {
        node.data == T::identity_spec()
    } else if l + 1 == r {
        true
    } else {
        let m = (l + r) / 2;
        &&& node.left is Some
        &&& node.right is Some
        &&& node_wf(&*node.left.unwrap(), l, m)
        &&& node_wf(&*node.right.unwrap(), m, r)
        &&& node.data == fold_seq(trues(node, l, r))
    }
}

proof fn lemma_node<T: Monoid, E: LinearEffector<Target = T>>(node: &Node<T, E>, l: int, r: int)
    requires
        l <= r,
        node_wf(node, l, r),
    ensures
        trues(node, l, r).len() == r - l,
        node.data == fold_seq(trues(node, l, r)),
    decreases r - l,
{
    if r <= l {
    } else if l + 1 == r {
        lemma_fold_one(node.data);
    } else {
        let m = (l + r) / 2;
        lemma_node(&*node.left.unwrap(), l, m);
        lemma_node(&*node.right.unwrap(), m, r);
    }
}

/// The product of identities is the identity.
proof fn lemma_identities<T: Monoid>(n: nat)
    ensures
        fold_seq(Seq::new(n, |i: int| T::identity_spec())) == T::identity_spec(),
    decreases n,
{
    let s = Seq::new(n, |i: int| T::identity_spec());
    if n > 0 {
        lemma_identities::<T>((n - 1) as nat);
        assert(s.drop_last() =~= Seq::new((n - 1) as nat, |i: int| T::identity_spec()));
        T::lemma_identity(T::identity_spec());
    }
}

/// A cell that has received the effect `e` stands for what it stood for, with
/// `e` applied, and holds the product of that.
proof fn lemma_received<T: Monoid, E: LinearEffector<Target = T>>(
    node: &Node<T, E>,
    after: &Node<T, E>,
    e: E,
    l: int,
    r: int,
)
    requires
        l <= r,
        node_wf(node, l, r),
        after.data == e.effect_spec(node.data, (r - l) as nat),
        after.eff == node.eff.op_spec(e),
        after.left == node.left,
        after.right == node.right,
    ensures
        node_wf(after, l, r),
        trues(after, l, r) == acted(e, trues(node, l, r)),
{
    lemma_node(node, l, r);
    if r <= l {
        E::lemma_effect_distributes(e, node.data, 0, node.data, 0);
        assert(trues(after, l, r) =~= acted(e, trues(node, l, r)));
    } else if l + 1 == r {
        assert(trues(after, l, r) =~= acted(e, trues(node, l, r)));
    } else {
        let m = (l + r) / 2;
        let c = trues(&*node.left.unwrap(), l, m) + trues(&*node.right.unwrap(), m, r);
        lemma_acted(node.eff, e, c);
        lemma_effect_fold(e, trues(node, l, r));
    }
}

impl<T: Monoid, E: LinearEffector<Target = T>> Node<T, E> {
    fn new(data: T) -> (r: Self)
        ensures
            r.data == data,
            r.eff == E::identity_spec(),
            r.left is None,
            r.right is None,
    {
        Node { data: data, eff: E::identity(), left: None, right: None }
    }

    /// The tree of identities over the positions from `l` up to `r`.
    fn build(l: usize, r: usize) -> (node: Self)
        requires
            l <= r,
            2 * r <= usize::MAX,
        ensures
            node_wf(&node, l as int, r as int),
            trues(&node, l as int, r as int) == Seq::new((r - l) as nat, |i: int| T::identity_spec()),
        decreases r - l,
    {
        let ghost all = Seq::new((r - l) as nat, |i: int| T::identity_spec());
        if l + 1 >= r {
            let node = Node::new(T::identity());
            proof {
                assert(trues(&node, l as int, r as int) =~= all);
            }
            node
        } else {
            let m = (l + r) / 2;
            let left = Node::<T, E>::build(l, m);
            let right = Node::<T, E>::build(m, r);
            proof {
                lemma_node(&left, l as int, m as int);
                lemma_node(&right, m as int, r as int);
                lemma_fold_concat(trues(&left, l as int, m as int), trues(&right, m as int, r as int));
            }
            let data = duplicate(&left.data).op(&duplicate(&right.data));
            let node = Node { data: data, eff: E::identity(), left: Some(Rc::new(left)), right: Some(Rc::new(right)) };
            proof {
                let c = trues(&left, l as int, m as int) + trues(&right, m as int, r as int);
                lemma_acted(E::identity_spec(), E::identity_spec(), c);
                assert(c =~= all);
            }
            node
        }
    }

    /// The tree after the effect `fold_eff`, which the cells above have yet to
    /// hand down, has been applied to every position that this cell covers, and
    /// `new_eff` after it to those from `a` up to `b`; this tree stays as it is.
    #[verifier::rlimit(50)]
    fn effect_range(&self, a: usize, b: usize, new_eff: E, l: usize, r: usize, fold_eff: E) -> (node: Self)
        requires
            l <= r,
            2 * r <= usize::MAX,
            node_wf(self, l as int, r as int),
        ensures
            node_wf(&node, l as int, r as int),
            trues(&node, l as int, r as int) == range_acted(
                new_eff,
                acted(fold_eff, trues(self, l as int, r as int)),
                clip(a as int, b as int, l as int, r as int).0,
                clip(a as int, b as int, l as int, r as int).1,
            ),
        decreases r - l,
    {
        let ghost t = trues(self, l as int, r as int);
        let ghost c = clip(a as int, b as int, l as int, r as int);
        proof {
            lemma_node(self, l as int, r as int);
        }
        if a <= l && r <= b {
            let eff = fold_eff.op(&new_eff);
            let node = Node {
                data: eff.effect(&self.data, r - l),
                eff: self.eff.op(&eff),
                left: match &self.left {
                    Some(n) => Some(share(n)),
                    None => None,
                },
                right: match &self.right {
                    Some(n) => Some(share(n)),
                    None => None,
                },
            };
            proof {
                lemma_received(self, &node, eff, l as int, r as int);
                lemma_acted(fold_eff, new_eff, t);
                assert(acted(new_eff, acted(fold_eff, t)) =~= range_acted(new_eff, acted(fold_eff, t), c.0, c.1));
            }
            node
        } else if r <= a || b <= l {
            let node = Node {
                data: fold_eff.effect(&self.data, r - l),
                eff: self.eff.op(&fold_eff),
                left: match &self.left {
                    Some(n) => Some(share(n)),
                    None => None,
                },
                right: match &self.right {
                    Some(n) => Some(share(n)),
                    None => None,
                },
            };
            proof {
                lemma_received(self, &node, fold_eff, l as int, r as int);
                assert(acted(fold_eff, t) =~= range_acted(new_eff, acted(fold_eff, t), c.0, c.1));
            }
            node
        } else {
            let m = (l + r) / 2;
            let ghost tl = trues(&*self.left.unwrap(), l as int, m as int);
            let ghost tr = trues(&*self.right.unwrap(), m as int, r as int);
            let ghost down = self.eff.op_spec(fold_eff);
            proof {
                lemma_node(&*self.left.unwrap(), l as int, m as int);
                lemma_node(&*self.right.unwrap(), m as int, r as int);
            }
            let lchild: &Node<T, E> = self.left.as_ref().unwrap();
            let rchild: &Node<T, E> = self.right.as_ref().unwrap();
            let left = lchild.effect_range(a, b, duplicate(&new_eff), l, m, self.eff.op(&fold_eff));
            let right = rchild.effect_range(a, b, duplicate(&new_eff), m, r, self.eff.op(&fold_eff));
            proof {
                lemma_node(&left, l as int, m as int);
                lemma_node(&right, m as int, r as int);
                lemma_fold_concat(trues(&left, l as int, m as int), trues(&right, m as int, r as int));
            }
            let data = duplicate(&left.data).op(&duplicate(&right.data));
            let node = Node { data: data, eff: E::identity(), left: Some(Rc::new(left)), right: Some(Rc::new(right)) };
            proof {
                let ul = trues(&left, l as int, m as int);
                let ur = trues(&right, m as int, r as int);
                lemma_acted(E::identity_spec(), E::identity_spec(), ul + ur);
                lemma_acted(self.eff, fold_eff, tl + tr);
                lemma_acted_concat(down, tl, tr);
                lemma_range_acted_concat(
                    new_eff,
                    acted(down, tl),
                    acted(down, tr),
                    a as int,
                    b as int,
                    l as int,
                    m as int,
                    r as int,
                );
            }
            node
        }
    }

    /// The product of the positions below this cell that lie in the range from
    /// `a` up to `b`, with the effect `eff`, which the cells above have yet to
    /// hand down, applied.
    fn fold(&self, a: usize, b: usize, l: usize, r: usize, eff: E) -> (res: T)
        requires
            l <= r,
            2 * r <= usize::MAX,
            node_wf(self, l as int, r as int),
        ensures
            res == fold_seq(
                acted(eff, trues(self, l as int, r as int)).subrange(
                    clip(a as int, b as int, l as int, r as int).0,
                    clip(a as int, b as int, l as int, r as int).1,
                ),
            ),
        decreases r - l,
    {
        let ghost t = acted(eff, trues(self, l as int, r as int));
        let ghost c = clip(a as int, b as int, l as int, r as int);
        proof {
            lemma_node(self, l as int, r as int);
        }
        if a <= l && r <= b {
            proof {
                lemma_effect_fold(eff, trues(self, l as int, r as int));
                assert(t.subrange(c.0, c.1) =~= t);
            }
            eff.effect(&self.data, r - l)
        } else if r <= a || b <= l {
            proof {
                assert(t.subrange(c.0, c.1) =~= Seq::<T>::empty());
            }
            T::identity()
        } else {
            let m = (l + r) / 2;
            proof {
                let tl = trues(&*self.left.unwrap(), l as int, m as int);
                let tr = trues(&*self.right.unwrap(), m as int, r as int);
                let down = self.eff.op_spec(eff);
                lemma_node(&*self.left.unwrap(), l as int, m as int);
                lemma_node(&*self.right.unwrap(), m as int, r as int);
                lemma_acted(self.eff, eff, tl + tr);
                lemma_acted_concat(down, tl, tr);
                let cl = clip(a as int, b as int, l as int, m as int);
                let cr = clip(a as int, b as int, m as int, r as int);
                assert(t.subrange(c.0, c.1) =~= acted(down, tl).subrange(cl.0, cl.1) + acted(
                    down,
                    tr,
                ).subrange(cr.0, cr.1));
                lemma_fold_concat(acted(down, tl).subrange(cl.0, cl.1), acted(down, tr).subrange(cr.0, cr.1));
            }
            let lf = match &self.left {
                Some(n) => n.fold(a, b, l, m, self.eff.op(&eff)),
                None => T::identity(),
            };
            let rf = match &self.right {
                Some(n) => n.fold(a, b, m, r, self.eff.op(&eff)),
                None => T::identity(),
            };
            lf.op(&rf)
        }
    }
}

/// A sequence of fixed length, all identities at first, with effects on ranges
/// and folds of ranges. An effect hands back a new version and leaves the old
/// one as it was.
#[verifier::reject_recursive_types(T)]
pub struct PersistentLazySegmentTree<T: Monoid, E: LinearEffector<Target = T>> {
    root: Node<T, E>,
    sz: usize,
}

impl<T: Monoid, E: LinearEffector<Target = T>> View for PersistentLazySegmentTree<T, E> {
    type V = Seq<T>;

    /// The values, with every recorded effect applied.
    closed spec fn view(&self) -> Seq<T> {
        trues(&self.root, 0, self.sz as int)
    }
}

impl<T: Monoid, E: LinearEffector<Target = T>> PersistentLazySegmentTree<T, E> {
    /// The invariant: every cell holds the product of what it stands for.
    pub closed spec fn wf(&self) -> bool {
        &&& 2 * self.sz <= usize::MAX
        &&& node_wf(&self.root, 0, self.sz as int)
        &&& self@.len() == self.sz
    }

    /// The sequence of `n` identities.
    pub fn new(n: usize) -> (r: Self)
        requires
            2 * n <= usize::MAX,
        ensures
            r.wf(),
            r@ == Seq::new(n as nat, |i: int| T::identity_spec()),
    {
        Self { root: Node::build(0, n), sz: n }
    }

    /// The version with the effect `eff` applied to the positions from `l` up to
    /// `r`; positions that the sequence does not have are passed over.
    pub fn effect_range(&self, l: usize, r: usize, eff: E) -> (res: Self)
        requires
            self.wf(),
        ensures
            res.wf(),
            res@ == range_acted(
                eff,
                self@,
                clip(l as int, r as int, 0, self@.len() as int).0,
                clip(l as int, r as int, 0, self@.len() as int).1,
            ),
    {
        proof {
            lemma_acted(E::identity_spec(), E::identity_spec(), self@);
        }
        let res = Self { root: self.root.effect_range(l, r, eff, 0, self.sz, E::identity()), sz: self.sz };
        proof {
            lemma_node(&res.root, 0, self.sz as int);
        }
        res
    }

    /// The product of the positions from `l` up to `r`; positions that the
    /// sequence does not have count for nothing.
    pub fn fold(&self, l: usize, r: usize) -> (res: T)
        requires
            self.wf(),
        ensures
            res == fold_seq(
                self@.subrange(
                    clip(l as int, r as int, 0, self@.len() as int).0,
                    clip(l as int, r as int, 0, self@.len() as int).1,
                ),
            ),
    {
        proof {
            lemma_acted(E::identity_spec(), E::identity_spec(), self@);
        }
        self.root.fold(l, r, 0, self.sz, E::identity())
    }
}

} // verus!
