//! A segment tree of which every version stays: a write makes new cells along
//! one path from the root and shares all others with the version before.
use std::rc::Rc;
use vstd::prelude::*;
use crate::algebra::{duplicate, fold_seq, lemma_fold_concat, lemma_fold_one, Magma, Monoid, Unital};
use crate::segment_tree::dynamic_segment_tree::clip;
use crate::sharing::share;

verus! {

type Link<T> = Option<Rc<Node<T>>>;

struct Node<T: Monoid> {
    data: T,
    left: Link<T>,
    right: Link<T>,
}

/// The values at the positions from `l` up to `r` that the cell covers.
spec fn leaves<T: Monoid>(node: &Node<T>, l: int, r: int) -> Seq<T>
    decreases r - l,
{
    if r <= l {
        Seq::empty()
    } else if l + 1 == r {
        seq![node.data]
    } else if node.left is Some && node.right is Some {
        let m = (l + r) / 2;
        leaves(&*node.left.unwrap(), l, m) + leaves(&*node.right.unwrap(), m, r)
    } else {
        Seq::empty()
    }
}

/// Every cell holds the product of the positions that it covers, and every cell
/// that covers two positions or more has both children.
spec fn node_wf<T: Monoid>(node: &Node<T>, l: int, r: int) -> bool
    decreases r - l,
{
    if r <= l {
        node.data == T::identity_spec()
    } else if l + 1 == r {
        true
    } else {
        let m = (l + r) / 2;
        &&& node.left is Some
        &&& node.right is Some
        &&& node_wf(&*node.left.unwrap(), l, m)
        &&& node_wf(&*node.right.unwrap(), m, r)
        &&& node.data == fold_seq(leaves(node, l, r))
    }
}

proof fn lemma_leaves_len<T: Monoid>(node: &Node<T>, l: int, r: int)
    requires
        l <= r,
        node_wf(node, l, r),
    ensures
        leaves(node, l, r).len() == r - l,
        node.data == fold_seq(leaves(node, l, r)),
    decreases r - l,
{
    if r <= l {
    } else if l + 1 == r {
        lemma_fold_one(node.data);
    } else {
        let m = (l + r) / 2;
        lemma_leaves_len(&*node.left.unwrap(), l, m);
        lemma_leaves_len(&*node.right.unwrap(), m, r);
    }
}

impl<T: Monoid> Node<T> {
    fn new(data: T) -> (r: Self)
        ensures
            r.data == data,
            r.left is None,
            r.right is None,
    {
        Node { data: data, left: None, right: None }
    }

    /// The tree of identities over the positions from `l` up to `r`.
    fn build(l: usize, r: usize) -> (node: Self)
        requires
            l <= r,
            2 * r <= usize::MAX,
        ensures
            node_wf(&node, l as int, r as int),
            leaves(&node, l as int, r as int) == Seq::new((r - l) as nat, |i: int| T::identity_spec()),
        decreases r - l,
    {
        if l + 1 >= r {
            let node = Node::new(T::identity());
            proof {
                if l < r {
                    assert(leaves(&node, l as int, r as int) =~= Seq::new(
                        (r - l) as nat,
                        |i: int| T::identity_spec(),
                    ));
                } else if l == r {
                    assert(leaves(&node, l as int, r as int) =~= Seq::new(
                        (r - l) as nat,
                        |i: int| T::identity_spec(),
                    ));
                }
            }
            node
        } else {
            let m = (l + r) / 2;
            let left = Node::build(l, m);
            let right = Node::build(m, r);
            let node = Node { data: T::identity(), left: Some(Rc::new(left)), right: Some(Rc::new(right)) };
            proof {
                let all = Seq::new((r - l) as nat, |i: int| T::identity_spec());
                assert(leaves(&node, l as int, r as int) =~= all);
                lemma_identities::<T>((r - l) as nat);
            }
            node
        }
    }

    /// The tree with `x` at position `i`; this tree stays as it is.
    fn update(&self, i: usize, x: T, l: usize, r: usize) -> (node: Self)
        requires
            l <= i < r,
            2 * r <= usize::MAX,
            node_wf(self, l as int, r as int),
        ensures
            node_wf(&node, l as int, r as int),
            leaves(&node, l as int, r as int) == leaves(self, l as int, r as int).update(i - l, x),
        decreases r - l,
    {
        if i == l && i + 1 == r {
            let node = Node::new(x);
            proof {
                assert(leaves(&node, l as int, r as int) =~= leaves(self, l as int, r as int).update(
                    i - l,
                    x,
                ));
            }
            node
        } else {
            let m = (l + r) / 2;
            proof {
                lemma_leaves_len(&*self.left.unwrap(), l as int, m as int);
                lemma_leaves_len(&*self.right.unwrap(), m as int, r as int);
            }
            let (left, right) = if i < m {
                let child: &Node<T> = self.left.as_ref().unwrap();
                (Some(Rc::new(child.update(i, x, l, m))), Some(share(self.right.as_ref().unwrap())))
            } else {
                let child: &Node<T> = self.right.as_ref().unwrap();
                (Some(share(self.left.as_ref().unwrap())), Some(Rc::new(child.update(i, x, m, r))))
            };
            proof {
                lemma_leaves_len(&*left.unwrap(), l as int, m as int);
                lemma_leaves_len(&*right.unwrap(), m as int, r as int);
                lemma_fold_concat(
                    leaves(&*left.unwrap(), l as int, m as int),
                    leaves(&*right.unwrap(), m as int, r as int),
                );
            }
            let data = (match &left {
                Some(n) => duplicate(&n.data),
                None => T::identity(),
            }).op(
                &match &right {
                    Some(n) => duplicate(&n.data),
                    None => T::identity(),
                },
            );
            let node = Node { data: data, left: left, right: right };
            proof {
                assert(leaves(&node, l as int, r as int) =~= leaves(self, l as int, r as int).update(
                    i - l,
                    x,
                ));
            }
            node
        }
    }

    /// The product of the positions below this cell, which covers the positions
    /// from `l` up to `r`, that lie in the range from `a` up to `b`.
    fn fold(&self, a: usize, b: usize, l: usize, r: usize) -> (res: T)
        requires
            l <= r,
            2 * r <= usize::MAX,
            node_wf(self, l as int, r as int),
        ensures
            res == fold_seq(
                leaves(self, l as int, r as int).subrange(
                    clip(a as int, b as int, l as int, r as int).0,
                    clip(a as int, b as int, l as int, r as int).1,
                ),
            ),
        decreases r - l,
    {
        let ghost all = leaves(self, l as int, r as int);
        let ghost c = clip(a as int, b as int, l as int, r as int);
        proof {
            lemma_leaves_len(self, l as int, r as int);
        }
        if a <= l && r <= b {
            proof {
                assert(all.subrange(c.0, c.1) =~= all);
            }
            duplicate(&self.data)
        } else if r <= a || b <= l {
            proof {
                assert(all.subrange(c.0, c.1) =~= Seq::<T>::empty());
            }
            T::identity()
        } else {
            let m = (l + r) / 2;
            proof {
                let x = leaves(&*self.left.unwrap(), l as int, m as int);
                let y = leaves(&*self.right.unwrap(), m as int, r as int);
                lemma_leaves_len(&*self.left.unwrap(), l as int, m as int);
                lemma_leaves_len(&*self.right.unwrap(), m as int, r as int);
                let cl = clip(a as int, b as int, l as int, m as int);
                let cr = clip(a as int, b as int, m as int, r as int);
                assert(all.subrange(c.0, c.1) =~= x.subrange(cl.0, cl.1) + y.subrange(cr.0, cr.1));
                lemma_fold_concat(x.subrange(cl.0, cl.1), y.subrange(cr.0, cr.1));
            }
            let lf = match &self.left {
                Some(n) => n.fold(a, b, l, m),
                None => T::identity(),
            };
            let rf = match &self.right {
                Some(n) => n.fold(a, b, m, r),
                None => T::identity(),
            };
            lf.op(&rf)
        }
    }
}

/// The product of identities is the identity.
proof fn lemma_identities<T: Monoid>(n: nat)
    ensures
        fold_seq(Seq::new(n, |i: int| T::identity_spec())) == T::identity_spec(),
    decreases n,
{
    let s = Seq::new(n, |i: int| T::identity_spec());
    if n > 0 {
        lemma_identities::<T>((n - 1) as nat);
        assert(s.drop_last() =~= Seq::new((n - 1) as nat, |i: int| T::identity_spec()));
        T::lemma_identity(T::identity_spec());
    }
}

/// A sequence of fixed length, all identities at first. A write hands back a new
/// version and leaves the old one as it was.
pub struct PersistentSegmentTree<T: Monoid> {
    root: Node<T>,
    sz: usize,
}

impl<T: Monoid> View for PersistentSegmentTree<T> {
    type V = Seq<T>;

    closed spec fn view(&self) -> Seq<T> {
        leaves(&self.root, 0, self.sz as int)
    }
}

impl<T: Monoid> PersistentSegmentTree<T> {
    /// The invariant: every cell holds the product of the positions it covers.
    pub closed spec fn wf(&self) -> bool {
        &&& 2 * self.sz <= usize::MAX
        &&& node_wf(&self.root, 0, self.sz as int)
        &&& self@.len() == self.sz
    }

    /// The sequence of `n` identities.
    pub fn new(n: usize) -> (r: Self)
        requires
            2 * n <= usize::MAX,
        ensures
            r.wf(),
            r@ == Seq::new(n as nat, |i: int| T::identity_spec()),
    {
        Self { root: Node::build(0, n), sz: n }
    }

    /// The version with `x` at position `i`.
    pub fn update(&self, i: usize, x: T) -> (r: Self)
        requires
            self.wf(),
            i < self@.len(),
        ensures
            r.wf(),
            r@ == self@.update(i as int, x),
    {
        Self { root: self.root.update(i, x, 0, self.sz), sz: self.sz }
    }

    /// The product of the positions from `l` up to `r`; positions that the
    /// sequence does not have count for nothing.
    pub fn fold(&self, l: usize, r: usize) -> (res: T)
        requires
            self.wf(),
        ensures
            res == fold_seq(
                self@.subrange(
                    clip(l as int, r as int, 0, self@.len() as int).0,
                    clip(l as int, r as int, 0, self@.len() as int).1,
                ),
            ),
    {
        self.root.fold(l, r, 0, self.sz)
    }
}

} // verus!
