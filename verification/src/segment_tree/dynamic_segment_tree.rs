//! A segment tree whose cells come into being when a position below them is
//! first written; a cell that is not there stands for identities.
use vstd::prelude::*;
use crate::algebra::{duplicate, fold_seq, lemma_fold_concat, lemma_fold_one, Magma, Monoid, Unital};

verus! {

/// A cell of the tree: the product of the positions that it covers.
pub struct Node<M: Monoid> {
    left: Option<Box<Node<M>>>,
    right: Option<Box<Node<M>>>,
    val: M,
}

/// The value of an optional cell: the identity when it is not there.
pub closed spec fn cell_value<M: Monoid>(link: Option<Box<Node<M>>>) -> M {
    match link {
        Some(n) => n.val,
        None => M::identity_spec(),
    }
}

/// The values at the positions from `l` up to `r` that the optional cell covers.
pub closed spec fn leaves<M: Monoid>(link: Option<Box<Node<M>>>, l: int, r: int) -> Seq<M>
    decreases r - l,
{
    if r <= l {
        Seq::empty()
    } else if l + 1 == r {
        seq![cell_value(link)]
    } else {
        let m = (l + r) / 2;
        match link {
            Some(n) => leaves(n.left, l, m) + leaves(n.right, m, r),
            None => leaves::<M>(None, l, m) + leaves::<M>(None, m, r),
        }
    }
}

/// Every cell above the positions holds the product of the positions that it
/// covers.
pub closed spec fn node_wf<M: Monoid>(link: Option<Box<Node<M>>>, l: int, r: int) -> bool
    decreases r - l,
{
    match link {
        None => true,
        Some(n) => l < r && (l + 1 == r || {
            let m = (l + r) / 2;
            &&& n.val == fold_seq(leaves(link, l, r))
            &&& node_wf(n.left, l, m)
            &&& node_wf(n.right, m, r)
        }),
    }
}

/// The part of the positions from `l` up to `r` that lies in the range from `a`
/// up to `b`, as indices into the positions from `l` on.
pub open spec fn clip(a: int, b: int, l: int, r: int) -> (int, int) {
    let lo = if a <= l {
        l
    } else if a >= r {
        r
    } else {
        a
    };
    let hi = if b >= r {
        r
    } else if b <= lo {
        lo
    } else {
        b
    };
    (lo - l, hi - l)
}

/// A cell covers as many positions as its range is long.
pub proof fn lemma_leaves_len<M: Monoid>(link: Option<Box<Node<M>>>, l: int, r: int)
    requires
        l <= r,
    ensures
        leaves(link, l, r).len() == r - l,
    decreases r - l,
{
    if r <= l {
    } else if l + 1 == r {
    } else {
        let m = (l + r) / 2;
        match link {
            Some(n) => {
                lemma_leaves_len(n.left, l, m);
                lemma_leaves_len(n.right, m, r);
            },
            None => {
                lemma_leaves_len::<M>(None, l, m);
                lemma_leaves_len::<M>(None, m, r);
            },
        }
    }
}

/// Where there is no cell, every position holds the identity, and so does every
/// product of positions.
proof fn lemma_absent<M: Monoid>(l: int, r: int, i: int, j: int)
    requires
        l <= r,
        0 <= i <= j <= r - l,
    ensures
        leaves::<M>(None, l, r).len() == r - l,
        forall|k: int| 0 <= k < r - l ==> leaves::<M>(None, l, r)[k] == M::identity_spec(),
        fold_seq(leaves::<M>(None, l, r).subrange(i, j)) == M::identity_spec(),
    decreases r - l, j - i,
{
    lemma_leaves_len::<M>(None, l, r);
    let s = leaves::<M>(None, l, r);
    if l + 1 < r {
        let m = (l + r) / 2;
        lemma_absent::<M>(l, m, 0, 0);
        lemma_absent::<M>(m, r, 0, 0);
    }
    assert forall|k: int| 0 <= k < r - l implies s[k] == M::identity_spec() by {}
    if i < j {
        lemma_absent::<M>(l, r, i, j - 1);
        assert(s.subrange(i, j).drop_last() =~= s.subrange(i, j - 1));
        M::lemma_identity(M::identity_spec());
    }
}

/// A cell without children that holds the identity stands for what no cell
/// stands for.
proof fn lemma_fresh<M: Monoid>(n: Box<Node<M>>, l: int, r: int)
    requires
        l < r,
        n.left is None,
        n.right is None,
        n.val == M::identity_spec(),
    ensures
        node_wf(Some(n), l, r),
        leaves(Some(n), l, r) == leaves::<M>(None, l, r),
{
    reveal_with_fuel(node_wf, 2);
    lemma_absent::<M>(l, r, 0, r - l);
    assert(leaves::<M>(None, l, r).subrange(0, r - l) =~= leaves::<M>(None, l, r));
}

/// The value of a well-formed optional cell is the product of the positions
/// that it covers.
proof fn lemma_cell_fold<M: Monoid>(link: Option<Box<Node<M>>>, l: int, r: int)
    requires
        l < r,
        node_wf(link, l, r),
    ensures
        cell_value(link) == fold_seq(leaves(link, l, r)),
{
    lemma_leaves_len(link, l, r);
    match link {
        Some(n) => {
            if l + 1 == r {
                lemma_fold_one(n.val);
            }
        },
        None => {
            lemma_absent::<M>(l, r, 0, r - l);
            assert(leaves::<M>(None, l, r).subrange(0, r - l) =~= leaves::<M>(None, l, r));
        },
    }
}

/// A range over two halves is the range over the first half and the range over
/// the second.
proof fn lemma_clip_split<M: Monoid>(x: Seq<M>, y: Seq<M>, a: int, b: int, l: int, m: int, r: int)
    requires
        l <= m <= r,
        x.len() == m - l,
        y.len() == r - m,
    ensures
        (x + y).subrange(clip(a, b, l, r).0, clip(a, b, l, r).1) == x.subrange(
            clip(a, b, l, m).0,
            clip(a, b, l, m).1,
        ) + y.subrange(clip(a, b, m, r).0, clip(a, b, m, r).1),
{
    assert((x + y).subrange(clip(a, b, l, r).0, clip(a, b, l, r).1) =~= x.subrange(
        clip(a, b, l, m).0,
        clip(a, b, l, m).1,
    ) + y.subrange(clip(a, b, m, r).0, clip(a, b, m, r).1));
}

impl<M: Monoid> Node<M> {
    fn new() -> (r: Self)
        ensures
            r.left is None,
            r.right is None,
            r.val == M::identity_spec(),
    {
        Node { left: None, right: None, val: M::identity() }
    }
}

/// The value of an optional cell: the identity when it is not there.
pub fn value<M: Monoid>(node: &Option<Box<Node<M>>>) -> (r: M)
    ensures
        r == cell_value(*node),
{
    match node {
        Some(n) => duplicate(&n.val),
        None => M::identity(),
    }
}

/// Writes `x` at position `i` below the cell `node`, which covers the positions
/// from `l` up to `r`, and recomputes the products on the way back.
pub fn update_node<M: Monoid>(node: &mut Node<M>, i: usize, x: M, l: usize, r: usize)
    requires
        l <= i < r,
        2 * r <= usize::MAX,
        node_wf(Some(Box::new(*old(node))), l as int, r as int),
    ensures
        node_wf(Some(Box::new(*final(node))), l as int, r as int),
        leaves(Some(Box::new(*final(node))), l as int, r as int) == leaves(
            Some(Box::new(*old(node))),
            l as int,
            r as int,
        ).update(i - l, x),
    decreases r - l,
{
    let ghost before = leaves(Some(Box::new(*node)), l as int, r as int);
    if l + 1 == r {
        node.val = x;
        proof {
            assert(leaves(Some(Box::new(*node)), l as int, r as int) =~= before.update(i - l, x));
        }
    } else {
        let m = (l + r) / 2;
        let ghost l0 = node.left;
        let ghost r0 = node.right;
        proof {
            lemma_leaves_len(l0, l as int, m as int);
            lemma_leaves_len(r0, m as int, r as int);
            lemma_absent::<M>(l as int, m as int, 0, 0);
            lemma_absent::<M>(m as int, r as int, 0, 0);
        }
        if i < m {
            if node.left.is_none() {
                node.left = Some(Box::new(Node::new()));
                proof {
                    assert(leaves(node.left, l as int, m as int) == leaves(l0, l as int, m as int));
                    lemma_fresh(node.left.unwrap(), l as int, m as int);
                    lemma_absent::<M>(l as int, m as int, 0, m - l);
                    assert(leaves::<M>(None, l as int, m as int).subrange(0, m - l) =~= leaves::<M>(
                        None,
                        l as int,
                        m as int,
                    ));
                }
            }
            let left: &mut Node<M> = &mut **node.left.as_mut().unwrap();
            update_node(left, i, x, l, m);
        } else {
            if node.right.is_none() {
                node.right = Some(Box::new(Node::new()));
                proof {
                    assert(leaves(node.right, m as int, r as int) == leaves(r0, m as int, r as int));
                    lemma_fresh(node.right.unwrap(), m as int, r as int);
                    lemma_absent::<M>(m as int, r as int, 0, r - m);
                    assert(leaves::<M>(None, m as int, r as int).subrange(0, r - m) =~= leaves::<M>(
                        None,
                        m as int,
                        r as int,
                    ));
                }
            }
            let right: &mut Node<M> = &mut **node.right.as_mut().unwrap();
            update_node(right, i, x, m, r);
        }
        proof {
            lemma_cell_fold(node.left, l as int, m as int);
            lemma_cell_fold(node.right, m as int, r as int);
            lemma_fold_concat(leaves(node.left, l as int, m as int), leaves(node.right, m as int, r as int));
            lemma_leaves_len(node.left, l as int, m as int);
            lemma_leaves_len(node.right, m as int, r as int);
        }
        node.val = value(&node.left).op(&value(&node.right));
        proof {
            assert(leaves(Some(Box::new(*node)), l as int, r as int) =~= before.update(i - l, x));
        }
    }
}

/// The product of the positions below `node`, which covers the positions from
/// `l` up to `r`, that lie in the range from `a` up to `b`.
pub fn fold<M: Monoid>(node: &Node<M>, a: usize, b: usize, l: usize, r: usize) -> (res: M)
    requires
        l < r,
        2 * r <= usize::MAX,
        node_wf(Some(Box::new(*node)), l as int, r as int),
    ensures
        res == fold_seq(
            leaves(Some(Box::new(*node)), l as int, r as int).subrange(
                clip(a as int, b as int, l as int, r as int).0,
                clip(a as int, b as int, l as int, r as int).1,
            ),
        ),
    decreases r - l,
{
    let ghost all = leaves(Some(Box::new(*node)), l as int, r as int);
    proof {
        lemma_leaves_len(Some(Box::new(*node)), l as int, r as int);
        lemma_cell_fold(Some(Box::new(*node)), l as int, r as int);
    }
    if a <= l && r <= b {
        proof {
            assert(all.subrange(0, r - l) =~= all);
        }
        duplicate(&node.val)
    } else if r <= a || b <= l {
        proof {
            let c = clip(a as int, b as int, l as int, r as int);
            assert(all.subrange(c.0, c.1) =~= Seq::<M>::empty());
        }
        M::identity()
    } else {
        let m = (l + r) / 2;
        proof {
            lemma_leaves_len(node.left, l as int, m as int);
            lemma_leaves_len(node.right, m as int, r as int);
            lemma_clip_split(
                leaves(node.left, l as int, m as int),
                leaves(node.right, m as int, r as int),
                a as int,
                b as int,
                l as int,
                m as int,
                r as int,
            );
            let cl = clip(a as int, b as int, l as int, m as int);
            let cr = clip(a as int, b as int, m as int, r as int);
            lemma_fold_concat(
                leaves(node.left, l as int, m as int).subrange(cl.0, cl.1),
                leaves(node.right, m as int, r as int).subrange(cr.0, cr.1),
            );
            lemma_absent::<M>(l as int, m as int, cl.0, cl.1);
            lemma_absent::<M>(m as int, r as int, cr.0, cr.1);
        }
        let lf = match &node.left {
            Some(le) => fold(le, a, b, l, m),
            None => M::identity(),
        };
        let rf = match &node.right {
            Some(ri) => fold(ri, a, b, m, r),
            None => M::identity(),
        };
        lf.op(&rf)
    }
}

/// The least of `size`, `2 * size`, `4 * size`, ... that is not below `n`.
pub open spec fn doubled_up_to(size: nat, n: nat) -> nat
    decreases (if size < n { n - size } else { 0 }),
{
    if size >= n || size == 0 {
        size
    } else {
        doubled_up_to(2 * size, n)
    }
}

/// A sequence of fixed length, all identities at first, with writes to single
/// positions and folds of ranges.
pub struct DynamicSegmentTree<M: Monoid> {
    root: Node<M>,
    n: usize,
}

impl<M: Monoid> View for DynamicSegmentTree<M> {
    type V = Seq<M>;

    closed spec fn view(&self) -> Seq<M> {
        leaves(Some(Box::new(self.root)), 0, self.n as int)
    }
}

impl<M: Monoid> DynamicSegmentTree<M> {
    /// The invariant: every cell holds the product of the positions it covers.
    pub closed spec fn wf(&self) -> bool {
        &&& 1 <= self.n <= usize::MAX / 2
        &&& node_wf(Some(Box::new(self.root)), 0, self.n as int)
    }

    /// The sequence of the least power of two of identities that is not below
    /// `n`.
    pub fn new(n: usize) -> (r: Self)
        requires
            n <= usize::MAX / 4,
        ensures
            r.wf(),
            r@.len() == doubled_up_to(1, n as nat),
            r@.len() >= n,
            forall|i: int| 0 <= i < r@.len() ==> r@[i] == M::identity_spec(),
    {
        let mut sz: usize = 1;
        while sz < n
            invariant
                1 <= sz,
                sz <= usize::MAX / 2,
                n <= usize::MAX / 4,
                sz < 2 * n || sz == 1,
                doubled_up_to(sz as nat, n as nat) == doubled_up_to(1, n as nat),
            decreases (if sz < n { n - sz } else { 0 }),
        {
            sz = sz * 2;
        }
        let r = DynamicSegmentTree { root: Node::new(), n: sz };
        proof {
            lemma_absent::<M>(0, sz as int, 0, sz as int);
            let none = leaves::<M>(None, 0, sz as int);
            assert(none.subrange(0, sz as int) =~= none);
            lemma_fresh(Box::new(r.root), 0, sz as int);
            assert(r@ == none);
        }
        r
    }

    /// Writes `x` at position `i`.
    pub fn update(&mut self, i: usize, x: M)
        requires
            old(self).wf(),
            i < old(self)@.len(),
        ensures
            final(self).wf(),
            final(self)@ == old(self)@.update(i as int, x),
    {
        proof {
            lemma_leaves_len(Some(Box::new(self.root)), 0, self.n as int);
        }
        update_node(&mut self.root, i, x, 0, self.n);
    }

    /// The product of the positions from `a` up to `b`; positions that the
    /// sequence does not have count for nothing.
    pub fn fold(&self, a: usize, b: usize) -> (r: M)
        requires
            self.wf(),
        ensures
            r == fold_seq(
                self@.subrange(
                    clip(a as int, b as int, 0, self@.len() as int).0,
                    clip(a as int, b as int, 0, self@.len() as int).1,
                ),
            ),
    {
        proof {
            lemma_leaves_len(Some(Box::new(self.root)), 0, self.n as int);
        }
        fold(&self.root, a, b, 0, self.n)
    }
}

} // verus!
