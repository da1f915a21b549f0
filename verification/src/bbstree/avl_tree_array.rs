//! A sequence kept in an AVL tree whose inorder is the sequence: indexed,
//! splittable and concatenable in logarithmic time.
use vstd::prelude::*;
use crate::algebra::{duplicate, fold_seq, lemma_fold_concat, lemma_fold_one, Magma, Monoid, Unital};
use crate::bbstree::node_traits::{
    cut, diff, height, link_fold, link_height, link_size, node_diff, size, FoldNode, HeightNode,
    Link, Node, SizeNode,
};

verus! {

/// What the AVL engine asks of a cell: a cached size and a cached height, and
/// that these are all the machine integers `fix` has to recompute.
pub trait AVLSizeNode: Node + SizeNode + HeightNode {
    /// `fix` stays in range when the sizes and heights it adds up do.
    proof fn lemma_fits(left: Link<Self>, right: Link<Self>)
        requires
            (match left {
                Some(c) => c.size_spec() as int,
                None => 0,
            }) + (match right {
                Some(c) => c.size_spec() as int,
                None => 0,
            }) + 1 <= usize::MAX,
            (match left {
                Some(c) => c.height_spec() as int,
                None => 0,
            }) < isize::MAX,
            (match right {
                Some(c) => c.height_spec() as int,
                None => 0,
            }) < isize::MAX,
        ensures
            Self::fits(left, right),
    ;
}

/// The AVL engine's name for the cells it accepts.
pub trait AVLArrayNode: AVLSizeNode {}

impl<N: AVLSizeNode> AVLArrayNode for N {}

/// Recursion measure of an optional subtree.
pub open spec fn link_rank<N: Node>(link: Link<N>) -> nat {
    match link {
        Some(node) => node.rank() + 1,
        None => 0,
    }
}

/// The values of a subtree from left to right.
#[verifier::opaque]
pub open spec fn inorder<N: Node>(link: Link<N>) -> Seq<N::Value>
    decreases link_rank(link),
{
    match link {
        None => Seq::empty(),
        Some(node) => {
            proof {
                if node.child_spec(0) is Some {
                    node.lemma_rank(0);
                }
                if node.child_spec(1) is Some {
                    node.lemma_rank(1);
                }
            }
            inorder(node.child_spec(0)) + seq![node.val_spec()] + inorder(node.child_spec(1))
        },
    }
}

/// Every cell of the subtree has its caches recomputed and its two children's
/// cached heights differ by at most one.
#[verifier::opaque]
pub open spec fn avl_wf<N: AVLSizeNode>(link: Link<N>) -> bool
    decreases link_rank(link),
{
    match link {
        None => true,
        Some(node) => {
            proof {
                if node.child_spec(0) is Some {
                    node.lemma_rank(0);
                }
                if node.child_spec(1) is Some {
                    node.lemma_rank(1);
                }
            }
            &&& node.fixed()
            &&& avl_wf(node.child_spec(0))
            &&& avl_wf(node.child_spec(1))
            &&& -1 <= node_diff(&*node) <= 1
        },
    }
}

/// The inorder of a cell: left subtree, value, right subtree.
pub proof fn lemma_inorder_node<N: Node>(node: Box<N>)
    ensures
        inorder(Some(node)) == inorder(node.child_spec(0)) + seq![node.val_spec()] + inorder(
            node.child_spec(1),
        ),
        inorder::<N>(None) == Seq::<N::Value>::empty(),
{
    reveal(inorder);
}

/// A rotation keeps the inorder: `(c · y · b) · x · a` is `c · y · (b · x · a)`,
/// and the mirror image.
proof fn lemma_rotate_inorder<N: Node>(x0: Box<N>, y0: Box<N>, x2: Box<N>, r: Box<N>, dir: int)
    requires
        0 <= dir < 2,
        x0.child_spec(1 - dir) == Some(y0),
        r.val_spec() == y0.val_spec(),
        r.child_spec(1 - dir) == y0.child_spec(1 - dir),
        r.child_spec(dir) == Some(x2),
        x2.val_spec() == x0.val_spec(),
        x2.child_spec(dir) == x0.child_spec(dir),
        x2.child_spec(1 - dir) == y0.child_spec(dir),
    ensures
        inorder(Some(r)) == inorder(Some(x0)),
{
    lemma_inorder_node(r);
    lemma_inorder_node(x2);
    lemma_inorder_node(x0);
    lemma_inorder_node(y0);
    let a = inorder(x0.child_spec(dir));
    let b = inorder(y0.child_spec(dir));
    let c = inorder(y0.child_spec(1 - dir));
    let xv = seq![x0.val_spec()];
    let yv = seq![y0.val_spec()];
    if dir == 1 {
        assert(c + yv + (b + xv + a) =~= (c + yv + b) + xv + a);
    } else {
        assert((a + xv + b) + yv + c =~= a + xv + (b + yv + c));
    }
}

/// The empty tree is well-formed and its inorder is empty.
pub proof fn lemma_empty<N: AVLSizeNode>()
    ensures
        avl_wf::<N>(None),
        inorder::<N>(None) == Seq::<N::Value>::empty(),
{
    reveal(avl_wf);
    reveal(inorder);
}

/// What `fix` leaves in the size and height caches.
pub proof fn lemma_fixed<N: AVLSizeNode>(node: &N)
    requires
        node.fixed(),
    ensures
        node.size_spec() == link_size(node.child_spec(0)) + link_size(node.child_spec(1)) + 1,
        node.height_spec() == vstd::math::max(
            link_height(node.child_spec(0)),
            link_height(node.child_spec(1)),
        ) + 1,
{
    node.lemma_size_fixed();
    node.lemma_height_fixed();
}

/// Size accuracy: in a well-formed subtree the cached size is the number of
/// cells, the cached height is at least 0, and the height is small against the
/// size.
pub proof fn lemma_wf_measures<N: AVLSizeNode>(link: Link<N>)
    requires
        avl_wf(link),
    ensures
        link_size(link) == inorder(link).len(),
        link is Some ==> link_height(link) >= 1,
        link is None ==> link_height(link) == 0,
        link_size(link) >= link_height(link),
        link_size(link) >= 2 * link_height(link) - 2,
        link_size(link) >= 3 * link_height(link) - 5,
    decreases link_rank(link),
{
    match link {
        None => {
            lemma_empty::<N>();
        },
        Some(node) => {
            if node.child_spec(0) is Some {
                node.lemma_rank(0);
            }
            if node.child_spec(1) is Some {
                node.lemma_rank(1);
            }
            lemma_wf_node(node);
            lemma_inorder_node(node);
            lemma_wf_measures(node.child_spec(0));
            lemma_wf_measures(node.child_spec(1));
            lemma_fixed(&*node);
        },
    }
}

/// Children that are well-formed and whose cells, with one more, can be counted
/// in a `usize` can be put under one cell.
proof fn lemma_can_fix<N: AVLSizeNode>(left: Link<N>, right: Link<N>)
    requires
        avl_wf(left),
        avl_wf(right),
        link_size(left) + link_size(right) + 1 <= usize::MAX,
    ensures
        N::fits(left, right),
        link_height(left) + 2 < isize::MAX,
        link_height(right) + 2 < isize::MAX,
{
    lemma_wf_measures(left);
    lemma_wf_measures(right);
    N::lemma_fits(left, right);
}

/// Single rotation: the child on the side opposite to `dir` becomes the root and
/// the old root its child on side `dir`.
#[verifier::rlimit(50)]
fn rotate<N: AVLSizeNode>(x: Box<N>, dir: usize) -> (r: Box<N>)
    requires
        dir < 2,
        x.fixed(),
        x.child_spec(1 - dir) is Some,
        x.child_spec(1 - dir).unwrap().fixed(),
        avl_wf(x.child_spec(dir as int)),
        avl_wf(x.child_spec(1 - dir).unwrap().child_spec(0)),
        avl_wf(x.child_spec(1 - dir).unwrap().child_spec(1)),
    ensures
        r.fixed(),
        r.val_spec() == x.child_spec(1 - dir).unwrap().val_spec(),
        r.child_spec(1 - dir) == x.child_spec(1 - dir).unwrap().child_spec(1 - dir),
        r.child_spec(dir as int) is Some,
        r.child_spec(dir as int).unwrap().fixed(),
        r.child_spec(dir as int).unwrap().val_spec() == x.val_spec(),
        r.child_spec(dir as int).unwrap().child_spec(dir as int) == x.child_spec(dir as int),
        r.child_spec(dir as int).unwrap().child_spec(1 - dir) == x.child_spec(1 - dir).unwrap().child_spec(
            dir as int,
        ),
        inorder(Some(r)) == inorder(Some(x)),
{
    let ghost x0 = x;
    let ghost y0 = x.child_spec(1 - dir).unwrap();
    proof {
        lemma_fixed(&*x0);
        lemma_fixed(&*y0);
        lemma_wf_measures(x0.child_spec(dir as int));
        lemma_wf_measures(y0.child_spec(0));
        lemma_wf_measures(y0.child_spec(1));
        N::lemma_fits(None, x0.child_spec(dir as int));
        N::lemma_fits(x0.child_spec(dir as int), None);
        N::lemma_fits(None, y0.child_spec(1 - dir));
        N::lemma_fits(y0.child_spec(1 - dir), None);
        N::lemma_fits(x0.child_spec(dir as int), y0.child_spec(dir as int));
        N::lemma_fits(y0.child_spec(dir as int), x0.child_spec(dir as int));
    }
    let (x, y) = cut(x, 1 - dir);
    let (y, b) = cut(y.unwrap(), dir);
    let x = crate::bbstree::node_traits::set(x, b, 1 - dir);
    proof {
        lemma_fixed(&*x);
        N::lemma_fits(Some(x), y0.child_spec(1 - dir));
        N::lemma_fits(y0.child_spec(1 - dir), Some(x));
    }
    let ghost x2 = x;
    let r = crate::bbstree::node_traits::set(y, Some(x), dir);
    proof {
        lemma_rotate_inorder(x0, y0, x2, r, dir as int);
    }
    r
}

/// Well-formedness of a cell, one level unfolded.
pub proof fn lemma_wf_node<N: AVLSizeNode>(node: Box<N>)
    ensures
        avl_wf(Some(node)) == (node.fixed() && avl_wf(node.child_spec(0)) && avl_wf(
            node.child_spec(1),
        ) && -1 <= node_diff(&*node) <= 1),
        avl_wf::<N>(None),
{
    reveal(avl_wf);
}

/// A rotation whose three subtrees have heights that fit together gives a
/// well-formed tree.
proof fn lemma_rotated_wf<N: AVLSizeNode>(r: Box<N>, dir: int)
    requires
        0 <= dir < 2,
        r.fixed(),
        r.child_spec(dir) is Some,
        r.child_spec(dir).unwrap().fixed(),
        avl_wf(r.child_spec(1 - dir)),
        avl_wf(r.child_spec(dir).unwrap().child_spec(0)),
        avl_wf(r.child_spec(dir).unwrap().child_spec(1)),
        -1 <= node_diff(&*r.child_spec(dir).unwrap()) <= 1,
        -1 <= link_height(r.child_spec(1 - dir)) - (vstd::math::max(
            link_height(r.child_spec(dir).unwrap().child_spec(0)),
            link_height(r.child_spec(dir).unwrap().child_spec(1)),
        ) + 1) <= 1,
    ensures
        avl_wf(Some(r)),
        link_height(Some(r)) == vstd::math::max(
            link_height(r.child_spec(1 - dir)),
            vstd::math::max(
                link_height(r.child_spec(dir).unwrap().child_spec(0)),
                link_height(r.child_spec(dir).unwrap().child_spec(1)),
            ) + 1,
        ) + 1,
{
    let x2 = r.child_spec(dir).unwrap();
    lemma_fixed(&*r);
    lemma_fixed(&*x2);
    lemma_wf_node(r);
    lemma_wf_node(x2);
}

/// Restores the AVL balance at a cell whose children are well-formed and whose
/// cached heights differ by at most two.
#[verifier::rlimit(50)]
fn balance<N: AVLSizeNode>(node: Box<N>) -> (r: Box<N>)
    requires
        node.fixed(),
        avl_wf(node.child_spec(0)),
        avl_wf(node.child_spec(1)),
        -2 <= node_diff(&*node) <= 2,
    ensures
        avl_wf(Some(r)),
        inorder(Some(r)) == inorder(Some(node)),
        link_height(Some(r)) == link_height(Some(node)) || link_height(Some(r)) == link_height(
            Some(node),
        ) - 1,
        -1 <= node_diff(&*node) <= 1 ==> r == node,
{
    let ghost n0 = node;
    let mut node = node;
    proof {
        lemma_fixed(&*n0);
        lemma_wf_measures(n0.child_spec(0));
        lemma_wf_measures(n0.child_spec(1));
        lemma_wf_node(n0);
    }
    let d = node.diff();
    if d == 2 {
        let ghost l0 = n0.child_spec(0).unwrap();
        proof {
            lemma_wf_node(l0);
            lemma_fixed(&*l0);
            lemma_wf_measures(l0.child_spec(0));
            lemma_wf_measures(l0.child_spec(1));
        }
        if diff(node.child_imut(0)) == -1 {
            let ghost m0 = l0.child_spec(1).unwrap();
            proof {
                lemma_wf_node(m0);
                lemma_fixed(&*m0);
                lemma_wf_measures(m0.child_spec(0));
                lemma_wf_measures(m0.child_spec(1));
                N::lemma_fits(None, n0.child_spec(1));
            }
            let (n, ch) = cut(node, 0);
            let rotated = rotate(ch.unwrap(), 0);
            proof {
                lemma_fixed(&*rotated);
                lemma_fixed(&*rotated.child_spec(0).unwrap());
                N::lemma_fits(Some(rotated), n0.child_spec(1));
                lemma_wf_node(rotated.child_spec(0).unwrap());
            }
            node = crate::bbstree::node_traits::set(n, Some(rotated), 0);
            proof {
                lemma_inorder_node(node);
                lemma_inorder_node(n0);
            }
        }
        let r = rotate(node, 1);
        proof {
            lemma_rotated_wf(r, 1);
        }
        r
    } else if d == -2 {
        let ghost l0 = n0.child_spec(1).unwrap();
        proof {
            lemma_wf_node(l0);
            lemma_fixed(&*l0);
            lemma_wf_measures(l0.child_spec(0));
            lemma_wf_measures(l0.child_spec(1));
        }
        if diff(node.child_imut(1)) == 1 {
            let ghost m0 = l0.child_spec(0).unwrap();
            proof {
                lemma_wf_node(m0);
                lemma_fixed(&*m0);
                lemma_wf_measures(m0.child_spec(0));
                lemma_wf_measures(m0.child_spec(1));
                N::lemma_fits(n0.child_spec(0), None);
            }
            let (n, ch) = cut(node, 1);
            let rotated = rotate(ch.unwrap(), 1);
            proof {
                lemma_fixed(&*rotated);
                lemma_fixed(&*rotated.child_spec(1).unwrap());
                N::lemma_fits(n0.child_spec(0), Some(rotated));
                lemma_wf_node(rotated.child_spec(1).unwrap());
            }
            node = crate::bbstree::node_traits::set(n, Some(rotated), 1);
            proof {
                lemma_inorder_node(node);
                lemma_inorder_node(n0);
            }
        }
        let r = rotate(node, 0);
        proof {
            lemma_rotated_wf(r, 0);
        }
        r
    } else {
        node
    }
}

/// Takes the outermost cell on side `dir` out of a tree: hands back that cell,
/// with no children, and the rest of the tree, rebalanced.
#[verifier::rlimit(50)]
fn deepest_node<N: AVLSizeNode>(node: Box<N>, dir: usize) -> (r: (Box<N>, Link<N>))
    requires
        dir < 2,
        avl_wf(Some(node)),
    ensures
        r.0.fixed(),
        r.0.child_spec(0) is None,
        r.0.child_spec(1) is None,
        avl_wf(r.1),
        dir == 0 ==> inorder(Some(node)) == seq![r.0.val_spec()] + inorder(r.1),
        dir == 1 ==> inorder(Some(node)) == inorder(r.1) + seq![r.0.val_spec()],
        link_height(r.1) == link_height(Some(node)) || link_height(r.1) == link_height(Some(node))
            - 1,
    decreases node.rank(),
{
    let ghost n0 = node;
    let ghost other = n0.child_spec(1 - dir);
    proof {
        lemma_wf_node(n0);
        lemma_inorder_node(n0);
        lemma_fixed(&*n0);
        lemma_wf_measures(n0.child_spec(0));
        lemma_wf_measures(n0.child_spec(1));
        lemma_empty::<N>();
        lemma_can_fix::<N>(None, n0.child_spec(1));
        lemma_can_fix::<N>(n0.child_spec(0), None);
        lemma_can_fix::<N>(None, None);
    }
    let (n, ch) = cut(node, dir);
    match ch {
        Some(dir_node) => {
            proof {
                n0.lemma_rank(dir as int);
            }
            let (deepest, dirn) = deepest_node(dir_node, dir);
            proof {
                lemma_wf_measures(dirn);
                lemma_can_fix::<N>(dirn, other);
                lemma_can_fix::<N>(other, dirn);
            }
            let n = crate::bbstree::node_traits::set(n, dirn, dir);
            proof {
                lemma_fixed(&*n);
                lemma_inorder_node(n);
                lemma_wf_node(n);
            }
            let balanced = balance(n);
            proof {
                if dir == 0 {
                    assert(inorder(Some(n0)) =~= seq![deepest.val_spec()] + inorder(
                        Some(balanced),
                    ));
                } else {
                    assert(inorder(Some(n0)) =~= inorder(Some(balanced)) + seq![
                        deepest.val_spec(),
                    ]);
                }
            }
            (deepest, Some(balanced))
        },
        None => {
            let r = cut(n, 1 - dir);
            proof {
                if dir == 0 {
                    assert(inorder(Some(n0)) =~= seq![r.0.val_spec()] + inorder(r.1));
                } else {
                    assert(inorder(Some(n0)) =~= inorder(r.1) + seq![r.0.val_spec()]);
                }
            }
            r
        },
    }
}

/// Joins `dst`, the single cell `root` and `src`, with `src` on side `dir` of
/// `dst`: descends the `dir` edge of `dst` to a subtree about as high as `src`,
/// puts `root` over the two, and rebalances on the way back.
#[verifier::rlimit(50)]
fn merge_dir<N: AVLSizeNode>(dst: Box<N>, root: Box<N>, src: Link<N>, dir: usize) -> (r: Box<N>)
    requires
        dir < 2,
        avl_wf(Some(dst)),
        avl_wf(src),
        root.child_spec(0) is None,
        root.child_spec(1) is None,
        link_height(Some(dst)) >= link_height(src) - 1,
        link_size(Some(dst)) + link_size(src) + 1 <= usize::MAX,
    ensures
        avl_wf(Some(r)),
        dir == 1 ==> inorder(Some(r)) == inorder(Some(dst)) + seq![root.val_spec()] + inorder(src),
        dir == 0 ==> inorder(Some(r)) == inorder(src) + seq![root.val_spec()] + inorder(Some(dst)),
        link_height(Some(r)) <= vstd::math::max(link_height(Some(dst)), link_height(src)) + 1,
        link_height(Some(r)) >= vstd::math::max(link_height(Some(dst)), link_height(src)),
    decreases dst.rank(),
{
    let ghost d0 = dst;
    let ghost other = d0.child_spec(1 - dir);
    proof {
        lemma_wf_node(d0);
        lemma_inorder_node(d0);
        lemma_fixed(&*d0);
        lemma_wf_measures(Some(d0));
        lemma_wf_measures(src);
        lemma_wf_measures(d0.child_spec(0));
        lemma_wf_measures(d0.child_spec(1));
        lemma_empty::<N>();
        lemma_can_fix::<N>(src, None);
        lemma_can_fix::<N>(None, src);
        lemma_can_fix::<N>(None, d0.child_spec(1));
        lemma_can_fix::<N>(d0.child_spec(0), None);
    }
    let hd = dst.height();
    let hs = height(&src);
    if hd - hs <= 1 && hs - hd <= 1 {
        let root = crate::bbstree::node_traits::set(root, src, dir);
        proof {
            lemma_can_fix::<N>(src, Some(d0));
            lemma_can_fix::<N>(Some(d0), src);
        }
        let root = crate::bbstree::node_traits::set(root, Some(dst), 1 - dir);
        proof {
            lemma_fixed(&*root);
            lemma_wf_node(root);
            lemma_inorder_node(root);
        }
        root
    } else {
        let (d, ch) = cut(dst, dir);
        match ch {
            Some(sch) => {
                proof {
                    d0.lemma_rank(dir as int);
                }
                let merged = merge_dir(sch, root, src, dir);
                proof {
                    lemma_wf_measures(Some(merged));
                    lemma_can_fix::<N>(Some(merged), other);
                    lemma_can_fix::<N>(other, Some(merged));
                }
                let d = crate::bbstree::node_traits::set(d, Some(merged), dir);
                proof {
                    lemma_fixed(&*d);
                    lemma_inorder_node(d);
                    lemma_wf_node(d);
                }
                let r = balance(d);
                proof {
                    if dir == 1 {
                        assert(inorder(Some(r)) =~= inorder(Some(d0)) + seq![root.val_spec()]
                            + inorder(src));
                    } else {
                        assert(inorder(Some(r)) =~= inorder(src) + seq![root.val_spec()] + inorder(
                            Some(d0),
                        ));
                    }
                }
                r
            },
            None => {
                let joined = crate::bbstree::node_traits::set(root, src, dir);
                proof {
                    lemma_fixed(&*joined);
                    lemma_inorder_node(joined);
                    lemma_wf_node(joined);
                }
                let leaf = balance(joined);
                proof {
                    lemma_wf_measures(Some(leaf));
                    lemma_can_fix::<N>(Some(leaf), other);
                    lemma_can_fix::<N>(other, Some(leaf));
                }
                let d = crate::bbstree::node_traits::set(d, Some(leaf), dir);
                proof {
                    lemma_fixed(&*d);
                    lemma_inorder_node(d);
                    lemma_wf_node(d);
                }
                let r = balance(d);
                proof {
                    if dir == 1 {
                        assert(inorder(Some(r)) =~= inorder(Some(d0)) + seq![root.val_spec()]
                            + inorder(src));
                    } else {
                        assert(inorder(Some(r)) =~= inorder(src) + seq![root.val_spec()] + inorder(
                            Some(d0),
                        ));
                    }
                }
                r
            },
        }
    }
}

/// Concatenates two trees.
fn merge<N: AVLSizeNode>(left: Link<N>, right: Link<N>) -> (r: Link<N>)
    requires
        avl_wf(left),
        avl_wf(right),
        link_size(left) + link_size(right) <= usize::MAX,
    ensures
        avl_wf(r),
        inorder(r) == inorder(left) + inorder(right),
        link_height(r) <= vstd::math::max(link_height(left), link_height(right)) + 1,
        link_height(r) >= vstd::math::max(link_height(left), link_height(right)),
        left is None ==> r == right,
        right is None ==> r == left,
{
    proof {
        lemma_empty::<N>();
        lemma_wf_measures(left);
        lemma_wf_measures(right);
    }
    match left {
        Some(ln) => {
            match right {
                Some(rn) => {
                    if ln.height() >= rn.height() {
                        let (deep_left, src) = deepest_node(rn, 0);
                        proof {
                            lemma_wf_measures(src);
                            assert(inorder(Some(rn)).len() == inorder(src).len() + 1);
                        }
                        let r = merge_dir(ln, deep_left, src, 1);
                        proof {
                            assert(inorder(Some(r)) =~= inorder(left) + inorder(right));
                        }
                        Some(r)
                    } else {
                        let (deep_right, src) = deepest_node(ln, 1);
                        proof {
                            lemma_wf_measures(src);
                            assert(inorder(Some(ln)).len() == inorder(src).len() + 1);
                        }
                        let r = merge_dir(rn, deep_right, src, 0);
                        proof {
                            assert(inorder(Some(r)) =~= inorder(left) + inorder(right));
                        }
                        Some(r)
                    }
                },
                None => {
                    proof {
                        assert(inorder(left) =~= inorder(left) + inorder(right));
                    }
                    Some(ln)
                },
            }
        },
        None => {
            proof {
                assert(inorder(right) =~= inorder(left) + inorder(right));
            }
            right
        },
    }
}

/// Cutting `l · v · r` inside `l`.
proof fn lemma_split_left<V>(l: Seq<V>, v: V, r: Seq<V>, i: int)
    requires
        0 <= i <= l.len(),
    ensures
        (l + seq![v] + r).take(i) == l.take(i),
        (l + seq![v] + r).skip(i) == l.skip(i) + seq![v] + r,
{
    assert((l + seq![v] + r).take(i) =~= l.take(i));
    assert((l + seq![v] + r).skip(i) =~= l.skip(i) + seq![v] + r);
}

/// Cutting `l · v · r` inside `r`.
proof fn lemma_split_right<V>(l: Seq<V>, v: V, r: Seq<V>, i: int)
    requires
        l.len() < i <= l.len() + 1 + r.len(),
    ensures
        (l + seq![v] + r).take(i) == l + seq![v] + r.take(i - l.len() - 1),
        (l + seq![v] + r).skip(i) == r.skip(i - l.len() - 1),
{
    assert((l + seq![v] + r).take(i) =~= l + seq![v] + r.take(i - l.len() - 1));
    assert((l + seq![v] + r).skip(i) =~= r.skip(i - l.len() - 1));
}

/// Partitions a tree into its first `i` values and the rest.
#[verifier::rlimit(50)]
fn split<N: AVLSizeNode>(node: Box<N>, i: usize) -> (r: (Link<N>, Link<N>))
    requires
        avl_wf(Some(node)),
        i <= link_size(Some(node)),
    ensures
        avl_wf(r.0),
        avl_wf(r.1),
        inorder(r.0) == inorder(Some(node)).take(i as int),
        inorder(r.1) == inorder(Some(node)).skip(i as int),
        link_height(r.0) <= link_height(Some(node)),
        link_height(r.1) <= link_height(Some(node)),
    decreases node.rank(),
{
    let ghost n0 = node;
    let ghost l0 = n0.child_spec(0);
    let ghost r0 = n0.child_spec(1);
    let ghost whole = inorder(Some(n0));
    proof {
        lemma_wf_node(n0);
        lemma_inorder_node(n0);
        lemma_fixed(&*n0);
        lemma_wf_measures(Some(n0));
        lemma_wf_measures(l0);
        lemma_wf_measures(r0);
        lemma_empty::<N>();
        lemma_can_fix::<N>(None, r0);
        lemma_can_fix::<N>(None, None);
    }
    if i == node.size() {
        proof {
            assert(whole.take(i as int) =~= whole);
            assert(whole.skip(i as int) =~= Seq::<N::Value>::empty());
        }
        return (Some(node), None);
    }
    let (node, left) = cut(node, 0);
    let (node, right) = cut(node, 1);
    proof {
        lemma_wf_node(node);
        lemma_inorder_node(node);
        lemma_fixed(&*node);
        assert(inorder(Some(node)) =~= seq![n0.val_spec()]);
    }
    if i < size(&left) {
        proof {
            n0.lemma_rank(0);
            lemma_split_left(inorder(l0), n0.val_spec(), inorder(r0), i as int);
        }
        let (sp_left, sp_right) = split(left.unwrap(), i);
        proof {
            lemma_wf_measures(sp_right);
        }
        let nright = match right {
            Some(nright) => Some(merge_dir(nright, node, sp_right, 0)),
            None => {
                let m = merge(sp_right, Some(node));
                proof {
                    assert(inorder(m) =~= inorder(sp_right) + seq![n0.val_spec()] + inorder(r0));
                }
                m
            },
        };
        (sp_left, nright)
    } else if i == size(&left) {
        proof {
            lemma_split_left(inorder(l0), n0.val_spec(), inorder(r0), i as int);
            assert(inorder(l0).take(i as int) =~= inorder(l0));
            assert(inorder(l0).skip(i as int) + seq![n0.val_spec()] + inorder(r0) =~= seq![
                n0.val_spec(),
            ] + inorder(r0));
        }
        let m = merge(Some(node), right);
        (left, m)
    } else {
        proof {
            n0.lemma_rank(1);
            lemma_split_right(inorder(l0), n0.val_spec(), inorder(r0), i as int);
        }
        let (sp_left, sp_right) = split(right.unwrap(), i - size(&left) - 1);
        proof {
            lemma_wf_measures(sp_left);
        }
        let nleft = match left {
            Some(nleft) => Some(merge_dir(nleft, node, sp_left, 1)),
            None => {
                let m = merge(Some(node), sp_left);
                proof {
                    assert(inorder(m) =~= inorder(l0) + seq![n0.val_spec()] + inorder(sp_left));
                }
                m
            },
        };
        (nleft, sp_right)
    }
}

/// The value at position `i`.
fn at<N: AVLSizeNode>(node: &Box<N>, i: usize) -> (r: &N::Value)
    requires
        avl_wf(Some(*node)),
        i < link_size(Some(*node)),
    ensures
        *r == inorder(Some(*node))[i as int],
    decreases node.rank(),
{
    proof {
        lemma_wf_node(*node);
        lemma_inorder_node(*node);
        lemma_fixed(&**node);
        lemma_wf_measures(node.child_spec(0));
        lemma_wf_measures(node.child_spec(1));
    }
    let sz = size(node.child_imut(0));
    if sz == i {
        node.val()
    } else if sz < i {
        proof {
            node.lemma_rank(1);
        }
        at(node.child_imut(1).as_ref().unwrap(), i - sz - 1)
    } else {
        proof {
            node.lemma_rank(0);
        }
        at(node.child_imut(0).as_ref().unwrap(), i)
    }
}

/// Overwrites the value at position `i` and refreshes the caches on the way
/// back.
fn at_set<N: AVLSizeNode>(node: &mut Box<N>, i: usize, val: N::Value)
    requires
        avl_wf(Some(*old(node))),
        i < link_size(Some(*old(node))),
    ensures
        avl_wf(Some(*final(node))),
        inorder(Some(*final(node))) == inorder(Some(*old(node))).update(i as int, val),
        link_height(Some(*final(node))) == link_height(Some(*old(node))),
    decreases old(node).rank(),
{
    let ghost n0 = *node;
    let ghost l0 = n0.child_spec(0);
    let ghost r0 = n0.child_spec(1);
    proof {
        lemma_wf_node(n0);
        lemma_inorder_node(n0);
        lemma_fixed(&*n0);
        lemma_wf_measures(l0);
        lemma_wf_measures(r0);
    }
    let sz = size(node.child_imut(0));
    if sz == i {
        *node.val_mut() = val;
    } else if sz < i {
        proof {
            n0.lemma_rank(1);
        }
        at_set(node.child(1).as_mut().unwrap(), i - sz - 1, val);
    } else {
        proof {
            n0.lemma_rank(0);
        }
        at_set(node.child(0).as_mut().unwrap(), i, val);
    }
    proof {
        lemma_wf_measures(node.child_spec(0));
        lemma_wf_measures(node.child_spec(1));
        lemma_can_fix::<N>(node.child_spec(0), node.child_spec(1));
    }
    node.fix();
    proof {
        lemma_wf_node(*node);
        lemma_inorder_node(*node);
        lemma_fixed(&**node);
        assert(inorder(Some(*node)) =~= inorder(Some(n0)).update(i as int, val));
    }
}

/// Fold consistency: in a well-formed subtree the cached fold is the product of
/// the inorder.
pub proof fn lemma_wf_fold<N: AVLSizeNode + FoldNode>(link: Link<N>) where N::Value: Monoid
    requires
        avl_wf(link),
    ensures
        link_fold(link) == fold_seq(inorder(link)),
    decreases link_rank(link),
{
    match link {
        None => {
            lemma_empty::<N>();
        },
        Some(node) => {
            if node.child_spec(0) is Some {
                node.lemma_rank(0);
            }
            if node.child_spec(1) is Some {
                node.lemma_rank(1);
            }
            lemma_wf_node(node);
            lemma_inorder_node(node);
            lemma_wf_fold(node.child_spec(0));
            lemma_wf_fold(node.child_spec(1));
            node.lemma_fold_fixed();
            let l = inorder(node.child_spec(0));
            let r = inorder(node.child_spec(1));
            lemma_fold_one(node.val_spec());
            lemma_fold_concat(l, seq![node.val_spec()]);
            lemma_fold_concat(l + seq![node.val_spec()], r);
        },
    }
}

/// The number of cells of a subtree.
pub open spec fn cell_count<N: Node>(link: Link<N>) -> nat
    decreases link_rank(link),
{
    match link {
        None => 0,
        Some(node) => {
            proof {
                if node.child_spec(0) is Some {
                    node.lemma_rank(0);
                }
                if node.child_spec(1) is Some {
                    node.lemma_rank(1);
                }
            }
            cell_count(node.child_spec(0)) + cell_count(node.child_spec(1)) + 1
        },
    }
}

/// The number of cells on the longest chain from the root of a subtree down.
pub open spec fn chain_height<N: Node>(link: Link<N>) -> nat
    decreases link_rank(link),
{
    match link {
        None => 0,
        Some(node) => {
            proof {
                if node.child_spec(0) is Some {
                    node.lemma_rank(0);
                }
                if node.child_spec(1) is Some {
                    node.lemma_rank(1);
                }
            }
            let l = chain_height(node.child_spec(0));
            let r = chain_height(node.child_spec(1));
            if l >= r { l + 1 } else { r + 1 }
        },
    }
}

/// At every cell of the subtree the heights of the two children differ by at
/// most one, the cached size is the number of cells below and including it, and
/// the cached height is the height.
pub open spec fn balanced<N: AVLSizeNode>(link: Link<N>) -> bool
    decreases link_rank(link),
{
    match link {
        None => true,
        Some(node) => {
            proof {
                if node.child_spec(0) is Some {
                    node.lemma_rank(0);
                }
                if node.child_spec(1) is Some {
                    node.lemma_rank(1);
                }
            }
            &&& balanced(node.child_spec(0))
            &&& balanced(node.child_spec(1))
            &&& -1 <= chain_height(node.child_spec(0)) - chain_height(node.child_spec(1)) <= 1
            &&& node.size_spec() == cell_count(link)
            &&& node.height_spec() == chain_height(link)
        },
    }
}

/// AVL balance and size accuracy: a well-formed subtree is balanced at every
/// cell, and its caches hold the true size and height.
pub proof fn lemma_wf_balanced<N: AVLSizeNode>(link: Link<N>)
    requires
        avl_wf(link),
    ensures
        balanced(link),
        link_size(link) == cell_count(link),
        link_height(link) == chain_height(link),
        cell_count(link) == inorder(link).len(),
    decreases link_rank(link),
{
    match link {
        None => {
            lemma_empty::<N>();
        },
        Some(node) => {
            if node.child_spec(0) is Some {
                node.lemma_rank(0);
            }
            if node.child_spec(1) is Some {
                node.lemma_rank(1);
            }
            lemma_wf_node(node);
            lemma_inorder_node(node);
            lemma_fixed(&*node);
            lemma_wf_balanced(node.child_spec(0));
            lemma_wf_balanced(node.child_spec(1));
        },
    }
}

/// A sequence held in an AVL tree.
pub struct AVLTreeArray<N: AVLArrayNode> {
    root: Link<N>,
}

impl<N: AVLArrayNode> View for AVLTreeArray<N> {
    type V = Seq<N::Value>;

    /// The sequence that the tree represents: its inorder.
    closed spec fn view(&self) -> Seq<N::Value> {
        inorder(self.root)
    }
}

impl<N: AVLArrayNode> AVLTreeArray<N> {
    /// The tree behind the sequence.
    pub closed spec fn root_link(&self) -> Link<N> {
        self.root
    }

    /// The invariant of the container: every cell has its caches recomputed and
    /// is balanced.
    pub closed spec fn wf(&self) -> bool {
        avl_wf(self.root)
    }

    /// What the invariant gives: the sequence is the inorder of the tree, the
    /// tree is balanced at every cell, and its caches are accurate.
    pub proof fn lemma_wf(&self)
        requires
            self.wf(),
        ensures
            self@ == inorder(self.root_link()),
            self@.len() <= usize::MAX,
            avl_wf(self.root_link()),
            balanced(self.root_link()),
    {
        lemma_wf_balanced(self.root);
        lemma_wf_measures(self.root);
    }

    /// The empty sequence.
    pub fn none() -> (r: Self)
        ensures
            r.wf(),
            r@ == Seq::<N::Value>::empty(),
    {
        proof {
            lemma_empty::<N>();
        }
        Self { root: None }
    }

    /// The sequence of one value, held in the cell `n`.
    pub fn new(n: N) -> (r: Self)
        requires
            n.child_spec(0) is None,
            n.child_spec(1) is None,
        ensures
            r.wf(),
            r@ == seq![n.val_spec()],
    {
        let mut node = Box::new(n);
        proof {
            lemma_empty::<N>();
            lemma_can_fix::<N>(None, None);
        }
        node.fix();
        proof {
            lemma_wf_node(node);
            lemma_inorder_node(node);
            lemma_fixed(&*node);
            assert(inorder(Some(node)) =~= seq![n.val_spec()]);
        }
        Self { root: Some(node) }
    }

    /// The number of values.
    pub fn len(&self) -> (r: usize)
        requires
            self.wf(),
        ensures
            r == self@.len(),
    {
        proof {
            lemma_wf_measures(self.root);
        }
        size(&self.root)
    }

    /// The height of the tree: the number of cells on the longest chain from the
    /// root down, which balance keeps logarithmic in the number of values.
    pub fn height(&self) -> (r: isize)
        requires
            self.wf(),
        ensures
            r == chain_height(self.root_link()),
            3 * r <= self@.len() + 5,
    {
        proof {
            lemma_wf_measures(self.root);
            lemma_wf_balanced(self.root);
        }
        height(&self.root)
    }

    /// Concatenation: `self` followed by `right`.
    pub fn merge(self, right: Self) -> (r: Self)
        requires
            self.wf(),
            right.wf(),
            self@.len() + right@.len() <= usize::MAX,
        ensures
            r.wf(),
            r@ == self@ + right@,
    {
        proof {
            lemma_wf_measures(self.root);
            lemma_wf_measures(right.root);
        }
        Self { root: merge(self.root, right.root) }
    }

    /// The first `i` values and the rest. An empty sequence splits into two empty
    /// ones whatever `i` is.
    pub fn split(self, i: usize) -> (r: (Self, Self))
        requires
            self.wf(),
            i <= self@.len() || self@.len() == 0,
        ensures
            r.0.wf(),
            r.1.wf(),
            r.0@ == self@.take(vstd::math::min(i as int, self@.len() as int)),
            r.1@ == self@.skip(vstd::math::min(i as int, self@.len() as int)),
    {
        proof {
            lemma_wf_measures(self.root);
            lemma_empty::<N>();
        }
        match self.root {
            Some(rn) => {
                let (l, r) = split(rn, i);
                (Self { root: l }, Self { root: r })
            },
            None => {
                proof {
                    assert(self@.take(0) =~= Seq::<N::Value>::empty());
                    assert(self@.skip(0) =~= Seq::<N::Value>::empty());
                }
                (Self { root: None }, Self { root: None })
            },
        }
    }

    /// The value at position `i`.
    pub fn at(&self, i: usize) -> (r: &N::Value)
        requires
            self.wf(),
            i < self@.len(),
        ensures
            *r == self@[i as int],
    {
        proof {
            lemma_wf_measures(self.root);
            lemma_empty::<N>();
        }
        at(self.root.as_ref().unwrap(), i)
    }

    /// Replaces the value at position `i`.
    pub fn at_set(&mut self, i: usize, val: N::Value)
        requires
            old(self).wf(),
            i < old(self)@.len(),
        ensures
            final(self).wf(),
            final(self)@ == old(self)@.update(i as int, val),
    {
        proof {
            lemma_wf_measures(self.root);
            lemma_empty::<N>();
        }
        at_set(self.root.as_mut().unwrap(), i, val);
    }
}

impl<N: AVLArrayNode + FoldNode> AVLTreeArray<N> where N::Value: Monoid {
    /// The product of the whole sequence; the identity when it is empty.
    pub fn fold(&self) -> (r: N::Value)
        requires
            self.wf(),
        ensures
            r == fold_seq(self@),
    {
        proof {
            lemma_wf_fold(self.root);
        }
        match &self.root {
            Some(node) => duplicate(node.fold()),
            None => <N::Value as Unital>::identity(),
        }
    }
}

} // verus!
