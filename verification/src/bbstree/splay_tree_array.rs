//! A sequence kept in a splay tree whose inorder is the sequence. Every
//! positional operation first brings the wanted position to the root with a
//! top-down splay.
use vstd::prelude::*;

verus! {

/// The value domain of a splay sequence: an associative operation with a
/// two-sided identity.
pub trait Monoid: Sized {
    spec fn ope_spec(self, r: Self) -> Self;

    spec fn ide_spec() -> Self;

    fn ope(&self, r: &Self) -> (x: Self)
        ensures
            x == self.ope_spec(*r),
    ;

    fn ide() -> (x: Self)
        ensures
            x == Self::ide_spec(),
    ;

    proof fn lemma_associative(a: Self, b: Self, c: Self)
        ensures
            a.ope_spec(b).ope_spec(c) == a.ope_spec(b.ope_spec(c)),
    ;

    proof fn lemma_identity(a: Self)
        ensures
            Self::ide_spec().ope_spec(a) == a,
            a.ope_spec(Self::ide_spec()) == a,
    ;
}

/// The product of a sequence from left to right; the identity for the empty
/// sequence.
pub open spec fn product<T: Monoid>(s: Seq<T>) -> T
    decreases s.len(),
{
    if s.len() == 0 {
        T::ide_spec()
    } else {
        product(s.drop_last()).ope_spec(s.last())
    }
}

/// The product of one value is that value.
pub proof fn lemma_product_one<T: Monoid>(v: T)
    ensures
        product(seq![v]) == v,
{
    assert(seq![v].drop_last() =~= Seq::<T>::empty());
    reveal_with_fuel(product, 2);
    T::lemma_identity(v);
}

/// The product of a concatenation is the product of the two products.
pub proof fn lemma_product_concat<T: Monoid>(a: Seq<T>, b: Seq<T>)
    ensures
        product(a + b) == product(a).ope_spec(product(b)),
    decreases b.len(),
{
    if b.len() == 0 {
        assert(a + b =~= a);
        T::lemma_identity(product(a));
    } else {
        assert((a + b).drop_last() =~= a + b.drop_last());
        lemma_product_concat(a, b.drop_last());
        T::lemma_associative(product(a), product(b.drop_last()), b.last());
    }
}

/// Round trip, fold-wise: the product of the two parts of a split is the product
/// of the sequence that was split.
pub proof fn lemma_split_then_merge_product<T: Monoid>(s: Seq<T>, i: int)
    requires
        0 <= i <= s.len(),
    ensures
        s.take(i) + s.skip(i) == s,
        product(s.take(i)).ope_spec(product(s.skip(i))) == product(s),
{
    assert(s.take(i) + s.skip(i) =~= s);
    lemma_product_concat(s.take(i), s.skip(i));
}

type Link<T> = Option<Box<Node<T>>>;

struct Node<T: Monoid> {
    elem: T,
    size: usize,
    left: Link<T>,
    right: Link<T>,
    fold: T,
}

spec fn cached_size<T: Monoid>(link: Link<T>) -> int {
    match link {
        Some(node) => node.size as int,
        None => 0,
    }
}

spec fn cached_fold<T: Monoid>(link: Link<T>) -> T {
    match link {
        Some(node) => node.fold,
        None => T::ide_spec(),
    }
}

/// The caches of one cell agree with those of its children.
spec fn node_fixed<T: Monoid>(node: Node<T>) -> bool {
    &&& node.size == cached_size(node.left) + cached_size(node.right) + 1
    &&& node.fold == cached_fold(node.left).ope_spec(node.elem).ope_spec(cached_fold(node.right))
}

/// The caches of every cell of the subtree agree with those of its children.
#[verifier::opaque]
spec fn tree_wf<T: Monoid>(link: Link<T>) -> bool
    decreases link,
{
    match link {
        None => true,
        Some(node) => node_fixed(*node) && tree_wf(node.left) && tree_wf(node.right),
    }
}

/// The values of a subtree from left to right.
#[verifier::opaque]
spec fn seq_of<T: Monoid>(link: Link<T>) -> Seq<T>
    decreases link,
{
    match link {
        None => Seq::empty(),
        Some(node) => seq_of(node.left) + seq![node.elem] + seq_of(node.right),
    }
}

proof fn lemma_node<T: Monoid>(node: Box<Node<T>>)
    ensures
        tree_wf(Some(node)) == (node_fixed(*node) && tree_wf(node.left) && tree_wf(node.right)),
        seq_of(Some(node)) == seq_of(node.left) + seq![node.elem] + seq_of(node.right),
{
    reveal(tree_wf);
    reveal(seq_of);
}

proof fn lemma_none<T: Monoid>()
    ensures
        tree_wf::<T>(None),
        seq_of::<T>(None) == Seq::<T>::empty(),
{
    reveal(tree_wf);
    reveal(seq_of);
}

/// In a well-formed subtree the cached size is the number of values and the
/// cached fold is their product.
proof fn lemma_tree<T: Monoid>(link: Link<T>)
    requires
        tree_wf(link),
    ensures
        cached_size(link) == seq_of(link).len(),
        cached_fold(link) == product(seq_of(link)),
    decreases link,
{
    match link {
        None => {
            lemma_none::<T>();
        },
        Some(node) => {
            lemma_node(node);
            lemma_tree(node.left);
            lemma_tree(node.right);
            let l = seq_of(node.left);
            let r = seq_of(node.right);
            lemma_product_one(node.elem);
            lemma_product_concat(l, seq![node.elem]);
            lemma_product_concat(l + seq![node.elem], r);
        },
    }
}

impl<T: Monoid> Node<T> {
    fn new(elem: T) -> (node: Node<T>)
        ensures
            node.elem == elem,
            node.left is None,
            node.right is None,
            node_fixed(node),
    {
        let mut node = Node { elem: elem, size: 1, left: None, right: None, fold: T::ide() };
        fix(&mut node);
        node
    }
}

fn size<T: Monoid>(link: &Link<T>) -> (r: usize)
    ensures
        r == cached_size(*link),
{
    match link {
        Some(boxed_node) => boxed_node.size,
        None => 0,
    }
}

/// Recomputes the cached size and fold of a cell from its children and its
/// value.
fn fix<T: Monoid>(node: &mut Node<T>)
    requires
        cached_size(old(node).left) + cached_size(old(node).right) + 1 <= usize::MAX,
    ensures
        final(node).elem == old(node).elem,
        final(node).left == old(node).left,
        final(node).right == old(node).right,
        node_fixed(*final(node)),
{
    let sz = size(&node.left) + size(&node.right) + 1;
    node.size = sz;
    let lf = match &node.left {
        Some(left) => left.fold.ope(&node.elem),
        None => T::ide().ope(&node.elem),
    };
    node.fold = match &node.right {
        Some(right) => lf.ope(&right.fold),
        None => lf.ope(&T::ide()),
    };
}

fn cut_left<T: Monoid>(node: &mut Node<T>) -> (nn: Link<T>)
    requires
        cached_size(old(node).right) < usize::MAX,
    ensures
        nn == old(node).left,
        final(node).elem == old(node).elem,
        final(node).left is None,
        final(node).right == old(node).right,
        node_fixed(*final(node)),
{
    let nn = node.left.take();
    fix(node);
    nn
}

fn cut_right<T: Monoid>(node: &mut Node<T>) -> (nn: Link<T>)
    requires
        cached_size(old(node).left) < usize::MAX,
    ensures
        nn == old(node).right,
        final(node).elem == old(node).elem,
        final(node).right is None,
        final(node).left == old(node).left,
        node_fixed(*final(node)),
{
    let nn = node.right.take();
    fix(node);
    nn
}

fn set_left<T: Monoid>(node: &mut Node<T>, left: Link<T>)
    requires
        cached_size(left) + cached_size(old(node).right) + 1 <= usize::MAX,
    ensures
        final(node).elem == old(node).elem,
        final(node).left == left,
        final(node).right == old(node).right,
        node_fixed(*final(node)),
{
    node.left = left;
    fix(node);
}

fn set_right<T: Monoid>(node: &mut Node<T>, right: Link<T>)
    requires
        cached_size(old(node).left) + cached_size(right) + 1 <= usize::MAX,
    ensures
        final(node).elem == old(node).elem,
        final(node).right == right,
        final(node).left == old(node).left,
        node_fixed(*final(node)),
{
    node.right = right;
    fix(node);
}

/// Cells parked on the left of the splay path: each is well-formed and has given
/// up its right child.
spec fn left_spine_wf<T: Monoid>(sp: Seq<Box<Node<T>>>) -> bool {
    forall|i: int| 0 <= i < sp.len() ==> tree_wf(Some(#[trigger] sp[i])) && sp[i].right is None
}

/// Cells parked on the right of the splay path: each is well-formed and has
/// given up its left child.
spec fn right_spine_wf<T: Monoid>(sp: Seq<Box<Node<T>>>) -> bool {
    forall|i: int| 0 <= i < sp.len() ==> tree_wf(Some(#[trigger] sp[i])) && sp[i].left is None
}

/// The values parked on the left, in sequence order: the cell parked first comes
/// first.
spec fn left_spine_seq<T: Monoid>(sp: Seq<Box<Node<T>>>) -> Seq<T>
    decreases sp.len(),
{
    if sp.len() == 0 {
        Seq::empty()
    } else {
        left_spine_seq(sp.drop_last()) + seq_of(Some(sp.last()))
    }
}

/// The values parked on the right, in sequence order: the cell parked first
/// comes last.
spec fn right_spine_seq<T: Monoid>(sp: Seq<Box<Node<T>>>) -> Seq<T>
    decreases sp.len(),
{
    if sp.len() == 0 {
        Seq::empty()
    } else {
        seq_of(Some(sp.last())) + right_spine_seq(sp.drop_last())
    }
}

proof fn lemma_left_spine_push<T: Monoid>(sp: Seq<Box<Node<T>>>, p: Box<Node<T>>)
    requires
        left_spine_wf(sp),
        tree_wf(Some(p)),
        p.right is None,
    ensures
        left_spine_wf(sp.push(p)),
        left_spine_seq(sp.push(p)) == left_spine_seq(sp) + seq_of(Some(p)),
{
    assert(sp.push(p).drop_last() =~= sp);
}

proof fn lemma_right_spine_push<T: Monoid>(sp: Seq<Box<Node<T>>>, p: Box<Node<T>>)
    requires
        right_spine_wf(sp),
        tree_wf(Some(p)),
        p.left is None,
    ensures
        right_spine_wf(sp.push(p)),
        right_spine_seq(sp.push(p)) == seq_of(Some(p)) + right_spine_seq(sp),
{
    assert(sp.push(p).drop_last() =~= sp);
}

/// Hangs the cells parked on the left one under another along their right
/// edges, the innermost over `tail`, and recomputes the caches from the bottom
/// up.
fn fix_sub_left<T: Monoid>(spine: Vec<Box<Node<T>>>, tail: Link<T>) -> (r: Link<T>)
    requires
        left_spine_wf(spine@),
        tree_wf(tail),
        left_spine_seq(spine@).len() + seq_of(tail).len() <= usize::MAX,
    ensures
        tree_wf(r),
        seq_of(r) == left_spine_seq(spine@) + seq_of(tail),
{
    let ghost all = left_spine_seq(spine@) + seq_of(tail);
    let mut spine = spine;
    let mut sub = tail;
    while spine.len() > 0
        invariant
            left_spine_wf(spine@),
            tree_wf(sub),
            left_spine_seq(spine@) + seq_of(sub) == all,
            all.len() <= usize::MAX,
        decreases spine.len(),
    {
        let ghost before = spine@;
        let mut p = spine.pop().unwrap();
        proof {
            assert(spine@ =~= before.drop_last());
            assert(p == before[before.len() - 1]);
            lemma_node(p);
            lemma_tree(Some(p));
            lemma_tree(p.left);
            lemma_tree(sub);
        }
        let ghost parked = p;
        set_right(&mut *p, sub);
        proof {
            lemma_node(p);
            assert(seq_of(Some(p)) =~= seq_of(Some(parked)) + seq_of(sub));
            assert(left_spine_seq(spine@) + seq_of(Some(p)) =~= all);
        }
        sub = Some(p);
    }
    proof {
        assert(left_spine_seq(spine@) + seq_of(sub) =~= seq_of(sub));
    }
    sub
}

/// Hangs the cells parked on the right one under another along their left
/// edges, the innermost over `tail`, and recomputes the caches from the bottom
/// up.
fn fix_sub_right<T: Monoid>(spine: Vec<Box<Node<T>>>, tail: Link<T>) -> (r: Link<T>)
    requires
        right_spine_wf(spine@),
        tree_wf(tail),
        right_spine_seq(spine@).len() + seq_of(tail).len() <= usize::MAX,
    ensures
        tree_wf(r),
        seq_of(r) == seq_of(tail) + right_spine_seq(spine@),
{
    let ghost all = seq_of(tail) + right_spine_seq(spine@);
    let mut spine = spine;
    let mut sub = tail;
    while spine.len() > 0
        invariant
            right_spine_wf(spine@),
            tree_wf(sub),
            seq_of(sub) + right_spine_seq(spine@) == all,
            all.len() <= usize::MAX,
        decreases spine.len(),
    {
        let ghost before = spine@;
        let mut p = spine.pop().unwrap();
        proof {
            assert(spine@ =~= before.drop_last());
            assert(p == before[before.len() - 1]);
            lemma_node(p);
            lemma_tree(Some(p));
            lemma_tree(p.right);
            lemma_tree(sub);
        }
        let ghost parked = p;
        set_left(&mut *p, sub);
        proof {
            lemma_node(p);
            assert(seq_of(Some(p)) =~= seq_of(sub) + seq_of(Some(parked)));
            assert(seq_of(Some(p)) + right_spine_seq(spine@) =~= all);
        }
        sub = Some(p);
    }
    proof {
        assert(seq_of(sub) + right_spine_seq(spine@) =~= seq_of(sub));
    }
    sub
}

/// Top-down splay by index: restructures the tree so that the value at position
/// `n` is at the root. On the way down the cells passed on the left and on the
/// right are parked on two spines, two steps in one direction being rotated
/// first; at the end the spines become the root's children.
#[verifier::rlimit(60)]
fn splay<T: Monoid>(node: &mut Box<Node<T>>, n: usize)
    requires
        tree_wf(Some(*old(node))),
        n < cached_size(Some(*old(node))),
    ensures
        tree_wf(Some(*final(node))),
        seq_of(Some(*final(node))) == seq_of(Some(*old(node))),
        cached_size(final(node).left) == n,
{
    let ghost whole = seq_of(Some(*node));
    let mut sz = n;
    let mut sub_left: Vec<Box<Node<T>>> = Vec::new();
    let mut sub_right: Vec<Box<Node<T>>> = Vec::new();
    proof {
        lemma_tree(Some(*node));
        assert(Seq::<T>::empty() + seq_of(Some(*node)) + Seq::<T>::empty() =~= whole);
    }
    loop
        invariant
            tree_wf(Some(*node)),
            left_spine_wf(sub_left@),
            right_spine_wf(sub_right@),
            left_spine_seq(sub_left@) + seq_of(Some(*node)) + right_spine_seq(sub_right@) == whole,
            n == left_spine_seq(sub_left@).len() + sz,
            sz < cached_size(Some(*node)),
            whole.len() <= usize::MAX,
        ensures
            cached_size(node.left) == sz,
        decreases cached_size(Some(*node)),
    {
        let ghost top = *node;
        let ghost lacc = left_spine_seq(sub_left@);
        let ghost racc = right_spine_seq(sub_right@);
        proof {
            lemma_none::<T>();
            lemma_node(top);
            lemma_tree(Some(top));
            lemma_tree(top.left);
            lemma_tree(top.right);
        }
        let ls = size(&node.left);
        if ls == sz {
            break ;
        } else if ls > sz {
            let mut left = match cut_left(&mut **node) {
                Some(ll) => ll,
                None => { break ; },
            };
            let ghost l0 = left;
            proof {
                lemma_node(l0);
                lemma_tree(l0.left);
                lemma_tree(l0.right);
                lemma_node(*node);
            }
            if size(&left.left) > sz {
                let lr = cut_right(&mut *left);
                set_left(&mut **node, lr);
                proof {
                    lemma_node(*node);
                    lemma_tree(Some(*node));
                }
                core::mem::swap(node, &mut left);
                let next = cut_left(&mut **node);
                set_right(&mut **node, Some(left));
                proof {
                    lemma_node(*node);
                    assert(seq_of(l0.left) + seq_of(Some(*node)) =~= seq_of(Some(top)));
                }
                match next {
                    Some(l) => {
                        left = l;
                    },
                    None => { break ; },
                }
            } else {
                proof {
                    assert(seq_of(Some(left)) + seq_of(Some(*node)) =~= seq_of(Some(top)));
                }
            }
            core::mem::swap(node, &mut left);
            proof {
                lemma_right_spine_push(sub_right@, left);
                lemma_tree(Some(*node));
                assert(lacc + seq_of(Some(*node)) + (seq_of(Some(left)) + racc) =~= lacc + (seq_of(
                    Some(*node),
                ) + seq_of(Some(left))) + racc);
            }
            sub_right.push(left);
        } else {
            sz = sz - ls - 1;
            let mut right = match cut_right(&mut **node) {
                Some(rr) => rr,
                None => { break ; },
            };
            let ghost r0 = right;
            proof {
                lemma_node(r0);
                lemma_tree(r0.left);
                lemma_tree(r0.right);
                lemma_node(*node);
            }
            if size(&right.left) < sz {
                sz = sz - size(&right.left) - 1;
                let rl = cut_left(&mut *right);
                set_right(&mut **node, rl);
                proof {
                    lemma_node(*node);
                    lemma_tree(Some(*node));
                }
                core::mem::swap(node, &mut right);
                let next = cut_right(&mut **node);
                set_left(&mut **node, Some(right));
                proof {
                    lemma_node(*node);
                    assert(seq_of(Some(*node)) + seq_of(r0.right) =~= seq_of(Some(top)));
                }
                match next {
                    Some(r) => {
                        right = r;
                    },
                    None => { break ; },
                }
            } else {
                proof {
                    assert(seq_of(Some(*node)) + seq_of(Some(right)) =~= seq_of(Some(top)));
                }
            }
            core::mem::swap(node, &mut right);
            proof {
                lemma_left_spine_push(sub_left@, right);
                lemma_tree(Some(*node));
                lemma_tree(Some(right));
                assert((lacc + seq_of(Some(right))) + seq_of(Some(*node)) + racc =~= lacc + (seq_of(
                    Some(right),
                ) + seq_of(Some(*node))) + racc);
            }
            sub_left.push(right);
        }
    }
    let ghost mid = *node;
    let ghost lacc = left_spine_seq(sub_left@);
    let ghost racc = right_spine_seq(sub_right@);
    proof {
        lemma_node(mid);
        lemma_tree(Some(mid));
        lemma_tree(mid.left);
        lemma_tree(mid.right);
        assert(whole.len() == lacc.len() + seq_of(Some(mid)).len() + racc.len());
    }
    let l = cut_left(&mut **node);
    let r = cut_right(&mut **node);
    let sub_left = fix_sub_left(sub_left, l);
    let sub_right = fix_sub_right(sub_right, r);
    proof {
        lemma_tree(sub_left);
        lemma_tree(sub_right);
    }
    set_left(&mut **node, sub_left);
    set_right(&mut **node, sub_right);
    proof {
        lemma_node(*node);
        assert(seq_of(Some(*node)) =~= whole);
    }
}

/// Partitions a tree into its first `i` values and the rest.
fn split<T: Monoid>(node: Link<T>, i: usize) -> (r: (Link<T>, Link<T>))
    requires
        tree_wf(node),
        i <= cached_size(node),
    ensures
        tree_wf(r.0),
        tree_wf(r.1),
        seq_of(r.0) == seq_of(node).take(i as int),
        seq_of(r.1) == seq_of(node).skip(i as int),
        0 < i < cached_size(node) ==> root_pos(r.0) == i - 1,
{
    proof {
        lemma_none::<T>();
        lemma_tree(node);
    }
    match node {
        None => {
            proof {
                assert(seq_of(node).take(0) =~= Seq::<T>::empty());
                assert(seq_of(node).skip(0) =~= Seq::<T>::empty());
            }
            (None, None)
        },
        Some(mut r) => {
            if i == 0 {
                proof {
                    assert(seq_of(node).take(0) =~= Seq::<T>::empty());
                    assert(seq_of(node).skip(0) =~= seq_of(node));
                }
                (None, Some(r))
            } else if i == r.size {
                proof {
                    assert(seq_of(node).take(i as int) =~= seq_of(node));
                    assert(seq_of(node).skip(i as int) =~= Seq::<T>::empty());
                }
                (Some(r), None)
            } else {
                splay(&mut r, i - 1);
                proof {
                    lemma_node(r);
                    lemma_tree(r.left);
                    lemma_tree(r.right);
                }
                let right = cut_right(&mut *r);
                proof {
                    lemma_node(r);
                    assert(seq_of(Some(r)) =~= seq_of(node).take(i as int));
                    assert(seq_of(right) =~= seq_of(node).skip(i as int));
                }
                (Some(r), right)
            }
        },
    }
}

/// Concatenates two trees: the last value of `left` is splayed to the root and
/// `right` becomes its right child.
fn merge<T: Monoid>(left: Link<T>, right: Link<T>) -> (r: Link<T>)
    requires
        tree_wf(left),
        tree_wf(right),
        cached_size(left) + cached_size(right) <= usize::MAX,
    ensures
        tree_wf(r),
        seq_of(r) == seq_of(left) + seq_of(right),
        left is Some ==> root_pos(r) == cached_size(left) - 1,
{
    proof {
        lemma_none::<T>();
        lemma_tree(left);
        lemma_tree(right);
        if left is Some {
            lemma_node(left.unwrap());
        }
    }
    match left {
        Some(mut l) => {
            let sz = l.size;
            splay(&mut l, sz - 1);
            proof {
                lemma_node(l);
                lemma_tree(Some(l));
                lemma_tree(l.left);
                lemma_tree(l.right);
                if l.right is Some {
                    lemma_node(l.right.unwrap());
                }
            }
            set_right(&mut *l, right);
            proof {
                lemma_node(l);
                assert(seq_of(Some(l)) =~= seq_of(left) + seq_of(right));
            }
            Some(l)
        },
        None => {
            proof {
                assert(seq_of(right) =~= seq_of(left) + seq_of(right));
            }
            right
        },
    }
}

/// Every cell below the root is well-formed and the root caches the right size;
/// its cached product may be out of date.
spec fn wf_below<T: Monoid>(link: Link<T>) -> bool {
    match link {
        None => true,
        Some(node) => {
            &&& tree_wf(node.left)
            &&& tree_wf(node.right)
            &&& node.size == cached_size(node.left) + cached_size(node.right) + 1
        },
    }
}

/// The position of the value at the root of a tree; 0 when the tree is empty.
spec fn root_pos<T: Monoid>(link: Link<T>) -> int {
    match link {
        Some(node) => cached_size(node.left),
        None => 0,
    }
}

/// What changing the value of a root does to the sequence, for every value it
/// may be changed to.
proof fn lemma_root_elem<T: Monoid>(node: Box<Node<T>>)
    requires
        tree_wf(Some(node)),
    ensures
        forall|other: Box<Node<T>>|
            other.left == node.left && other.right == node.right ==> #[trigger] seq_of(Some(other))
                == seq_of(Some(node)).update(cached_size(node.left), other.elem),
        forall|other: Box<Node<T>>|
            other.left == node.left && other.right == node.right && other.size == node.size
                ==> #[trigger] wf_below(Some(other)),
        forall|other: Box<Node<T>>|
            other.left == node.left ==> #[trigger] root_pos(Some(other)) == cached_size(node.left),
{
    lemma_node(node);
    lemma_tree(node.left);
    assert forall|other: Box<Node<T>>|
        other.left == node.left && other.right == node.right implies #[trigger] seq_of(Some(other))
        == seq_of(Some(node)).update(cached_size(node.left), other.elem) by {
        lemma_node(other);
        assert(seq_of(Some(other)) =~= seq_of(Some(node)).update(
            cached_size(node.left),
            other.elem,
        ));
    }
}

/// A sequence held in a splay tree.
pub struct SplayTree<T: Monoid> {
    root: Link<T>,
}

impl<T: Monoid> View for SplayTree<T> {
    type V = Seq<T>;

    /// The sequence that the tree represents: its inorder.
    closed spec fn view(&self) -> Seq<T> {
        seq_of(self.root)
    }
}

impl<T: Monoid> SplayTree<T> {
    /// The invariant of the container: every cell caches the size and the product
    /// of its subtree.
    pub closed spec fn wf(&self) -> bool {
        tree_wf(self.root)
    }

    /// The invariant but for the cached product of the root: what is left of the
    /// invariant after a write through `at_mut`, and what `refresh` starts from.
    pub closed spec fn wf_below_root(&self) -> bool {
        wf_below(self.root)
    }

    /// The position of the value that is at the root of the tree; 0 when the tree
    /// is empty.
    pub closed spec fn root_position(&self) -> int {
        root_pos(self.root)
    }

    /// The cached product of the whole tree; the identity when it is empty.
    pub closed spec fn cached(&self) -> T {
        cached_fold(self.root)
    }

    /// Size accuracy and fold consistency: the length fits a `usize` and the cached
    /// product is the product of the sequence.
    pub proof fn lemma_wf(&self)
        requires
            self.wf(),
        ensures
            self@.len() <= usize::MAX,
            self.cached() == product(self@),
    {
        lemma_tree(self.root);
    }

    /// The empty sequence.
    pub fn new() -> (r: Self)
        ensures
            r.wf(),
            r@ == Seq::<T>::empty(),
    {
        proof {
            lemma_none::<T>();
        }
        SplayTree { root: None }
    }

    /// The number of values.
    pub fn len(&self) -> (r: usize)
        requires
            self.wf(),
        ensures
            r == self@.len(),
    {
        proof {
            lemma_tree(self.root);
        }
        size(&self.root)
    }

    /// The value at position `i`, which becomes the root.
    pub fn at(&mut self, i: usize) -> (r: &T)
        requires
            old(self).wf(),
            i < old(self)@.len(),
        ensures
            final(self).wf(),
            final(self)@ == old(self)@,
            final(self).root_position() == i,
            *r == old(self)@[i as int],
    {
        proof {
            lemma_none::<T>();
            lemma_tree(self.root);
        }
        splay(self.root.as_mut().unwrap(), i);
        proof {
            lemma_node(self.root.unwrap());
            lemma_tree(self.root.unwrap().left);
        }
        &self.root.as_ref().unwrap().elem
    }

    /// The value at position `i`, which becomes the root, for writing. The cached
    /// product of the root is not refreshed after a write: the container is
    /// well-formed again after `refresh`, or at once if the value is left as it
    /// was.
    pub fn at_mut(&mut self, i: usize) -> (r: &mut T)
        requires
            old(self).wf(),
            i < old(self)@.len(),
        ensures
            *r == old(self)@[i as int],
            final(self)@ == old(self)@.update(i as int, *final(r)),
            final(self).root_position() == i,
            final(self).wf_below_root(),
            *final(r) == old(self)@[i as int] ==> final(self).wf(),
    {
        proof {
            lemma_none::<T>();
            lemma_tree(self.root);
        }
        splay(self.root.as_mut().unwrap(), i);
        proof {
            lemma_node(self.root.unwrap());
            lemma_tree(self.root.unwrap().left);
            lemma_root_elem(self.root.unwrap());
        }
        &mut self.root.as_mut().unwrap().elem
    }

    /// Recomputes the cached product of the root, after a write through `at_mut`.
    pub fn refresh(&mut self)
        requires
            old(self).wf_below_root(),
        ensures
            final(self).wf(),
            final(self)@ == old(self)@,
    {
        let root = self.root.take();
        match root {
            Some(mut node) => {
                let ghost before = node;
                fix(&mut *node);
                proof {
                    lemma_node(before);
                    lemma_node(node);
                }
                self.root = Some(node);
            },
            None => {
                proof {
                    lemma_none::<T>();
                }
            },
        }
    }

    /// Combines the value at position `i` with `elem`: the value becomes
    /// `old · elem`.
    pub fn set(&mut self, i: usize, elem: T)
        requires
            old(self).wf(),
            i < old(self)@.len(),
        ensures
            final(self).wf(),
            final(self)@ == old(self)@.update(i as int, old(self)@[i as int].ope_spec(elem)),
            final(self).root_position() == i,
    {
        self.combine_at(i, elem);
    }

    /// Combines the value at position `i` with `elem`: the value becomes
    /// `old · elem`.
    pub fn combine_at(&mut self, i: usize, elem: T)
        requires
            old(self).wf(),
            i < old(self)@.len(),
        ensures
            final(self).wf(),
            final(self)@ == old(self)@.update(i as int, old(self)@[i as int].ope_spec(elem)),
            final(self).root_position() == i,
    {
        proof {
            lemma_none::<T>();
            lemma_tree(self.root);
        }
        let mut root = self.root.take().unwrap();
        splay(&mut root, i);
        proof {
            lemma_node(root);
            lemma_tree(root.left);
            lemma_tree(root.right);
            lemma_root_elem(root);
        }
        root.elem = root.elem.ope(&elem);
        fix(&mut *root);
        proof {
            lemma_node(root);
        }
        self.root = Some(root);
    }

    /// Replaces the value at position `i` by `elem`.
    pub fn replace_at(&mut self, i: usize, elem: T)
        requires
            old(self).wf(),
            i < old(self)@.len(),
        ensures
            final(self).wf(),
            final(self)@ == old(self)@.update(i as int, elem),
            final(self).root_position() == i,
    {
        proof {
            lemma_none::<T>();
            lemma_tree(self.root);
        }
        let mut root = self.root.take().unwrap();
        splay(&mut root, i);
        proof {
            lemma_node(root);
            lemma_tree(root.left);
            lemma_tree(root.right);
            lemma_root_elem(root);
        }
        root.elem = elem;
        fix(&mut *root);
        proof {
            lemma_node(root);
        }
        self.root = Some(root);
    }

    /// The first `i` values and the rest.
    pub fn split(self, i: usize) -> (r: (Self, Self))
        requires
            self.wf(),
            i <= self@.len(),
        ensures
            r.0.wf(),
            r.1.wf(),
            r.0@ == self@.take(i as int),
            r.1@ == self@.skip(i as int),
            0 < i < self@.len() ==> r.0.root_position() == i - 1,
    {
        proof {
            lemma_tree(self.root);
        }
        let (l, r) = split(self.root, i);
        (SplayTree { root: l }, SplayTree { root: r })
    }

    /// Appends `right` to this sequence.
    pub fn merge(&mut self, right: Self)
        requires
            old(self).wf(),
            right.wf(),
            old(self)@.len() + right@.len() <= usize::MAX,
        ensures
            final(self).wf(),
            final(self)@ == old(self)@ + right@,
            old(self)@.len() > 0 ==> final(self).root_position() == old(self)@.len() - 1,
    {
        proof {
            lemma_tree(self.root);
            lemma_tree(right.root);
        }
        let mut right = right;
        self.root = merge(self.root.take(), right.root.take());
    }

    /// The product of the whole sequence; the identity when it is empty.
    pub fn fold(&self) -> (r: T)
        requires
            self.wf(),
        ensures
            r == product(self@),
    {
        proof {
            lemma_tree(self.root);
            T::lemma_identity(cached_fold(self.root));
        }
        match &self.root {
            Some(node) => node.fold.ope(&T::ide()),
            None => T::ide(),
        }
    }

    /// The product of the positions from `l` up to `r`: the sequence is split at the
    /// two ends of the range and merged again.
    pub fn fold_range(&mut self, l: usize, r: usize) -> (res: T)
        requires
            old(self).wf(),
            l <= r <= old(self)@.len(),
        ensures
            final(self).wf(),
            final(self)@ == old(self)@,
            res == product(old(self)@.subrange(l as int, r as int)),
    {
        proof {
            lemma_none::<T>();
            lemma_tree(self.root);
        }
        let (head, tail) = split(self.root.take(), r);
        proof {
            lemma_tree(head);
            lemma_tree(tail);
        }
        let (left, mid) = split(head, l);
        proof {
            lemma_tree(left);
            lemma_tree(mid);
            T::lemma_identity(cached_fold(mid));
            assert(seq_of(mid) =~= old(self)@.subrange(l as int, r as int));
        }
        let res = match &mid {
            Some(node) => node.fold.ope(&T::ide()),
            None => T::ide(),
        };
        let front = merge(left, mid);
        proof {
            lemma_tree(front);
            assert(seq_of(front) =~= seq_of(head));
        }
        self.root = merge(front, tail);
        proof {
            assert(seq_of(self.root) =~= old(self)@);
        }
        res
    }

    /// Puts `elem` in front of position `i`: the new cell becomes the root, with
    /// the two halves of the old sequence as its children.
    pub fn insert(&mut self, i: usize, elem: T)
        requires
            old(self).wf(),
            i <= old(self)@.len(),
            old(self)@.len() < usize::MAX,
        ensures
            final(self).wf(),
            final(self)@ == old(self)@.insert(i as int, elem),
            final(self).root_position() == i,
    {
        proof {
            lemma_none::<T>();
            lemma_tree(self.root);
        }
        let mut node = Box::new(Node::new(elem));
        fix(&mut *node);
        let (left, right) = split(self.root.take(), i);
        proof {
            lemma_tree(left);
            lemma_tree(right);
        }
        set_left(&mut *node, left);
        set_right(&mut *node, right);
        proof {
            lemma_node(node);
            assert(seq_of(Some(node)) =~= old(self)@.insert(i as int, elem));
        }
        self.root = Some(node);
    }

    /// Removes the value at position `i`.
    pub fn erase(&mut self, i: usize)
        requires
            old(self).wf(),
            i < old(self)@.len(),
        ensures
            final(self).wf(),
            final(self)@ == old(self)@.remove(i as int),
    {
        proof {
            lemma_none::<T>();
            lemma_tree(self.root);
        }
        let (ll, right) = split(self.root.take(), i + 1);
        proof {
            lemma_tree(ll);
            lemma_tree(right);
        }
        let (left, _) = split(ll, i);
        proof {
            lemma_tree(left);
        }
        self.root = merge(left, right);
        proof {
            assert(seq_of(self.root) =~= old(self)@.remove(i as int));
        }
    }
}

} // verus!
