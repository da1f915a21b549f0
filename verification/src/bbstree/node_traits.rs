//! The capabilities an engine may ask of a tree cell.
use vstd::prelude::*;
use crate::algebra::{Magma, Monoid, Unital};

verus! {

/// An owning edge to a child, or none.
pub type Link<N> = Option<Box<N>>;

/// A tree cell with two child slots (0 = left, 1 = right), a value, and cached
/// aggregates that `fix` recomputes from the children and the value.
pub trait Node: Sized {
    type Value;

    /// The child in slot `dir`.
    spec fn child_spec(&self, dir: int) -> Link<Self>;

    /// The value stored in this cell.
    spec fn val_spec(&self) -> Self::Value;

    /// Every cached aggregate of this cell agrees with the children's cached
    /// aggregates and the value.
    spec fn fixed(&self) -> bool;

    /// A cell with children `left` and `right` can have its aggregates recomputed
    /// without leaving the range of the machine integers that cache them.
    spec fn fits(left: Link<Self>, right: Link<Self>) -> bool;

    /// A measure that is strictly smaller at each child; it makes recursion over
    /// a tree of cells well-founded.
    spec fn rank(&self) -> nat;

    proof fn lemma_rank(&self, dir: int)
        requires
            0 <= dir < 2,
            self.child_spec(dir) is Some,
        ensures
            self.child_spec(dir).unwrap().rank() < self.rank(),
    ;

    fn fix(&mut self)
        requires
            Self::fits(old(self).child_spec(0), old(self).child_spec(1)),
        ensures
            final(self).child_spec(0) == old(self).child_spec(0),
            final(self).child_spec(1) == old(self).child_spec(1),
            final(self).val_spec() == old(self).val_spec(),
            final(self).fixed(),
    ;

    fn child(&mut self, dir: usize) -> (r: &mut Link<Self>)
        requires
            dir < 2,
        ensures
            *r == old(self).child_spec(dir as int),
            final(self).child_spec(dir as int) == *final(r),
            final(self).child_spec(1 - dir) == old(self).child_spec(1 - dir),
            final(self).val_spec() == old(self).val_spec(),
    ;

    fn child_imut(&self, dir: usize) -> (r: &Link<Self>)
        requires
            dir < 2,
        ensures
            *r == self.child_spec(dir as int),
    ;

    fn cut(&mut self, dir: usize) -> (r: Link<Self>)
        requires
            dir < 2,
            dir == 0 ==> Self::fits(None, old(self).child_spec(1)),
            dir == 1 ==> Self::fits(old(self).child_spec(0), None),
        ensures
            r == old(self).child_spec(dir as int),
            final(self).child_spec(dir as int) is None,
            final(self).child_spec(1 - dir) == old(self).child_spec(1 - dir),
            final(self).val_spec() == old(self).val_spec(),
            final(self).fixed(),
    ;

    fn set(&mut self, dir_node: Link<Self>, dir: usize)
        requires
            dir < 2,
            dir == 0 ==> Self::fits(dir_node, old(self).child_spec(1)),
            dir == 1 ==> Self::fits(old(self).child_spec(0), dir_node),
        ensures
            final(self).child_spec(dir as int) == dir_node,
            final(self).child_spec(1 - dir) == old(self).child_spec(1 - dir),
            final(self).val_spec() == old(self).val_spec(),
            final(self).fixed(),
    ;

    fn val(&self) -> (r: &Self::Value)
        ensures
            *r == self.val_spec(),
    ;

    fn val_mut(&mut self) -> (r: &mut Self::Value)
        ensures
            *r == old(self).val_spec(),
            final(self).val_spec() == *final(r),
            final(self).child_spec(0) == old(self).child_spec(0),
            final(self).child_spec(1) == old(self).child_spec(1),
    ;
}

/// A cell that caches how many cells its subtree holds, itself included.
pub trait SizeNode: Node {
    spec fn size_spec(&self) -> usize;

    fn size(&self) -> (r: usize)
        ensures
            r == self.size_spec(),
    ;

    /// After `fix` the cached size is one more than the children's cached sizes.
    proof fn lemma_size_fixed(&self)
        requires
            self.fixed(),
        ensures
            self.size_spec() == (match self.child_spec(0) {
                Some(c) => c.size_spec() as int,
                None => 0,
            }) + (match self.child_spec(1) {
                Some(c) => c.size_spec() as int,
                None => 0,
            }) + 1,
    ;
}

/// A cell of a keyed tree.
pub trait MapNode: Node {
    type Key;
}

/// A cell that caches the length of the longest chain of cells below it, itself
/// included.
pub trait HeightNode: Node {
    spec fn height_spec(&self) -> isize;

    fn height(&self) -> (r: isize)
        ensures
            r == self.height_spec(),
    ;

    /// After `fix` the cached height is one more than the larger of the children's
    /// cached heights.
    proof fn lemma_height_fixed(&self)
        requires
            self.fixed(),
        ensures
            self.height_spec() == vstd::math::max(
                match self.child_spec(0) {
                    Some(c) => c.height_spec() as int,
                    None => 0,
                },
                match self.child_spec(1) {
                    Some(c) => c.height_spec() as int,
                    None => 0,
                },
            ) + 1,
    ;

    /// Cached height of the left child minus that of the right child.
    fn diff(&self) -> (r: isize)
        requires
            isize::MIN <= (match self.child_spec(0) {
                Some(c) => c.height_spec() as int,
                None => 0,
            }) - (match self.child_spec(1) {
                Some(c) => c.height_spec() as int,
                None => 0,
            }) <= isize::MAX,
        ensures
            r == (match self.child_spec(0) {
                Some(c) => c.height_spec() as int,
                None => 0,
            }) - (match self.child_spec(1) {
                Some(c) => c.height_spec() as int,
                None => 0,
            }),
    {
        let lh: isize = match self.child_imut(0) {
            Some(c) => c.height(),
            None => 0,
        };
        let rh: isize = match self.child_imut(1) {
            Some(c) => c.height(),
            None => 0,
        };
        lh - rh
    }

}

/// A cell that caches the monoid product of its subtree in inorder.
pub trait FoldNode where Self: Node, <Self as Node>::Value: Monoid {
    spec fn fold_spec(&self) -> <Self as Node>::Value;

    fn fold(&self) -> (r: &<Self as Node>::Value)
        ensures
            *r == self.fold_spec(),
    ;

    /// After `fix` the cached fold is `left.fold · value · right.fold`, an absent
    /// child contributing the identity.
    proof fn lemma_fold_fixed(&self)
        requires
            self.fixed(),
        ensures
            self.fold_spec() == (match self.child_spec(0) {
                Some(c) => c.fold_spec(),
                None => <Self::Value as Unital>::identity_spec(),
            }).op_spec(self.val_spec()).op_spec(
                match self.child_spec(1) {
                    Some(c) => c.fold_spec(),
                    None => <Self::Value as Unital>::identity_spec(),
                },
            ),
    ;
}

/// Cached size of an optional child: 0 when absent.
pub open spec fn link_size<N: SizeNode>(link: Link<N>) -> int {
    match link {
        Some(node) => node.size_spec() as int,
        None => 0,
    }
}

/// Cached height of an optional child: 0 when absent.
pub open spec fn link_height<N: HeightNode>(link: Link<N>) -> int {
    match link {
        Some(node) => node.height_spec() as int,
        None => 0,
    }
}

/// Cached height of the left child minus that of the right child.
pub open spec fn node_diff<N: HeightNode>(node: &N) -> int {
    link_height(node.child_spec(0)) - link_height(node.child_spec(1))
}

/// `node_diff` of an optional child: 0 when absent.
pub open spec fn link_diff<N: HeightNode>(link: Link<N>) -> int {
    match link {
        Some(node) => node_diff(&*node),
        None => 0,
    }
}

/// Cached fold of an optional child: the identity when absent.
pub open spec fn link_fold<N: FoldNode>(link: Link<N>) -> N::Value where N::Value: Monoid {
    match link {
        Some(node) => node.fold_spec(),
        None => <N::Value as Unital>::identity_spec(),
    }
}

/// The cached size of an optional child: 0 when absent.
pub fn size<N: SizeNode>(link: &Link<N>) -> (r: usize)
    ensures
        r == link_size(*link),
{
    match link {
        Some(node) => node.size(),
        None => 0,
    }
}

/// The cached height of an optional child: 0 when absent.
pub fn height<N: HeightNode>(link: &Link<N>) -> (r: isize)
    ensures
        r == link_height(*link),
{
    match link {
        Some(node) => node.height(),
        None => 0,
    }
}

/// The difference of the cached heights of the two children of an optional
/// child: 0 when absent.
pub fn diff<N: HeightNode>(link: &Link<N>) -> (r: isize)
    requires
        isize::MIN <= link_diff(*link) <= isize::MAX,
    ensures
        r == link_diff(*link),
{
    match link {
        Some(node) => node.diff(),
        None => 0,
    }
}

/// Detaches child `dir` of `node` and hands back both.
pub fn cut<N: Node>(node: Box<N>, dir: usize) -> (r: (Box<N>, Link<N>))
    requires
        dir < 2,
        dir == 0 ==> N::fits(None, node.child_spec(1)),
        dir == 1 ==> N::fits(node.child_spec(0), None),
    ensures
        r.1 == node.child_spec(dir as int),
        r.0.child_spec(dir as int) is None,
        r.0.child_spec(1 - dir) == node.child_spec(1 - dir),
        r.0.val_spec() == node.val_spec(),
        r.0.fixed(),
{
    let mut node = node;
    let nn = node.cut(dir);
    (node, nn)
}

/// Installs `dir_node` as child `dir` of `node`.
pub fn set<N: Node>(node: Box<N>, dir_node: Link<N>, dir: usize) -> (r: Box<N>)
    requires
        dir < 2,
        dir == 0 ==> N::fits(dir_node, node.child_spec(1)),
        dir == 1 ==> N::fits(node.child_spec(0), dir_node),
    ensures
        r.child_spec(dir as int) == dir_node,
        r.child_spec(1 - dir) == node.child_spec(1 - dir),
        r.val_spec() == node.val_spec(),
        r.fixed(),
{
    let mut node = node;
    node.set(dir_node, dir);
    node
}

} // verus!
