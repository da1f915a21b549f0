//! Concrete node kinds.
use vstd::prelude::*;
use crate::algebra::{duplicate, Magma, Monoid, Unital};
use crate::bbstree::avl_tree_array::AVLSizeNode;
use crate::bbstree::node_traits::{FoldNode, HeightNode, Link, Node, SizeNode};

verus! {

/// A plain element with cached size and height.
pub struct ArrNode<T> {
    val: T,
    size: usize,
    height: isize,
    left: Link<ArrNode<T>>,
    right: Link<ArrNode<T>>,
}

impl<T> ArrNode<T> {
    /// A cell that holds `val` and has no children.
    pub fn new(val: T) -> (r: Self)
        ensures
            r.val_spec() == val,
            r.child_spec(0) is None,
            r.child_spec(1) is None,
            r.fixed(),
    {
        Self { val: val, size: 1, height: 1, left: None, right: None }
    }

    /// The cached size behind a link: 0 when there is none.
    spec fn cached_size(link: Link<Self>) -> int {
        match link {
            Some(n) => n.size as int,
            None => 0,
        }
    }

    /// The cached height behind a link: 0 when there is none.
    spec fn cached_height(link: Link<Self>) -> int {
        match link {
            Some(n) => n.height as int,
            None => 0,
        }
    }

    /// The number of cells on the longest chain from this cell down.
    spec fn depth(&self) -> nat
        decreases self,
    {
        let l = match self.left { Some(n) => n.depth(), None => 0 };
        let r = match self.right { Some(n) => n.depth(), None => 0 };
        if l >= r { l + 1 } else { r + 1 }
    }
}

impl<T> Node for ArrNode<T> {
    type Value = T;

    closed spec fn child_spec(&self, dir: int) -> Link<Self> {
        if dir == 0 { self.left } else { self.right }
    }

    closed spec fn val_spec(&self) -> T {
        self.val
    }

    closed spec fn fixed(&self) -> bool {
        &&& self.size == Self::cached_size(self.left) + Self::cached_size(self.right) + 1
        &&& self.height == vstd::math::max(Self::cached_height(self.left), Self::cached_height(self.right)) + 1
    }

    closed spec fn fits(left: Link<Self>, right: Link<Self>) -> bool {
        &&& Self::cached_size(left) + Self::cached_size(right) + 1 <= usize::MAX
        &&& Self::cached_height(left) < isize::MAX
        &&& Self::cached_height(right) < isize::MAX
    }

    closed spec fn rank(&self) -> nat {
        self.depth()
    }

    proof fn lemma_rank(&self, dir: int) {
        reveal_with_fuel(ArrNode::depth, 2);
    }

    fn fix(&mut self) {
        let ls: usize = match &self.left { Some(n) => n.size, None => 0 };
        let rs: usize = match &self.right { Some(n) => n.size, None => 0 };
        let lh: isize = match &self.left { Some(n) => n.height, None => 0 };
        let rh: isize = match &self.right { Some(n) => n.height, None => 0 };
        self.size = ls + rs + 1;
        self.height = if lh >= rh { lh + 1 } else { rh + 1 };
    }

    fn child(&mut self, dir: usize) -> (r: &mut Link<Self>) {
        if dir == 0 { &mut self.left } else { &mut self.right }
    }

    fn child_imut(&self, dir: usize) -> (r: &Link<Self>) {
        if dir == 0 { &self.left } else { &self.right }
    }

    fn cut(&mut self, dir: usize) -> (r: Link<Self>) {
        let nn = if dir == 0 { self.left.take() } else { self.right.take() };
        self.fix();
        nn
    }

    fn set(&mut self, dir_node: Link<Self>, dir: usize) {
        if dir == 0 { self.left = dir_node; } else { self.right = dir_node; }
        self.fix();
    }

    fn val(&self) -> (r: &T) {
        &self.val
    }

    fn val_mut(&mut self) -> (r: &mut T) {
        &mut self.val
    }
}

impl<T> SizeNode for ArrNode<T> {
    closed spec fn size_spec(&self) -> usize {
        self.size
    }

    fn size(&self) -> (r: usize) {
        self.size
    }

    proof fn lemma_size_fixed(&self) {
    }
}

impl<T> HeightNode for ArrNode<T> {
    closed spec fn height_spec(&self) -> isize {
        self.height
    }

    fn height(&self) -> (r: isize) {
        self.height
    }

    proof fn lemma_height_fixed(&self) {
    }
}

impl<T> AVLSizeNode for ArrNode<T> {
    proof fn lemma_fits(left: Link<Self>, right: Link<Self>) {
    }
}

/// An element with cached size, height and fold.
pub struct ArrFoldNode<T: Monoid> {
    val: T,
    fold: T,
    size: usize,
    height: isize,
    left: Link<ArrFoldNode<T>>,
    right: Link<ArrFoldNode<T>>,
}

impl<T: Monoid> ArrFoldNode<T> {
    /// A cell that holds `val` and has no children; its fold is `val`.
    pub fn new(val: T) -> (r: Self)
        ensures
            r.val_spec() == val,
            r.child_spec(0) is None,
            r.child_spec(1) is None,
            r.fixed(),
            r.fold_spec() == val,
    {
        let fold = duplicate(&val);
        proof {
            T::lemma_identity(val);
        }
        Self { val: val, fold: fold, size: 1, height: 1, left: None, right: None }
    }

    /// The cached size behind a link: 0 when there is none.
    spec fn cached_size(link: Link<Self>) -> int {
        match link {
            Some(n) => n.size as int,
            None => 0,
        }
    }

    /// The cached height behind a link: 0 when there is none.
    spec fn cached_height(link: Link<Self>) -> int {
        match link {
            Some(n) => n.height as int,
            None => 0,
        }
    }

    /// The cached fold behind a link: the identity when there is none.
    spec fn cached_fold(link: Link<Self>) -> T {
        match link {
            Some(n) => n.fold,
            None => T::identity_spec(),
        }
    }

    /// The number of cells on the longest chain from this cell down.
    spec fn depth(&self) -> nat
        decreases self,
    {
        let l = match self.left { Some(n) => n.depth(), None => 0 };
        let r = match self.right { Some(n) => n.depth(), None => 0 };
        if l >= r { l + 1 } else { r + 1 }
    }
}

impl<T: Monoid> Node for ArrFoldNode<T> {
    type Value = T;

    closed spec fn child_spec(&self, dir: int) -> Link<Self> {
        if dir == 0 { self.left } else { self.right }
    }

    closed spec fn val_spec(&self) -> T {
        self.val
    }

    closed spec fn fixed(&self) -> bool {
        &&& self.size == Self::cached_size(self.left) + Self::cached_size(self.right) + 1
        &&& self.height == vstd::math::max(Self::cached_height(self.left), Self::cached_height(self.right)) + 1
        &&& self.fold == Self::cached_fold(self.left).op_spec(self.val).op_spec(
            Self::cached_fold(self.right),
        )
    }

    closed spec fn fits(left: Link<Self>, right: Link<Self>) -> bool {
        &&& Self::cached_size(left) + Self::cached_size(right) + 1 <= usize::MAX
        &&& Self::cached_height(left) < isize::MAX
        &&& Self::cached_height(right) < isize::MAX
    }

    closed spec fn rank(&self) -> nat {
        self.depth()
    }

    proof fn lemma_rank(&self, dir: int) {
        reveal_with_fuel(ArrFoldNode::depth, 2);
    }

    fn fix(&mut self) {
        let ls: usize = match &self.left { Some(n) => n.size, None => 0 };
        let rs: usize = match &self.right { Some(n) => n.size, None => 0 };
        let lh: isize = match &self.left { Some(n) => n.height, None => 0 };
        let rh: isize = match &self.right { Some(n) => n.height, None => 0 };
        self.size = ls + rs + 1;
        self.height = if lh >= rh { lh + 1 } else { rh + 1 };
        let lf = match &self.left { Some(n) => duplicate(&n.fold), None => T::identity() };
        let rf = match &self.right { Some(n) => duplicate(&n.fold), None => T::identity() };
        self.fold = lf.op(&self.val).op(&rf);
    }

    fn child(&mut self, dir: usize) -> (r: &mut Link<Self>) {
        if dir == 0 { &mut self.left } else { &mut self.right }
    }

    fn child_imut(&self, dir: usize) -> (r: &Link<Self>) {
        if dir == 0 { &self.left } else { &self.right }
    }

    fn cut(&mut self, dir: usize) -> (r: Link<Self>) {
        let nn = if dir == 0 { self.left.take() } else { self.right.take() };
        self.fix();
        nn
    }

    fn set(&mut self, dir_node: Link<Self>, dir: usize) {
        if dir == 0 { self.left = dir_node; } else { self.right = dir_node; }
        self.fix();
    }

    fn val(&self) -> (r: &T) {
        &self.val
    }

    fn val_mut(&mut self) -> (r: &mut T) {
        &mut self.val
    }
}

impl<T: Monoid> SizeNode for ArrFoldNode<T> {
    closed spec fn size_spec(&self) -> usize {
        self.size
    }

    fn size(&self) -> (r: usize) {
        self.size
    }

    proof fn lemma_size_fixed(&self) {
    }
}

impl<T: Monoid> HeightNode for ArrFoldNode<T> {
    closed spec fn height_spec(&self) -> isize {
        self.height
    }

    fn height(&self) -> (r: isize) {
        self.height
    }

    proof fn lemma_height_fixed(&self) {
    }
}

impl<T: Monoid> FoldNode for ArrFoldNode<T> {
    closed spec fn fold_spec(&self) -> T {
        self.fold
    }

    fn fold(&self) -> (r: &T) {
        &self.fold
    }

    proof fn lemma_fold_fixed(&self) {
    }
}

impl<T: Monoid> AVLSizeNode for ArrFoldNode<T> {
    proof fn lemma_fits(left: Link<Self>, right: Link<Self>) {
    }
}

} // verus!
