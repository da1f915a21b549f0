//! Handles to the cells of a link/cut forest.
use vstd::prelude::*;
use crate::algebra::{fold_seq, Effector, Monoid};
use crate::lctree::forest::{
    fold, lct_cut, lct_effect, lct_evert, lct_lca, lct_link, lct_new, value, value_mut, Forest,
};
use crate::lctree::model::{acted_on, cut_off, everted, lca_of, linked, values_on};
use crate::lctree::node_traits::{EffectNode, Node};

verus! {

/// A handle to one cell of a forest. Every operation is made on the forest that
/// the handle was created in.
#[derive(Clone, Copy, PartialEq, Eq, Structural)]
pub struct LctNode {
    node: usize,
}

impl LctNode {
    /// The index of the cell in its forest.
    pub closed spec fn index(&self) -> int {
        self.node as int
    }

    /// The handle is one of the forest `f`.
    pub open spec fn within<N: Node>(&self, f: &Forest<N>) -> bool {
        self.index() < f.len()
    }

    /// A new cell with the value `val`, a tree of its own.
    pub fn new<N: Node>(f: &mut Forest<N>, val: N::Value) -> (r: Self)
        requires
            old(f).wf(),
        ensures
            final(f).wf(),
            r.index() == old(f).len(),
            final(f).len() == old(f).len() + 1,
            final(f).paths() == old(f).paths().push(seq![r.index()]),
            final(f).values() == old(f).values().push(val),
    {
        LctNode { node: lct_new(f, val) }
    }

    /// Makes this cell, the root of a tree, a child of `parent`, a cell of
    /// another tree.
    pub fn link<N: Node>(&self, f: &mut Forest<N>, parent: &Self)
        requires
            old(f).wf(),
            self.within(old(f)),
            parent.within(old(f)),
            old(f).paths()[self.index()] == seq![self.index()],
            old(f).paths()[parent.index()][0] != self.index(),
        ensures
            final(f).wf(),
            final(f).len() == old(f).len(),
            final(f).paths() == linked(old(f).paths(), parent.index(), self.index()),
            final(f).values() == old(f).values(),
    {
        lct_link(f, parent.node, self.node);
    }

    /// Cuts this cell, which has a parent, from its parent.
    pub fn cut<N: Node>(&self, f: &mut Forest<N>)
        requires
            old(f).wf(),
            self.within(old(f)),
            old(f).paths()[self.index()].len() >= 2,
        ensures
            final(f).wf(),
            final(f).len() == old(f).len(),
            final(f).paths() == cut_off(old(f).paths(), self.index()),
            final(f).values() == old(f).values(),
    {
        lct_cut(f, self.node);
    }

    /// Makes this cell the root of its tree.
    pub fn evert<N: Node>(&self, f: &mut Forest<N>)
        requires
            old(f).wf(),
            self.within(old(f)),
        ensures
            final(f).wf(),
            final(f).len() == old(f).len(),
            final(f).paths() == everted(old(f).paths(), self.index()),
            final(f).values() == old(f).values(),
    {
        lct_evert(f, self.node);
    }

    /// The value of this cell.
    pub fn value<'a, N: Node>(&self, f: &'a mut Forest<N>) -> (r: &'a N::Value)
        requires
            old(f).wf(),
            self.within(old(f)),
        ensures
            final(f).wf(),
            final(f).len() == old(f).len(),
            final(f).paths() == old(f).paths(),
            final(f).values() == old(f).values(),
            *r == old(f).values()[self.index()],
    {
        value(f, self.node)
    }

    /// The value of this cell, for writing.
    pub fn value_mut<'a, N: Node>(&mut self, f: &'a mut Forest<N>) -> (r: &'a mut N::Value)
        requires
            old(f).wf(),
            old(self).within(old(f)),
        ensures
            *final(self) == *old(self),
            final(f).wf(),
            final(f).len() == old(f).len(),
            final(f).paths() == old(f).paths(),
            *r == old(f).values()[old(self).index()],
            final(f).values() == old(f).values().update(old(self).index(), *final(r)),
    {
        value_mut(f, self.node)
    }

    /// The lowest common ancestor of this cell and `v`; none when they are in
    /// different trees.
    pub fn lca<N: Node>(&self, f: &mut Forest<N>, v: &Self) -> (r: Option<Self>)
        requires
            old(f).wf(),
            self.within(old(f)),
            v.within(old(f)),
        ensures
            final(f).wf(),
            final(f).len() == old(f).len(),
            final(f).paths() == old(f).paths(),
            final(f).values() == old(f).values(),
            match r {
                Some(w) => lca_of(old(f).paths()[self.index()], old(f).paths()[v.index()]) == Some(w.index()),
                None => lca_of(old(f).paths()[self.index()], old(f).paths()[v.index()]) is None,
            },
    {
        match lct_lca(f, self.node, v.node) {
            Some(w) => Some(LctNode { node: w }),
            None => None,
        }
    }

    /// Applies the effect `e` to the value of every cell on the path from the
    /// root to this cell.
    pub fn effect<N: EffectNode>(&mut self, f: &mut Forest<N>, e: N::Effector) where N::Value: Monoid
        requires
            old(f).wf(),
            old(self).within(old(f)),
        ensures
            *final(self) == *old(self),
            final(f).wf(),
            final(f).len() == old(f).len(),
            final(f).paths() == old(f).paths(),
            final(f).values() == acted_on(
                old(f).values(),
                old(f).paths()[old(self).index()],
                |t: N::Value| e.effect_spec(t, 1),
            ),
    {
        lct_effect(f, self.node, e);
    }

    /// The product of the values on the path from the root to this cell.
    pub fn fold<'a, N: EffectNode>(&self, f: &'a mut Forest<N>) -> (r: &'a N::Value) where N::Value: Monoid
        requires
            old(f).wf(),
            self.within(old(f)),
        ensures
            final(f).wf(),
            final(f).len() == old(f).len(),
            final(f).paths() == old(f).paths(),
            final(f).values() == old(f).values(),
            *r == fold_seq(values_on(old(f).paths()[self.index()], old(f).values())),
    {
        fold(f, self.node)
    }
}

} // verus!
