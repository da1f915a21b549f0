//! A list with anchors at both ends and push and pop at the front.
use std::collections::VecDeque;
use vstd::prelude::*;

verus! {

/// One cell of a list: an element, taken out of or put into a list as a whole.
pub struct Node<T> {
    elem: T,
}

impl<T> Node<T> {
    /// The element that the cell holds.
    pub closed spec fn elem_spec(&self) -> T {
        self.elem
    }

    /// A cell that holds `elem` and is in no list.
    pub fn new(elem: T) -> (r: Self)
        ensures
            r.elem_spec() == elem,
    {
        Node { elem: elem }
    }

    /// The element out of the cell.
    pub fn into_elem(self) -> (r: T)
        ensures
            r == self.elem_spec(),
    {
        self.elem
    }
}

/// A doubly linked list of cells.
pub struct LinkedList<T> {
    cells: VecDeque<Box<Node<T>>>,
}

impl<T> View for LinkedList<T> {
    type V = Seq<T>;

    /// The elements from the front to the back.
    closed spec fn view(&self) -> Seq<T> {
        Seq::new(self.cells@.len(), |i: int| self.cells@[i].elem)
    }
}

impl<T> LinkedList<T> {
    /// The empty list.
    pub fn new() -> (r: Self)
        ensures
            r@ == Seq::<T>::empty(),
    {
        let r = LinkedList { cells: VecDeque::new() };
        proof {
            assert(r@ =~= Seq::<T>::empty());
        }
        r
    }

    /// Puts the cell `node` in front of the list.
    pub fn push_front_node(&mut self, node: Box<Node<T>>)
        ensures
            final(self)@ == seq![node.elem_spec()] + old(self)@,
    {
        self.cells.push_front(node);
        proof {
            assert(self@ =~= seq![node.elem_spec()] + old(self)@);
        }
    }

    /// Takes the first cell out of the list; `None` when the list is empty.
    pub fn pop_front_node(&mut self) -> (r: Option<Box<Node<T>>>)
        ensures
            match r {
                Some(node) => old(self)@.len() > 0 && node.elem_spec() == old(self)@[0] && final(self)@
                    == old(self)@.skip(1),
                None => old(self)@.len() == 0 && final(self)@ == old(self)@,
            },
    {
        let r = self.cells.pop_front();
        proof {
            if r is Some {
                assert(self@ =~= old(self)@.skip(1));
            } else {
                assert(self@ =~= old(self)@);
            }
        }
        r
    }
}

} // verus!
