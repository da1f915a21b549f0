//! An immutable stack whose versions share their tails.
use std::rc::Rc;
use vstd::prelude::*;
use crate::sharing::share;

verus! {

type Link<T> = Option<Rc<Node<T>>>;

struct Node<T> {
    elem: T,
    next: Link<T>,
}

/// An immutable stack: `push` and `pop` hand back a new stack and leave the old
/// one as it was; the two share the common part of their chains.
pub struct PersistentStack<T> {
    head: Link<T>,
}

/// The elements of a chain, the first one first.
spec fn chain<T>(link: Link<T>) -> Seq<T>
    decreases link,
{
    match link {
        None => Seq::empty(),
        Some(node) => seq![node.elem] + chain(node.next),
    }
}

impl<T> View for PersistentStack<T> {
    type V = Seq<T>;

    /// The elements from the top down.
    closed spec fn view(&self) -> Seq<T> {
        chain(self.head)
    }
}

impl<T> PersistentStack<T> {
    /// The empty stack.
    pub fn new() -> (r: Self)
        ensures
            r@ == Seq::<T>::empty(),
    {
        Self { head: None }
    }

    /// The stack with `elem` on top of this one.
    pub fn push(&self, elem: T) -> (r: Self)
        ensures
            r@ == seq![elem] + self@,
    {
        let next = match &self.head {
            Some(node) => Some(share(node)),
            None => None,
        };
        Self { head: Some(Rc::new(Node { elem: elem, next: next })) }
    }

    /// The stack without its top; the empty stack stays empty.
    pub fn pop(&self) -> (r: Self)
        ensures
            r@ == if self@.len() > 0 {
                self@.skip(1)
            } else {
                Seq::<T>::empty()
            },
    {
        let head = match &self.head {
            Some(node) => {
                proof {
                    assert((seq![node.elem] + chain(node.next)).skip(1) =~= chain(node.next));
                }
                match &node.next {
                    Some(next) => Some(share(next)),
                    None => None,
                }
            },
            None => None,
        };
        Self { head: head }
    }

    /// The top element, if there is one.
    pub fn top(&self) -> (r: Option<&T>)
        ensures
            match r {
                Some(t) => self@.len() > 0 && *t == self@[0],
                None => self@.len() == 0,
            },
    {
        match &self.head {
            Some(node) => Some(&node.elem),
            None => None,
        }
    }

    /// A cursor over the elements from the top down.
    pub fn iter(&self) -> (r: Iter<'_, T>)
        ensures
            r@ == self@,
    {
        Iter {
            next: match &self.head {
                Some(node) => Some(&**node),
                None => None,
            },
        }
    }

    /// Gives up this handle: the cells of the chain that no other stack shares are
    /// released one after another, without recursion, down to the first shared
    /// one.
    pub fn release(self) {
        let mut head = self.head;
        loop
            decreases chain(head).len(),
        {
            match head {
                Some(node) => {
                    match Rc::try_unwrap(node) {
                        Ok(inner) => {
                            proof {
                                assert(chain(Some(node)).len() == 1 + chain(inner.next).len());
                            }
                            head = inner.next;
                        },
                        Err(_) => {
                            break ;
                        },
                    }
                },
                None => {
                    break ;
                },
            }
        }
    }
}

/// A cursor into a stack.
pub struct Iter<'a, T> {
    next: Option<&'a Node<T>>,
}

impl<'a, T> View for Iter<'a, T> {
    type V = Seq<T>;

    /// The elements that the cursor has yet to hand out.
    closed spec fn view(&self) -> Seq<T> {
        match self.next {
            None => Seq::empty(),
            Some(node) => seq![node.elem] + chain(node.next),
        }
    }
}

impl<'a, T> Iter<'a, T> {
    /// Hands out the next element and moves on; `None` at the end.
    pub fn next(&mut self) -> (r: Option<&'a T>)
        ensures
            match r {
                Some(t) => old(self)@.len() > 0 && *t == old(self)@[0] && final(self)@ == old(self)@.skip(1),
                None => old(self)@.len() == 0 && final(self)@ == old(self)@,
            },
    {
        match self.next {
            Some(node) => {
                proof {
                    assert((seq![node.elem] + chain(node.next)).skip(1) =~= chain(node.next));
                }
                self.next = match &node.next {
                    Some(next) => Some(&**next),
                    None => None,
                };
                Some(&node.elem)
            },
            None => None,
        }
    }
}

} // verus!
