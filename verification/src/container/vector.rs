//! A growable array whose capacity doubles when it is full.
use vstd::prelude::*;

verus! {

/// A dynamic array with push and pop at the tail. The capacity starts at 0,
/// becomes 1 on the first push, and doubles whenever the array is full.
pub struct Vector<T> {
    buf: Vec<T>,
    cap: usize,
}

impl<T> View for Vector<T> {
    type V = Seq<T>;

    closed spec fn view(&self) -> Seq<T> {
        self.buf@
    }
}

/// The capacity that follows `cap` when the array has to grow.
pub open spec fn grown(cap: int) -> int {
    if cap == 0 {
        1
    } else {
        2 * cap
    }
}

impl<T> Vector<T> {
    /// How many elements the array can hold before it grows.
    pub closed spec fn capacity(&self) -> usize {
        self.cap
    }

    /// The invariant: the elements fit the capacity.
    pub closed spec fn wf(&self) -> bool {
        self.buf@.len() <= self.cap
    }

    /// An empty array of capacity 0. Element types of size zero are not accepted.
    pub fn new() -> (r: Self)
        requires
            vstd::layout::size_of::<T>() != 0,
        ensures
            r.wf(),
            r@ == Seq::<T>::empty(),
            r.capacity() == 0,
    {
        Vector { buf: Vec::new(), cap: 0 }
    }

    /// Raises the capacity to 1 if it was 0 and doubles it otherwise.
    fn grow(&mut self)
        requires
            old(self).wf(),
            old(self).capacity() * vstd::layout::size_of::<T>() <= isize::MAX / 2,
            vstd::layout::size_of::<T>() != 0,
        ensures
            final(self).wf(),
            final(self)@ == old(self)@,
            final(self).capacity() == grown(old(self).capacity() as int),
    {
        let new_cap: usize = if self.cap == 0 {
            1
        } else {
            proof {
                assert(self.cap <= self.cap * vstd::layout::size_of::<T>()) by (nonlinear_arith)
                    requires
                        vstd::layout::size_of::<T>() >= 1,
                ;
            }
            self.cap * 2
        };
        self.buf.reserve(new_cap - self.buf.len());
        self.cap = new_cap;
    }

    /// Appends `elem`, growing first if the array is full.
    pub fn push(&mut self, elem: T)
        requires
            old(self).wf(),
            vstd::layout::size_of::<T>() != 0,
            old(self)@.len() == old(self).capacity() ==> old(self).capacity()
                * vstd::layout::size_of::<T>() <= isize::MAX / 2,
        ensures
            final(self).wf(),
            final(self)@ == old(self)@.push(elem),
            final(self).capacity() == if old(self)@.len() == old(self).capacity() {
                grown(old(self).capacity() as int)
            } else {
                old(self).capacity() as int
            },
    {
        if self.buf.len() == self.cap {
            self.grow()
        }
        self.buf.push(elem);
    }

    /// Removes and returns the last element; `None` when the array is empty. The
    /// capacity stays.
    pub fn pop(&mut self) -> (r: Option<T>)
        requires
            old(self).wf(),
        ensures
            final(self).wf(),
            final(self).capacity() == old(self).capacity(),
            old(self)@.len() == 0 ==> r is None && final(self)@ == old(self)@,
            old(self)@.len() > 0 ==> r == Some(old(self)@.last()) && final(self)@ == old(
                self,
            )@.drop_last(),
    {
        if self.buf.len() == 0 {
            None
        } else {
            self.buf.pop()
        }
    }
}

} // verus!
