//! Shared ownership of immutable cells.
use std::rc::Rc;
use vstd::prelude::*;

verus! {

/// A second handle to what `p` points to. `Rc::clone` makes another pointer to
/// the same allocation; the value behind the two is the same.
#[verifier::external_body]
pub(crate) fn share<T>(p: &Rc<T>) -> (r: Rc<T>)
    ensures
        r == *p,
{
    Rc::clone(p)
}

} // verus!
