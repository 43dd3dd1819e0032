use std::rc::Rc;
use vstd::prelude::*;

verus! {

/// A shared value that is told apart from others by where it lives, not by what it
/// holds.
#[derive(Debug)]
pub struct RcHashable<T>(pub Rc<T>);

/// Whether two shared values live in the same allocation: `Rc::ptr_eq`. Two that do
/// hold the same value; of two that do not, nothing is said.
#[verifier::external_body]
fn same_allocation<T>(a: &Rc<T>, b: &Rc<T>) -> (res: bool)
    ensures
        res ==> *a == *b,
{
    Rc::ptr_eq(a, b)
}

impl<T> RcHashable<T> {
    /// Puts `value` into an allocation of its own.
    pub fn new(value: T) -> (res: Self)
        ensures
            *res.0 == value,
    {
        Self(Rc::new(value))
    }

    /// Whether `self` and `other` share one allocation. Two that do hold the same
    /// value.
    pub fn ptr_eq(&self, other: &Self) -> (res: bool)
        ensures
            res ==> *self.0 == *other.0,
    {
        same_allocation(&self.0, &other.0)
    }
}

impl<T> Clone for RcHashable<T> {
    fn clone(&self) -> (res: Self)
        ensures
            res == *self,
    {
        Self(Rc::clone(&self.0))
    }
}

} // verus!
