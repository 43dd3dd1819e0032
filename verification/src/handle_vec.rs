use std::marker::PhantomData;
use vstd::prelude::*;

verus! {

/// A typed index into a [`HandleVec`].
///
/// The type parameter only tags the handle, so that a handle into one arena cannot be
/// used with an arena of another element type.
#[derive(Debug)]
pub struct Handle<T>(pub usize, pub PhantomData<T>);

impl<T> Clone for Handle<T> {
    fn clone(&self) -> (res: Self)
        ensures
            res == *self,
    {
        Handle(self.0, PhantomData)
    }
}

impl<T> Copy for Handle<T> {

}

impl<T> PartialEq for Handle<T> {
    fn eq(&self, other: &Self) -> (res: bool) {
        self.0 == other.0
    }
}

impl<T> vstd::std_specs::cmp::PartialEqSpecImpl for Handle<T> {
    open spec fn obeys_eq_spec() -> bool {
        true
    }

    open spec fn eq_spec(&self, other: &Self) -> bool {
        self.0 == other.0
    }
}

/// An append-only arena whose elements are addressed by [`Handle`]s.
#[derive(Debug)]
pub struct HandleVec<T>(pub Vec<T>);

impl<T> View for HandleVec<T> {
    type V = Seq<T>;

    open spec fn view(&self) -> Seq<T> {
        self.0@
    }
}

impl<T> HandleVec<T> {
    /// An arena without elements.
    pub fn new() -> (res: Self)
        ensures
            res@ == Seq::<T>::empty(),
    {
        HandleVec(Vec::new())
    }

    /// Appends `value` and returns the handle that addresses it from now on.
    pub fn push(&mut self, value: T) -> (handle: Handle<T>)
        ensures
            final(self)@ == old(self)@.push(value),
            handle.0 == old(self)@.len(),
    {
        let handle = self.0.len();
        self.0.push(value);
        Handle(handle, PhantomData)
    }

    /// The number of elements pushed so far.
    pub fn len(&self) -> (res: usize)
        ensures
            res == self@.len(),
    {
        self.0.len()
    }

    /// The element that `handle` addresses.
    pub fn index(&self, handle: Handle<T>) -> (res: &T)
        requires
            handle.0 < self@.len(),
        ensures
            *res == self@[handle.0 as int],
    {
        &self.0[handle.0]
    }

    /// Mutable access to the element that `handle` addresses; every other element is
    /// left as it was.
    pub fn index_mut(&mut self, handle: Handle<T>) -> (res: &mut T)
        requires
            handle.0 < old(self)@.len(),
        ensures
            *res == old(self)@[handle.0 as int],
            final(self)@ == old(self)@.update(handle.0 as int, *final(res)),
    {
        &mut self.0[handle.0]
    }
}

} // verus!
