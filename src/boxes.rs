use vstd::prelude::*;

verus! {

/// A value held in a box of its own.
pub struct MyBox<T>(pub T);

impl<T> MyBox<T> {
    /// A box holding `x`.
    pub fn new(x: T) -> (r: MyBox<T>)
        ensures
            r.0 == x,
    {
        MyBox(x)
    }

    /// The value in the box.
    pub fn deref(&self) -> (r: &T)
        ensures
            *r == self.0,
    {
        &self.0
    }
}

} // verus!
