//! Plain value containers for the guest/host call convention that embeds
//! a program as a library: values crossing that boundary are
//! length-prefixed with a 16-bit count.

use vstd::prelude::*;

verus! {

/// An owned list of values whose length fits the convention's 16-bit
/// length prefix.
#[derive(Clone, Debug)]
pub struct Slice<T> {
    sl: Vec<T>,
}

impl<T> Slice<T> {
    /// The values held.
    pub closed spec fn view_elems(&self) -> Seq<T> {
        self.sl@
    }

    /// Wrap an owned list of values.
    pub fn new(shared: Vec<T>) -> (r: Self)
        ensures
            r.view_elems() == shared@,
    {
        Slice { sl: shared }
    }

    /// Wrap a vector of values.
    pub fn new_vec(v: Vec<T>) -> (r: Self)
        ensures
            r.view_elems() == v@,
    {
        Self::new(v)
    }

    /// Give the values back.
    pub fn into_inner(self) -> (r: Vec<T>)
        ensures
            r@ == self.view_elems(),
    {
        self.sl
    }

    /// The 16-bit length the convention writes before the values.
    pub fn len(&self) -> (r: u16)
        requires
            self.view_elems().len() <= u16::MAX,
        ensures
            r == self.view_elems().len(),
    {
        self.sl.len() as u16
    }
}

} // verus!
