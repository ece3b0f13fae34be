use vstd::prelude::*;

verus! {

/// A run of items that is either borrowed from the input or owned, read
/// the same way whichever it is.
pub enum CowSlice<'a, T> {
    Borrowed(&'a [T]),
    Owned(Vec<T>),
}

impl<'a, T> vstd::view::View for CowSlice<'a, T> {
    type V = Seq<T>;

    open spec fn view(&self) -> Seq<T> {
        match self {
            CowSlice::Borrowed(s) => s@,
            CowSlice::Owned(v) => v@,
        }
    }
}

impl<'a, T> CowSlice<'a, T> {
    /// The items, wherever they live.
    pub fn as_slice(&self) -> (r: &[T])
        ensures
            r@ == self@,
    {
        match self {
            CowSlice::Borrowed(s) => s,
            CowSlice::Owned(v) => v.as_slice(),
        }
    }
}

} // verus!
