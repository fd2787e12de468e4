//! The growable list of child slot indices stored in each occupied slot.
//!
//! The list is backed by `smallvec::SmallVec`, which keeps up to five indices
//! inline before spilling to the heap. Verus cannot read the crate's type, so
//! the list lives in an opaque struct and its abstract contents are named by
//! `child_list`; every method below is a trusted wrapper around one
//! `SmallVec` call, specified against that name.

use vstd::prelude::*;

verus! {

/// A node's child-index list, in insertion order.
#[verifier::external_body]
pub struct ChildList {
    items: smallvec::SmallVec<[u32; 5]>,
}

/// The abstract contents of a child-index list, in order.
pub uninterp spec fn child_list(v: ChildList) -> Seq<u32>;

impl ChildList {
    /// Relies on smallvec::SmallVec::new: a freshly created list is empty.
    #[verifier::external_body]
    pub fn new() -> (r: ChildList)
        ensures
            child_list(r) == Seq::<u32>::empty(),
    {
        ChildList { items: smallvec::SmallVec::new() }
    }

    /// Relies on smallvec::SmallVec::len: the number of stored indices.
    #[verifier::external_body]
    pub fn len(&self) -> (n: usize)
        ensures
            n == child_list(*self).len(),
    {
        self.items.len()
    }

    /// Relies on the slice indexing that smallvec::SmallVec derefs to:
    /// the element at the given position.
    #[verifier::external_body]
    pub fn get(&self, i: usize) -> (x: u32)
        requires
            i < child_list(*self).len(),
        ensures
            x == child_list(*self)[i as int],
    {
        self.items[i]
    }

    /// Relies on smallvec::SmallVec::push: appends one element at the end.
    /// Growth can panic only when the needed capacity in bytes overflows, far
    /// beyond the bound required here.
    #[verifier::external_body]
    pub fn push(&mut self, x: u32)
        requires
            child_list(*old(self)).len() < 0xffff_ffff,
        ensures
            child_list(*final(self)) == child_list(*old(self)).push(x),
    {
        self.items.push(x)
    }

    /// Relies on smallvec::SmallVec::remove: takes the element at the given
    /// position out, shifting the rest left.
    #[verifier::external_body]
    pub fn remove(&mut self, i: usize) -> (x: u32)
        requires
            i < child_list(*old(self)).len(),
        ensures
            x == child_list(*old(self))[i as int],
            child_list(*final(self)) == child_list(*old(self)).remove(i as int),
    {
        self.items.remove(i)
    }
}

} // verus!
