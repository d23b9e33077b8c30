use vstd::prelude::*;

use crate::geom::Point;

use arrayvec::ArrayVec;

verus! {

/// The dual vertices that the faces on either side of an edge contribute:
/// at most two, in the order they were added.
#[verifier::external_body]
pub struct DualVerts {
    items: ArrayVec<[Point; 2]>,
}

/// What a `DualVerts` holds, oldest first.
pub uninterp spec fn dual_items(d: DualVerts) -> Seq<Point>;

impl DualVerts {
    pub open spec fn view(&self) -> Seq<Point> {
        dual_items(*self)
    }

    /// Relies on `ArrayVec::new`: the list starts empty.
    #[verifier::external_body]
    pub fn new() -> (r: DualVerts)
        ensures
            dual_items(r) == Seq::<Point>::empty(),
    {
        DualVerts { items: ArrayVec::new() }
    }

    /// Relies on `ArrayVec::len`: the number of items, never above the
    /// capacity of two.
    #[verifier::external_body]
    pub fn len(&self) -> (r: usize)
        ensures
            r == dual_items(*self).len(),
            r <= 2,
    {
        self.items.len()
    }

    /// Relies on indexing the slice that `ArrayVec` dereferences to.
    #[verifier::external_body]
    pub fn get(&self, i: usize) -> (r: Point)
        requires
            i < dual_items(*self).len(),
        ensures
            r == dual_items(*self)[i as int],
    {
        self.items[i]
    }

    /// Relies on `ArrayVec::push`, which appends and panics only when the
    /// list is full.
    #[verifier::external_body]
    pub fn push(&mut self, p: Point)
        requires
            dual_items(*old(self)).len() < 2,
        ensures
            dual_items(*final(self)) == dual_items(*old(self)).push(p),
    {
        self.items.push(p)
    }

    /// Relies on `ArrayVec::clear`: every item is removed.
    #[verifier::external_body]
    pub fn clear(&mut self)
        ensures
            dual_items(*final(self)) == Seq::<Point>::empty(),
    {
        self.items.clear()
    }
}

} // verus!
