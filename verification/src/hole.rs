//! Relocation cursor: one element lifted out of the backing array while its
//! destination is searched, so each sift step costs a single write instead of
//! the two writes of a pairwise swap.

use vstd::prelude::*;

verus! {

/// One element lifted out of the array, leaving a conceptual gap at `pos`.
/// The slot keeps a stale copy, so the array's logical contents are
/// `data@.update(pos, elt)` until `fill` writes the held element back.
pub(crate) struct Hole {
    pub(crate) elt: u64,
    pub(crate) pos: usize,
}

impl Hole {
    /// Lift the element at `pos` out of the array.
    pub(crate) fn new(data: &Vec<u64>, pos: usize) -> (h: Hole)
        requires
            pos < data@.len(),
        ensures
            h.pos == pos,
            h.elt == data@[pos as int],
    {
        Hole { elt: data[pos], pos }
    }

    /// The held element.
    pub(crate) fn curr(&self) -> (r: u64)
        ensures
            r == self.elt,
    {
        self.elt
    }

    /// Relocate: copy the element at `idx` over the gap; the gap moves to `idx`.
    pub(crate) fn move_to(&mut self, data: &mut Vec<u64>, idx: usize)
        requires
            old(self).pos < old(data)@.len(),
            idx < old(data)@.len(),
        ensures
            final(self).elt == old(self).elt,
            final(self).pos == idx,
            final(data)@ == old(data)@.update(old(self).pos as int, old(data)@[idx as int]),
    {
        let v = data[idx];
        data[self.pos] = v;
        self.pos = idx;
    }

    /// Close the gap: write the held element at the gap's final position.
    pub(crate) fn fill(self, data: &mut Vec<u64>)
        requires
            self.pos < old(data)@.len(),
        ensures
            final(data)@ == old(data)@.update(self.pos as int, self.elt),
    {
        data[self.pos] = self.elt;
    }
}

} // verus!
