//! Incremental tracker for the structurally-last occupied slot: the current
//! layer depth, that layer's base offset, and how far the layer is filled.
//! Updated in O(1) per insertion/removal, so the heap never has to recompute
//! the depth from the array length.

use vstd::prelude::*;

verus! {

use crate::geometry::{
    base_layer_lookup,
    cum_base,
    layer_size,
    lemma_cum_base_mono,
    lemma_layer_values,
    lemma_layer_size_pos,
    max_len,
    MAX_DEPTH,
};

/// `(depth, base, fill)` state of the bottom layer. Invariant: `base` is the
/// cumulative base of `depth`, `base + last_row_fill` is the element count,
/// and the bottom layer is filled to `last_row_fill` slots (zero only when the
/// whole structure is empty).
pub struct LastPointer {
    pub base: u64,
    pub last_row_fill: u64,
    pub depth: u8,
}

impl LastPointer {
    /// Number of elements this tracker stands for.
    pub open spec fn total(self) -> nat {
        (self.base + self.last_row_fill) as nat
    }

    /// The tracker's invariant, kept in lockstep with the array length.
    pub open spec fn wf(self) -> bool {
        &&& self.depth <= MAX_DEPTH
        &&& self.base == cum_base(self.depth as nat)
        &&& self.last_row_fill <= layer_size(self.depth as nat)
        &&& (self.last_row_fill == 0 ==> self.depth == 0)
    }

    /// Fresh tracker for an empty structure.
    pub fn new() -> (r: LastPointer)
        ensures
            r.wf(),
            r.total() == 0,
            r.base == 0 && r.last_row_fill == 0 && r.depth == 0,
    {
        LastPointer { base: 0, depth: 0, last_row_fill: 0 }
    }

    /// Record one insertion: fill the bottom layer one slot further, opening
    /// the next layer when the current one is full.
    pub fn inc(&mut self)
        requires
            old(self).wf(),
            old(self).total() < max_len(),
        ensures
            final(self).wf(),
            final(self).total() == old(self).total() + 1,
    {
        proof {
            lemma_layer_values();
            lemma_cum_base_mono(self.depth as nat + 1, 11);
        }
        self.last_row_fill = self.last_row_fill + 1;
        let bl = base_layer_lookup(self.depth);
        if self.last_row_fill > bl {
            proof {
                // The bottom layer was full, so the count now reaches past it:
                // cum_base(depth + 1) < max_len() forces depth + 1 <= MAX_DEPTH.
                if self.depth as nat + 1 > MAX_DEPTH as nat {
                    lemma_cum_base_mono(11, self.depth as nat + 1);
                    assert(false);
                }
                lemma_layer_size_pos(self.depth as nat + 1);
            }
            self.base = self.base + bl;
            self.depth = self.depth + 1;
            self.last_row_fill = 1;
        }
    }

    /// Record one removal: drain the bottom layer one slot, dropping back into
    /// the layer above when it empties (that layer is always completely full).
    pub fn dec(&mut self)
        requires
            old(self).wf(),
            old(self).total() >= 1,
        ensures
            final(self).wf(),
            final(self).total() == old(self).total() - 1,
    {
        self.last_row_fill = self.last_row_fill - 1;
        if self.last_row_fill == 0 && self.depth > 0 {
            self.depth = self.depth - 1;
            let prev = base_layer_lookup(self.depth);
            proof {
                assert(cum_base(self.depth as nat + 1) == cum_base(self.depth as nat)
                    + layer_size(self.depth as nat));
                lemma_layer_size_pos(self.depth as nat);
            }
            self.base = self.base - prev;
            self.last_row_fill = prev;
        }
    }
}

/// A well-formed tracker is determined by its element count alone: whatever
/// path of increments and decrements produced it, equal counts mean equal
/// `(depth, base, fill)` states. In particular, `n` increments followed by `n`
/// decrements always return the tracker to `(0, 0, 0)`.
pub proof fn lemma_tracker_state_unique(a: LastPointer, b: LastPointer)
    requires
        a.wf(),
        b.wf(),
        a.total() == b.total(),
    ensures
        a.depth == b.depth,
        a.base == b.base,
        a.last_row_fill == b.last_row_fill,
{
    if a.depth < b.depth {
        lemma_tracker_depth_ordered(a, b);
    }
    if b.depth < a.depth {
        lemma_tracker_depth_ordered(b, a);
    }
}

/// The only well-formed tracker for an empty structure is `(0, 0, 0)`: once
/// as many decrements as increments have been applied, the tracker is back at
/// its starting state.
pub proof fn lemma_tracker_zero(p: LastPointer)
    requires
        p.wf(),
        p.total() == 0,
    ensures
        p.depth == 0,
        p.base == 0,
        p.last_row_fill == 0,
{
}

proof fn lemma_tracker_depth_ordered(a: LastPointer, b: LastPointer)
    requires
        a.wf(),
        b.wf(),
        a.depth < b.depth,
    ensures
        a.total() < b.total(),
{
    lemma_cum_base_mono(a.depth as nat + 1, b.depth as nat);
    assert(a.total() <= cum_base(a.depth as nat) + layer_size(a.depth as nat));
    assert(cum_base(a.depth as nat + 1) == cum_base(a.depth as nat) + layer_size(a.depth as nat));
    assert(b.last_row_fill >= 1);
}

/// The tracker's invariant already bounds the element count by the capacity
/// ceiling: a full bottom layer at `MAX_DEPTH` is exactly `max_len()` elements.
pub proof fn lemma_total_le_max(p: LastPointer)
    requires
        p.wf(),
    ensures
        p.total() <= max_len(),
{
    assert(cum_base(p.depth as nat + 1) == cum_base(p.depth as nat) + layer_size(p.depth as nat));
    lemma_cum_base_mono(p.depth as nat + 1, 11);
}

} // verus!
