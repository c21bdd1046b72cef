//! The heap facade: the backing array, its position tracker, and the sift-up /
//! sift-down restoring algorithms built on the relocation cursor.
//!
//! Single-threaded by design: concurrent mutation needs external
//! synchronisation by the caller.

use vstd::prelude::*;

verus! {

use vstd::seq_lib::group_to_multiset_ensures;
use vstd::multiset::group_multiset_axioms;
use vstd::arithmetic::mul::{lemma_mul_inequality, lemma_mul_is_distributive_sub_other_way};
use vstd::arithmetic::power2::{lemma2_to64, lemma_pow2_adds, lemma_pow2_strictly_increases, pow2};
use vstd::bits::lemma_u64_shl_is_mul;
use crate::geometry::{
    base_layer_lookup,
    cum_base,
    depth_of,
    layer_size,
    lemma_chain_le,
    lemma_chain_linear,
    lemma_chain_step,
    lemma_child_of,
    lemma_cum_base_mono,
    lemma_depth_of,
    lemma_depth_of_range,
    lemma_layer_values,
    lemma_parent_of_range,
    lemma_parent_to_child_block,
    max_len,
    on_ancestor_chain,
    parent_index,
    parent_of,
    MAX_DEPTH,
};
use crate::hole::Hole;
use crate::tracker::{lemma_total_le_max, LastPointer};

/// Max-heap order over the squaring-tree shape: every non-root index is
/// bounded by its parent.
pub open spec fn heap_le(s: Seq<u64>) -> bool {
    forall|i: int| #![trigger s[i]] 1 <= i < s.len() ==> s[i] <= s[parent_of(i as nat) as int]
}

/// Heap order at every non-root index except `h` itself.
spec fn heap_le_except(s: Seq<u64>, h: int) -> bool {
    forall|i: int|
        #![trigger s[i]]
        1 <= i < s.len() && i != h ==> s[i] <= s[parent_of(i as nat) as int]
}

/// Heap order at every non-root index not touching `h`: neither `h` itself nor
/// the edges from its children.
spec fn heap_le_off(s: Seq<u64>, h: int) -> bool {
    forall|i: int|
        #![trigger s[i]]
        1 <= i < s.len() && i != h && parent_of(i as nat) != h ==> s[i] <= s[parent_of(
            i as nat,
        ) as int]
}

/// The children of `h` are already bounded by the value at `h`'s parent, so
/// whatever the sift later writes at `h` below that value keeps them ordered.
spec fn children_below_parent(s: Seq<u64>, h: int) -> bool {
    h > 0 ==> forall|i: int|
        #![trigger s[i]]
        1 <= i < s.len() && parent_of(i as nat) == h ==> s[i] <= s[parent_of(h as nat) as int]
}

/// Swapping two positions of a sequence leaves its multiset of values unchanged.
proof fn lemma_swap_multiset(s: Seq<u64>, i: int, j: int)
    requires
        0 <= i < s.len(),
        0 <= j < s.len(),
        i != j,
    ensures
        s.update(i, s[j]).update(j, s[i]).to_multiset() == s.to_multiset(),
{
    broadcast use group_to_multiset_ensures, group_multiset_axioms;

    let s1 = s.update(i, s[j]);
    assert(s.contains(s[i]));
    assert(s1.contains(s1[j]));
    assert(s1.update(j, s[i]).to_multiset() =~= s.to_multiset());
}

/// A sift-down may stop once the held value bounds every child of the gap:
/// together with the untouched edges this closes the heap order everywhere.
proof fn lemma_down_done(l: Seq<u64>, h: int)
    requires
        l.len() <= max_len(),
        0 <= h < l.len(),
        heap_le_off(l, h),
        children_below_parent(l, h),
        h > 0 ==> l[h] <= l[parent_of(h as nat) as int],
        forall|i: int|
            #![trigger l[i]]
            1 <= i < l.len() && parent_of(i as nat) == h ==> l[i] <= l[h],
    ensures
        heap_le(l),
{
    assert forall|i: int| #![trigger l[i]] 1 <= i < l.len() implies l[i] <= l[parent_of(
        i as nat,
    ) as int] by {
        lemma_parent_of_range(i as nat);
    }
}

/// A gap whose child block starts past `end` (or whose layer is the last
/// supported one) has no children in range at all.
proof fn lemma_no_children_in_range(l: Seq<u64>, h: int, d: nat, g: nat)
    requires
        l.len() <= max_len(),
        0 <= h < l.len(),
        h == cum_base(d) + g,
        d <= 10,
        g < layer_size(d),
        d >= 10 || cum_base(d + 1) + g * pow2(d + 1) >= l.len(),
        heap_le_off(l, h),
        children_below_parent(l, h),
        h > 0 ==> l[h] <= l[parent_of(h as nat) as int],
    ensures
        heap_le(l),
{
    assert forall|i: int|
        #![trigger l[i]]
        1 <= i < l.len() && parent_of(i as nat) == h implies l[i] <= l[h] by {
        lemma_depth_of_range(i as nat);
        lemma_parent_to_child_block(i as nat, d, g);
        assert(false);
    }
    lemma_down_done(l, h);
}

/// One sift-down relocation: lifting the largest child `c` of the gap `h` into
/// the gap keeps every untouched edge ordered and moves the gap to `c`.
proof fn lemma_down_step(l: Seq<u64>, h: int, c: int)
    requires
        l.len() <= max_len(),
        0 <= h < l.len(),
        0 < c < l.len(),
        parent_of(c as nat) == h,
        heap_le_off(l, h),
        children_below_parent(l, h),
        h > 0 ==> l[h] <= l[parent_of(h as nat) as int],
        l[h] < l[c],
        forall|i: int|
            #![trigger l[i]]
            1 <= i < l.len() && parent_of(i as nat) == h ==> l[i] <= l[c],
    ensures
        ({
            let l2 = l.update(h, l[c]).update(c, l[h]);
            &&& heap_le_off(l2, c)
            &&& children_below_parent(l2, c)
            &&& l2[c] <= l2[parent_of(c as nat) as int]
            &&& l2.to_multiset() == l.to_multiset()
        }),
{
    let n = l.len() as int;
    let l2 = l.update(h, l[c]).update(c, l[h]);
    lemma_swap_multiset(l, h, c);
    lemma_parent_of_range(c as nat);
    if h > 0 {
        lemma_parent_of_range(h as nat);
    }
    assert forall|i: int|
        #![trigger l2[i]]
        1 <= i < n && i != c && parent_of(i as nat) != c implies l2[i] <= l2[parent_of(
        i as nat,
    ) as int] by {
        lemma_parent_of_range(i as nat);
        let pa = parent_of(i as nat) as int;
        if i == h {
            assert(l[c] <= l[pa]);
            assert(l2[i] == l[c] && l2[pa] == l[pa]);
        } else if pa == h {
            assert(l[i] <= l[c]);
            assert(l2[i] == l[i] && l2[pa] == l[c]);
        } else {
            assert(l[i] <= l[pa]);
            assert(l2[i] == l[i] && l2[pa] == l[pa]);
        }
    }
    assert forall|i: int|
        #![trigger l2[i]]
        1 <= i < n && parent_of(i as nat) == c implies l2[i] <= l2[parent_of(c as nat) as int] by {
        lemma_parent_of_range(i as nat);
        assert(l[i] <= l[c]);
        assert(l2[i] == l[i] && l2[h] == l[c]);
    }
    assert(l2[c] == l[h] && l2[h] == l[c]);
}

/// Shared facts for one sift-down step at depth `d`, sibling group `g`: the
/// child arity, the child block's bounds, and that all of it stays in range.
proof fn lemma_child_geometry(d: nat, g: nat)
    requires
        d <= 9,
        g < layer_size(d),
    ensures
        pow2(d + 1) == 2 * pow2(d),
        1 <= pow2(d) <= 0x200,
        pow2(d + 1) <= 0x400,
        g * pow2(d + 1) + pow2(d + 1) <= layer_size(d + 1),
        cum_base(d + 1) + layer_size(d + 1) == cum_base(d + 2),
        cum_base(d + 2) <= 0x8020101020844b,
{
    lemma2_to64();
    lemma_layer_values();
    lemma_pow2_adds(1, d);
    vstd::arithmetic::power2::lemma_pow2_pos(d);
    if d < 9 {
        lemma_pow2_strictly_increases(d, 9);
    }
    assert(layer_size(d + 1) == layer_size(d) * pow2(d + 1));
    lemma_mul_inequality(g as int, layer_size(d) as int - 1, pow2(d + 1) as int);
    lemma_mul_is_distributive_sub_other_way(pow2(d + 1) as int, layer_size(d) as int, 1);
    lemma_cum_base_mono(d + 2, 11);
}

/// One extraction: the departing value is the old root, one occurrence of it
/// leaves the multiset, and it bounds everything that stays behind.
pub open spec fn extraction_step(pre: Seq<u64>, post: Seq<u64>, v: u64) -> bool {
    &&& pre.len() == post.len() + 1
    &&& v == pre[0]
    &&& pre.to_multiset() == post.to_multiset().insert(v)
    &&& forall|i: int| 0 <= i < post.len() ==> post[i] <= v
}

/// Values leave the heap in non-increasing order: whatever one extraction
/// returns, the next extraction cannot return anything larger.
pub proof fn lemma_extraction_monotone(s0: Seq<u64>, s1: Seq<u64>, s2: Seq<u64>, v1: u64, v2: u64)
    requires
        extraction_step(s0, s1, v1),
        extraction_step(s1, s2, v2),
    ensures
        v2 <= v1,
{
    assert(s1[0] <= v1);
}

/// In a well-ordered heap every element is bounded by the root.
pub proof fn lemma_root_is_max(s: Seq<u64>, i: int)
    requires
        heap_le(s),
        s.len() <= max_len(),
        0 <= i < s.len(),
    ensures
        s[i] <= s[0],
    decreases i,
{
    if i > 0 {
        lemma_parent_of_range(i as nat);
        lemma_root_is_max(s, parent_of(i as nat) as int);
    }
}

/// Max heap which uses a squaring strategy for the number of children.
pub struct SqrHeap {
    data: Vec<u64>,
    ptr: LastPointer,
}

impl View for SqrHeap {
    type V = Seq<u64>;

    closed spec fn view(&self) -> Seq<u64> {
        self.data@
    }
}

impl SqrHeap {
    /// The position tracker, for stating that it stays in lockstep with the array.
    pub closed spec fn tracker(&self) -> LastPointer {
        self.ptr
    }

    /// Well-formedness: the tracker matches the array length and the max-heap
    /// order holds at every non-root index.
    pub open spec fn wf(&self) -> bool {
        &&& self.tracker().wf()
        &&& self.tracker().total() == self@.len()
        &&& heap_le(self@)
    }

    /// An empty heap.
    pub fn new() -> (r: SqrHeap)
        ensures
            r.wf(),
            r@.len() == 0,
    {
        SqrHeap { data: Vec::new(), ptr: LastPointer::new() }
    }

    /// The element at array index `i`.
    pub fn get(&self, i: usize) -> (r: u64)
        requires
            i < self@.len(),
        ensures
            r == self@[i as int],
    {
        self.data[i]
    }

    /// Append `t`, advance the tracker, and restore the heap order by sifting
    /// the new element up. Capacity is a hard ceiling, excluded by contract.
    pub fn push(&mut self, t: u64)
        requires
            old(self).wf(),
            old(self)@.len() < max_len(),
        ensures
            final(self).wf(),
            final(self)@.len() == old(self)@.len() + 1,
            final(self)@.to_multiset() == old(self)@.to_multiset().insert(t),
    {
        let ghost s0 = self.data@;
        let idx = self.data.len();
        self.data.push(t);
        self.ptr.inc();
        proof {
            broadcast use group_to_multiset_ensures;

            assert(self.data@ == s0.push(t));
            assert forall|i: int|
                #![trigger self.data@[i]]
                1 <= i < self.data@.len() && i != idx as int implies self.data@[i]
                <= self.data@[parent_of(i as nat) as int] by {
                lemma_total_le_max(self.ptr);
                lemma_parent_of_range(i as nat);
                assert(s0[i] <= s0[parent_of(i as nat) as int]);
            }
        }
        self.sift_up(0, idx);
    }

    /// The maximum, or the absent-value signal on an empty heap.
    /// Never mutates: repeated calls keep returning the same value.
    pub fn peek(&self) -> (r: Option<u64>)
        requires
            self.wf(),
        ensures
            r is Some <==> self@.len() > 0,
            self@.len() > 0 ==> r == Some(self@[0]),
            self@.len() > 0 ==> forall|i: int| 0 <= i < self@.len() ==> #[trigger] self@[i] <= self@[0],
    {
        if self.data.len() == 0 {
            None
        } else {
            proof {
                lemma_total_le_max(self.ptr);
                assert forall|i: int| 0 <= i < self@.len() implies #[trigger] self@[i] <= self@[0] by {
                    lemma_root_is_max(self@, i);
                }
            }
            Some(self.data[0])
        }
    }

    /// Sift the freshly appended element at `idx` up towards the root (floor
    /// `end`, always 0) until its parent is at least as large, relocating
    /// parents downward one write at a time; returns the final index.
    #[verifier::rlimit(60)]
    fn sift_up(&mut self, end: usize, idx: usize) -> (r: usize)
        requires
            end == 0,
            old(self).ptr.wf(),
            old(self).ptr.total() == old(self).data@.len(),
            idx + 1 == old(self).data@.len(),
            heap_le_except(old(self).data@, idx as int),
        ensures
            final(self).ptr == old(self).ptr,
            final(self).data@.len() == old(self).data@.len(),
            final(self).data@.to_multiset() == old(self).data@.to_multiset(),
            heap_le(final(self).data@),
            r < final(self).data@.len(),
            on_ancestor_chain(r as int, idx as int),
            final(self).data@[r as int] == old(self).data@[idx as int],
            forall|j: int|
                #![trigger final(self).data@[j]]
                0 <= j < old(self).data@.len() && !(on_ancestor_chain(j, idx as int) && r <= j)
                    ==> final(self).data@[j] == old(self).data@[j],
            forall|j: int|
                #![trigger final(self).data@[j]]
                on_ancestor_chain(j, idx as int) && r < j <= idx ==> final(self).data@[j] == old(
                    self,
                ).data@[parent_of(j as nat) as int],
    {
        proof {
            lemma_total_le_max(old(self).ptr);
        }
        let ghost orig = self.data@;
        let ghost ptr0 = self.ptr;
        let ghost n = self.data@.len() as int;
        let mut depth: u8 = self.ptr.depth;
        let mut base: u64 = self.ptr.base;
        let mut hole = Hole::new(&self.data, idx);
        proof {
            broadcast use group_to_multiset_ensures;

            assert(orig.update(idx as int, hole.elt) =~= orig);
            assert(ptr0.last_row_fill >= 1);
            assert(cum_base(depth as nat + 1) == cum_base(depth as nat) + layer_size(
                depth as nat,
            ));
            lemma_depth_of(idx as nat, depth as nat);
            let l0 = self.data@.update(idx as int, hole.elt);
            assert forall|i: int|
                #![trigger l0[i]]
                1 <= i < n && parent_of(i as nat) == idx as int implies l0[i] <= l0[parent_of(
                idx as nat,
            ) as int] by {
                lemma_parent_of_range(i as nat);
                assert(false);
            }
            assert(on_ancestor_chain(idx as int, idx as int));
            assert forall|j: int| #![trigger on_ancestor_chain(j, idx as int)]
                on_ancestor_chain(j, idx as int) implies j <= idx by {
                lemma_chain_le(j, idx as int);
            }
        }
        while hole.pos > end
            invariant
                end == 0,
                self.ptr == ptr0,
                self.data@.len() == n,
                n == orig.len(),
                idx + 1 == n,
                n <= max_len(),
                hole.pos < n,
                depth == depth_of(hole.pos as nat),
                depth <= MAX_DEPTH,
                base == cum_base(depth as nat),
                self.data@.update(hole.pos as int, hole.elt).to_multiset() == orig.to_multiset(),
                heap_le_except(self.data@.update(hole.pos as int, hole.elt), hole.pos as int),
                children_below_parent(self.data@.update(hole.pos as int, hole.elt), hole.pos as int),
                hole.elt == orig[idx as int],
                on_ancestor_chain(hole.pos as int, idx as int),
                forall|j: int|
                    #![trigger self.data@[j]]
                    0 <= j < n && !(on_ancestor_chain(j, idx as int) && hole.pos <= j)
                        ==> self.data@[j] == orig[j],
                forall|j: int|
                    #![trigger self.data@[j]]
                    on_ancestor_chain(j, idx as int) && hole.pos < j <= idx ==> self.data@[j]
                        == orig[parent_of(j as nat) as int],
            ensures
                self.ptr == ptr0,
                self.data@.len() == n,
                hole.pos < n,
                self.data@.update(hole.pos as int, hole.elt).to_multiset() == orig.to_multiset(),
                heap_le(self.data@.update(hole.pos as int, hole.elt)),
                hole.elt == orig[idx as int],
                on_ancestor_chain(hole.pos as int, idx as int),
                forall|j: int|
                    #![trigger self.data@[j]]
                    0 <= j < n && !(on_ancestor_chain(j, idx as int) && hole.pos <= j)
                        ==> self.data@[j] == orig[j],
                forall|j: int|
                    #![trigger self.data@[j]]
                    on_ancestor_chain(j, idx as int) && hole.pos < j <= idx ==> self.data@[j]
                        == orig[parent_of(j as nat) as int],
            decreases hole.pos,
        {
            proof {
                lemma_depth_of_range(hole.pos as nat);
                lemma_parent_of_range(hole.pos as nat);
            }
            let (b, o) = parent_index(hole.pos as u64, depth, base);
            let parent = (b + o) as usize;
            proof {
                assert(parent == parent_of(hole.pos as nat));
            }
            if hole.curr() <= self.data[parent] {
                proof {
                    let l = self.data@.update(hole.pos as int, hole.elt);
                    assert forall|i: int| #![trigger l[i]] 1 <= i < l.len() implies l[i]
                        <= l[parent_of(i as nat) as int] by {
                        if i == hole.pos as int {
                            assert(l[parent as int] == self.data@[parent as int]);
                        }
                    }
                }
                break ;
            }
            let ghost pre = self.data@;
            let ghost l = self.data@.update(hole.pos as int, hole.elt);
            let ghost ppos = hole.pos as int;
            let ghost pi = parent as int;
            hole.move_to(&mut self.data, parent);
            depth = depth - 1;
            base = b;
            proof {
                let l2 = self.data@.update(pi, hole.elt);
                assert(l2 =~= l.update(ppos, l[pi]).update(pi, l[ppos]));
                lemma_swap_multiset(l, ppos, pi);
                assert(l2.to_multiset() == orig.to_multiset());
                assert(l[pi] < hole.elt);
                if pi > 0 {
                    lemma_parent_of_range(pi as nat);
                }
                assert forall|i: int|
                    #![trigger l2[i]]
                    1 <= i < n && i != pi implies l2[i] <= l2[parent_of(i as nat) as int] by {
                    lemma_parent_of_range(i as nat);
                    let pa = parent_of(i as nat) as int;
                    if i == ppos {
                        assert(l2[i] == l[pi]);
                        assert(pa == pi);
                    } else if pa == ppos {
                        assert(l[i] <= l[pi]);
                        assert(l2[i] == l[i]);
                    } else if pa == pi {
                        assert(l[i] <= l[pa]);
                        assert(l2[i] == l[i]);
                        assert(l2[pa] == hole.elt);
                    } else {
                        assert(l[i] <= l[pa]);
                        assert(l2[i] == l[i] && l2[pa] == l[pa]);
                    }
                }
                if pi > 0 {
                    let gp = parent_of(pi as nat) as int;
                    assert forall|i: int|
                        #![trigger l2[i]]
                        1 <= i < n && parent_of(i as nat) == pi implies l2[i] <= l2[gp] by {
                        lemma_parent_of_range(i as nat);
                        assert(l[pi] <= l[gp]);
                        if i == ppos {
                            assert(l2[i] == l[pi]);
                        } else {
                            assert(l[i] <= l[pi]);
                            assert(l2[i] == l[i]);
                        }
                        assert(l2[gp] == l[gp]);
                    }
                }
                lemma_chain_step(idx as int, ppos);
                assert(on_ancestor_chain(pi, idx as int));
                assert(on_ancestor_chain(ppos, idx as int));
                assert(self.data@ == pre.update(ppos, pre[pi]));
                assert forall|j: int|
                    #![trigger self.data@[j]]
                    0 <= j < n && !(on_ancestor_chain(j, idx as int) && pi <= j) implies self.data@[j]
                    == orig[j] by {
                    assert(j != ppos);
                    assert(self.data@[j] == pre[j]);
                }
                assert forall|j: int|
                    #![trigger self.data@[j]]
                    on_ancestor_chain(j, idx as int) && pi < j <= idx implies self.data@[j] == orig[
                    parent_of(j as nat) as int] by {
                    if j == ppos {
                        assert(self.data@[ppos] == pre[pi]);
                        assert(pre[pi] == orig[pi]);
                    } else if j > ppos {
                        assert(self.data@[j] == pre[j]);
                    } else {
                        lemma_chain_linear(j, ppos, idx as int);
                        lemma_chain_le(j, pi);
                        assert(false);
                    }
                }
            }
        }
        let r = hole.pos;
        let ghost lfin = self.data@.update(hole.pos as int, hole.elt);
        let ghost dpre = self.data@;
        hole.fill(&mut self.data);
        proof {
            assert(self.data@ == lfin);
            assert(self.data@[r as int] == orig[idx as int]);
            assert forall|j: int|
                #![trigger self.data@[j]]
                0 <= j < n && !(on_ancestor_chain(j, idx as int) && r <= j) implies self.data@[j]
                == orig[j] by {
                assert(j != r as int);
                assert(self.data@[j] == dpre[j]);
            }
            assert forall|j: int|
                #![trigger self.data@[j]]
                on_ancestor_chain(j, idx as int) && r < j <= idx implies self.data@[j] == orig[
                parent_of(j as nat) as int] by {
                assert(self.data@[j] == dpre[j]);
            }
        }
        r
    }

    /// Remove and return the maximum: swap the last element into the root,
    /// retreat the tracker, and sift the root back down. On an empty heap,
    /// the absent-value signal, with nothing changed.
    pub fn pop(&mut self) -> (r: Option<u64>)
        requires
            old(self).wf(),
        ensures
            final(self).wf(),
            old(self)@.len() == 0 ==> r is None && final(self)@ == old(self)@
                && final(self).tracker() == old(self).tracker(),
            old(self)@.len() > 0 ==> r == Some(old(self)@[0]) && extraction_step(
                old(self)@,
                final(self)@,
                old(self)@[0],
            ),
    {
        proof {
            broadcast use group_to_multiset_ensures, group_multiset_axioms;

            lemma_total_le_max(self.ptr);
        }
        if self.data.len() == 0 {
            return None;
        }
        let ghost s0 = self.data@;
        let ghost n = self.data@.len() as int;
        let tail = self.data.pop().unwrap();
        self.ptr.dec();
        if self.data.len() > 0 {
            let root = self.data[0];
            self.data[0] = tail;
            let ghost s2 = self.data@;
            proof {
                assert(s2 == s0.subrange(0, n - 1).update(0, tail));
                assert forall|i: int|
                    #![trigger s2[i]]
                    1 <= i < s2.len() && i != 0 && parent_of(i as nat) != 0 implies s2[i]
                    <= s2[parent_of(i as nat) as int] by {
                    lemma_parent_of_range(i as nat);
                    assert(s0[i] <= s0[parent_of(i as nat) as int]);
                }
            }
            self.sift_down_root(self.data.len());
            proof {
                let f = self.data@;
                assert(s0.subrange(0, n - 1) =~= s0.remove(n - 1));
                assert(s0.remove(n - 1).to_multiset() == s0.to_multiset().remove(tail));
                assert(s2.to_multiset() == s0.to_multiset().remove(tail).insert(tail).remove(
                    s0[0],
                ));
                assert(s0.contains(tail));
                assert(s0.contains(s0[0]));
                assert(f.to_multiset().insert(s0[0]) =~= s0.to_multiset());
                assert forall|i: int| 0 <= i < f.len() implies f[i] <= s0[0] by {
                    assert(f.contains(f[i]));
                    assert(f.to_multiset().count(f[i]) > 0);
                    assert(s0.to_multiset().count(f[i]) > 0);
                    assert(s0.contains(f[i]));
                    let j = choose|j: int| 0 <= j < s0.len() && s0[j] == f[i];
                    lemma_root_is_max(s0, j);
                }
            }
            Some(root)
        } else {
            proof {
                assert(n == 1);
                assert(tail == s0[0]);
                assert(self.data@ =~= Seq::<u64>::empty());
                assert(s0 =~= Seq::<u64>::empty().push(s0[0]));
                assert(s0.to_multiset() == Seq::<u64>::empty().to_multiset().insert(s0[0]));
                assert(self.data@.to_multiset() == Seq::<u64>::empty().to_multiset());
            }
            Some(tail)
        }
    }

    /// Sift the replaced root down: at each step scan the gap's contiguous
    /// child block (clipped to `end`) for its maximum, stop once the held
    /// value is at least that, else relocate the maximum child up one write;
    /// returns the final index.
    #[verifier::rlimit(100)]
    fn sift_down_root(&mut self, end: usize) -> (r: usize)
        requires
            end == old(self).data@.len(),
            1 <= end,
            end <= max_len(),
            heap_le_off(old(self).data@, 0),
        ensures
            final(self).ptr == old(self).ptr,
            final(self).data@.len() == old(self).data@.len(),
            final(self).data@.to_multiset() == old(self).data@.to_multiset(),
            heap_le(final(self).data@),
            r < final(self).data@.len(),
            on_ancestor_chain(0, r as int),
            final(self).data@[r as int] == old(self).data@[0],
            forall|j: int|
                #![trigger final(self).data@[j]]
                0 <= j < old(self).data@.len() && !on_ancestor_chain(j, r as int)
                    ==> final(self).data@[j] == old(self).data@[j],
            forall|c: int|
                #![trigger old(self).data@[c]]
                on_ancestor_chain(c, r as int) && 1 <= c ==> final(self).data@[parent_of(
                    c as nat,
                ) as int] == old(self).data@[c],
    {
        let ghost orig = self.data@;
        let ghost ptr0 = self.ptr;
        let ghost n = self.data@.len() as int;
        let mut depth: u8 = 0;
        let mut curr_sibling: u64 = 0;
        let mut cbase: u64 = 1;
        let mut hole = Hole::new(&self.data, 0);
        proof {
            broadcast use group_to_multiset_ensures;

            lemma_layer_values();
            assert(orig.update(0, hole.elt) =~= orig);
            lemma_depth_of(0, 0);
            assert(on_ancestor_chain(0, 0));
            assert forall|c: int| #![trigger on_ancestor_chain(c, 0)]
                on_ancestor_chain(c, 0) implies c == 0 by {}
        }
        loop
            invariant
                self.ptr == ptr0,
                self.data@.len() == n,
                n == orig.len(),
                1 <= n <= max_len(),
                end == n,
                hole.pos < n,
                depth <= MAX_DEPTH,
                depth == depth_of(hole.pos as nat),
                curr_sibling < layer_size(depth as nat),
                hole.pos == cum_base(depth as nat) + curr_sibling,
                cbase == cum_base(depth as nat + 1),
                self.data@.update(hole.pos as int, hole.elt).to_multiset() == orig.to_multiset(),
                heap_le_off(self.data@.update(hole.pos as int, hole.elt), hole.pos as int),
                children_below_parent(
                    self.data@.update(hole.pos as int, hole.elt),
                    hole.pos as int,
                ),
                hole.pos > 0 ==> hole.elt <= self.data@.update(hole.pos as int, hole.elt)[parent_of(
                    hole.pos as nat,
                ) as int],
                hole.elt == orig[0],
                on_ancestor_chain(0, hole.pos as int),
                forall|j: int|
                    #![trigger self.data@[j]]
                    0 <= j < n && !on_ancestor_chain(j, hole.pos as int) ==> self.data@[j]
                        == orig[j],
                forall|c: int|
                    #![trigger orig[c]]
                    on_ancestor_chain(c, hole.pos as int) && 1 <= c ==> self.data@[parent_of(
                        c as nat,
                    ) as int] == orig[c],
            ensures
                self.ptr == ptr0,
                self.data@.len() == n,
                hole.pos < n,
                self.data@.update(hole.pos as int, hole.elt).to_multiset() == orig.to_multiset(),
                heap_le(self.data@.update(hole.pos as int, hole.elt)),
                hole.elt == orig[0],
                on_ancestor_chain(0, hole.pos as int),
                forall|j: int|
                    #![trigger self.data@[j]]
                    0 <= j < n && !on_ancestor_chain(j, hole.pos as int) ==> self.data@[j]
                        == orig[j],
                forall|c: int|
                    #![trigger orig[c]]
                    on_ancestor_chain(c, hole.pos as int) && 1 <= c ==> self.data@[parent_of(
                        c as nat,
                    ) as int] == orig[c],
            decreases MAX_DEPTH as int - depth as int,
        {
            let ghost l = self.data@.update(hole.pos as int, hole.elt);
            let ghost d = depth as nat;
            let ghost g = curr_sibling as nat;
            if depth >= MAX_DEPTH {
                proof {
                    assert(l[hole.pos as int] == hole.elt);
                    lemma_no_children_in_range(l, hole.pos as int, d, g);
                }
                break ;
            }
            let num: u64 = 2u64 << (depth as u64);
            proof {
                lemma_child_geometry(d, g);
                lemma_u64_shl_is_mul(2u64, depth as u64);
                assert(num == pow2(d + 1));
            }
            let child64: u64 = cbase + curr_sibling * num;
            proof {
                assert(child64 == cum_base(d + 1) + g * pow2(d + 1));
            }
            if child64 >= end as u64 {
                proof {
                    assert(l[hole.pos as int] == hole.elt);
                    lemma_no_children_in_range(l, hole.pos as int, d, g);
                }
                break ;
            }
            let child = child64 as usize;
            let rest = end - child;
            let cnt: usize = if (num as usize) < rest {
                num as usize
            } else {
                rest
            };
            proof {
                assert(cnt >= 1);
                assert(hole.pos < child);
            }
            let mut off: usize = 0;
            let mut j: usize = 1;
            while j < cnt
                invariant
                    1 <= j <= cnt,
                    off < j,
                    cnt <= num,
                    child + cnt <= end,
                    end == n,
                    self.data@.len() == n,
                    forall|k: int|
                        0 <= k < j ==> #[trigger] self.data@[child + k] <= self.data@[child
                            + off as int],
                decreases cnt - j,
            {
                if self.data[child + j] > self.data[child + off] {
                    off = j;
                }
                j = j + 1;
            }
            let best = child + off;
            proof {
                assert forall|i: int|
                    #![trigger l[i]]
                    1 <= i < n && parent_of(i as nat) == hole.pos as int implies l[i]
                    <= l[best as int] by {
                    lemma_depth_of_range(i as nat);
                    lemma_parent_to_child_block(i as nat, d, g);
                    assert(child <= i < child + cnt);
                    let k = i - child;
                    assert(self.data@[child + k] <= self.data@[child + off as int]);
                }
            }
            if hole.curr() >= self.data[best] {
                proof {
                    assert(l[best as int] == self.data@[best as int]);
                    lemma_down_done(l, hole.pos as int);
                }
                break ;
            }
            let ghost ppos = hole.pos as int;
            let ghost ci = best as int;
            proof {
                lemma_child_of(d, g, off as nat);
                assert(parent_of(ci as nat) == ppos);
                assert(depth_of(ci as nat) == d + 1);
                assert(l[ppos] == hole.elt);
                assert(l[ci] == self.data@[ci]);
                lemma_down_step(l, ppos, ci);
            }
            let ghost pre = self.data@;
            hole.move_to(&mut self.data, best);
            curr_sibling = curr_sibling * num + off as u64;
            depth = depth + 1;
            proof {
                lemma_cum_base_mono(depth as nat + 1, 11);
            }
            cbase = cbase + base_layer_lookup(depth);
            proof {
                let l2x = l.update(ppos, l[ci]).update(ci, l[ppos]);
                assert(self.data@.update(ci, hole.elt) =~= l2x);
                assert(self.data@.update(ci, hole.elt).to_multiset() == orig.to_multiset());
                assert(self.data@ == pre.update(ppos, pre[ci]));
                assert(on_ancestor_chain(0, ci));
                assert forall|j: int|
                    #![trigger self.data@[j]]
                    0 <= j < n && !on_ancestor_chain(j, ci) implies self.data@[j] == orig[j] by {
                    assert(!on_ancestor_chain(j, ppos));
                    assert(j != ppos);
                    assert(self.data@[j] == pre[j]);
                }
                assert forall|c: int|
                    #![trigger orig[c]]
                    on_ancestor_chain(c, ci) && 1 <= c implies self.data@[parent_of(
                    c as nat,
                ) as int] == orig[c] by {
                    if c == ci {
                        if on_ancestor_chain(ci, ppos) {
                            lemma_chain_le(ci, ppos);
                        }
                        assert(pre[ci] == orig[ci]);
                        assert(self.data@[ppos] == pre[ci]);
                    } else {
                        assert(on_ancestor_chain(c, ppos));
                        lemma_chain_le(c, ppos);
                        lemma_parent_of_range(c as nat);
                        assert(parent_of(c as nat) != ppos);
                        assert(self.data@[parent_of(c as nat) as int] == pre[parent_of(
                            c as nat,
                        ) as int]);
                    }
                }
            }
        }
        let r = hole.pos;
        let ghost lfin = self.data@.update(hole.pos as int, hole.elt);
        let ghost dpre = self.data@;
        hole.fill(&mut self.data);
        proof {
            assert(self.data@ == lfin);
            assert(self.data@[r as int] == orig[0]);
            assert forall|j: int|
                #![trigger self.data@[j]]
                0 <= j < n && !on_ancestor_chain(j, r as int) implies self.data@[j] == orig[j] by {
                assert(j != r as int);
                assert(self.data@[j] == dpre[j]);
            }
            assert forall|c: int|
                #![trigger orig[c]]
                on_ancestor_chain(c, r as int) && 1 <= c implies self.data@[parent_of(
                c as nat,
            ) as int] == orig[c] by {
                lemma_chain_le(c, r as int);
                lemma_parent_of_range(c as nat);
                assert(parent_of(c as nat) != r as int);
                assert(self.data@[parent_of(c as nat) as int] == dpre[parent_of(c as nat) as int]);
            }
        }
        r
    }
}

} // verus!
