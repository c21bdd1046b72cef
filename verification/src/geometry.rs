//! Layer geometry of the squaring tree: layer sizes, cumulative base offsets,
//! and the parent/child index formulas for the variable-arity implicit tree.
//!
//! Layer `d` holds `2^(d(d+1)/2)` indices (1, 2, 8, 64, 1024, ...), and every
//! node at depth `d` owns `2^(d+1)` contiguous children in layer `d + 1`.
//! Only depths `0..=10` are supported: layer 11 would push indices past the
//! 64-bit range, so running out of the table is a hard capacity ceiling.

use vstd::prelude::*;

verus! {

use vstd::arithmetic::div_mod::{
    lemma_div_pos_is_pos,
    lemma_fundamental_div_mod,
    lemma_fundamental_div_mod_converse_div,
    lemma_multiply_divide_lt,
};
use vstd::arithmetic::mul::{
    lemma_mul_inequality,
    lemma_mul_is_commutative,
    lemma_mul_is_distributive_sub_other_way,
    lemma_mul_strictly_positive,
};
use vstd::arithmetic::power2::{lemma2_to64, lemma2_to64_rest, lemma_pow2_adds, lemma_pow2_pos, pow2};
use vstd::bits::{lemma_u64_shl_is_mul, lemma_u64_shr_is_div};

/// Deepest layer of the supported table; layer 11 would overflow 64-bit indices.
pub const MAX_DEPTH: u8 = 10;

/// Number of indices in layer `d`: each of the `layer_size(d - 1)` nodes of the
/// layer above owns `pow2(d)` children, giving `2^(d(d+1)/2)` in closed form.
pub open spec fn layer_size(d: nat) -> nat
    decreases d,
{
    if d == 0 {
        1
    } else {
        layer_size((d - 1) as nat) * pow2(d)
    }
}

/// First array index of layer `d`: the total size of all shallower layers.
pub open spec fn cum_base(d: nat) -> nat
    decreases d,
{
    if d == 0 {
        0
    } else {
        cum_base((d - 1) as nat) + layer_size((d - 1) as nat)
    }
}

/// Hard capacity ceiling: one more element than this would start layer 11.
pub open spec fn max_len() -> nat {
    cum_base(MAX_DEPTH as nat + 1)
}

pub open spec fn depth_of_from(i: nat, d: nat) -> nat
    decreases 10 - d,
{
    if d >= 10 {
        10
    } else if i < cum_base(d + 1) {
        d
    } else {
        depth_of_from(i, d + 1)
    }
}

/// Depth of the layer holding index `i` (meaningful for `i < max_len()`).
pub open spec fn depth_of(i: nat) -> nat {
    depth_of_from(i, 0)
}

/// Index of the parent of index `i` (meaningful for `1 <= i < max_len()`):
/// every run of `pow2(depth_of(i))` consecutive same-layer indices shares one
/// parent in the layer above.
pub open spec fn parent_of(i: nat) -> nat {
    let d = depth_of(i);
    (cum_base((d - 1) as nat) + (i - cum_base(d)) / pow2(d) as int) as nat
}

/// Every layer holds at least one index.
pub proof fn lemma_layer_size_pos(d: nat)
    ensures
        layer_size(d) >= 1,
    decreases d,
{
    if d > 0 {
        lemma_layer_size_pos((d - 1) as nat);
        lemma_pow2_pos(d);
        lemma_mul_strictly_positive(layer_size((d - 1) as nat) as int, pow2(d) as int);
    }
}

/// `cum_base` never decreases with depth.
pub proof fn lemma_cum_base_mono(d1: nat, d2: nat)
    requires
        d1 <= d2,
    ensures
        cum_base(d1) <= cum_base(d2),
    decreases d2 - d1,
{
    if d1 < d2 {
        lemma_cum_base_mono(d1, (d2 - 1) as nat);
    }
}

/// The concrete sizes and bases of the eleven supported layers.
pub proof fn lemma_layer_values()
    ensures
        layer_size(0) == 1,
        layer_size(1) == 2,
        layer_size(2) == 8,
        layer_size(3) == 64,
        layer_size(4) == 0x400,
        layer_size(5) == 0x8000,
        layer_size(6) == 0x200000,
        layer_size(7) == 0x10000000,
        layer_size(8) == 0x1000000000,
        layer_size(9) == 0x200000000000,
        layer_size(10) == 0x80000000000000,
        cum_base(0) == 0,
        cum_base(1) == 1,
        cum_base(2) == 3,
        cum_base(3) == 11,
        cum_base(4) == 75,
        cum_base(5) == 0x44b,
        cum_base(6) == 0x844b,
        cum_base(7) == 0x20844b,
        cum_base(8) == 0x1020844b,
        cum_base(9) == 0x101020844b,
        cum_base(10) == 0x20101020844b,
        cum_base(11) == 0x8020101020844b,
        max_len() == 0x8020101020844b,
{
    lemma2_to64();
    assert(cum_base(0) == 0);
    assert(layer_size(0) == 1);
    assert(layer_size(1) == 2);
    assert(layer_size(2) == 8);
    assert(layer_size(3) == 64);
    assert(layer_size(4) == 0x400);
    assert(layer_size(5) == 0x8000);
    assert(layer_size(6) == 0x200000);
    assert(layer_size(7) == 0x10000000);
    assert(layer_size(8) == 0x1000000000);
    assert(layer_size(9) == 0x200000000000);
    assert(layer_size(10) == 0x80000000000000);
    assert(cum_base(1) == 1);
    assert(cum_base(2) == 3);
    assert(cum_base(3) == 11);
    assert(cum_base(4) == 75);
    assert(cum_base(5) == 0x44b);
    assert(cum_base(6) == 0x844b);
    assert(cum_base(7) == 0x20844b);
    assert(cum_base(8) == 0x1020844b);
    assert(cum_base(9) == 0x101020844b);
    assert(cum_base(10) == 0x20101020844b);
    assert(cum_base(11) == 0x8020101020844b);
}

proof fn lemma_depth_of_from_exact(i: nat, e: nat, d: nat)
    requires
        e <= d,
        d <= 10,
        cum_base(d) <= i,
        d < 10 ==> i < cum_base(d + 1),
    ensures
        depth_of_from(i, e) == d,
    decreases d - e,
{
    if e < d {
        lemma_cum_base_mono(e + 1, d);
        lemma_depth_of_from_exact(i, e + 1, d);
    }
}

/// An index between `cum_base(d)` and `cum_base(d + 1)` lies in layer `d`.
pub proof fn lemma_depth_of(i: nat, d: nat)
    requires
        d <= 10,
        cum_base(d) <= i,
        d < 10 ==> i < cum_base(d + 1),
    ensures
        depth_of(i) == d,
{
    lemma_depth_of_from_exact(i, 0, d);
}

proof fn lemma_depth_of_from_range(i: nat, e: nat)
    requires
        e <= 10,
        cum_base(e) <= i,
        i < cum_base(11),
    ensures
        e <= depth_of_from(i, e) <= 10,
        cum_base(depth_of_from(i, e)) <= i,
        i < cum_base(depth_of_from(i, e) + 1),
    decreases 10 - e,
{
    if e < 10 && i >= cum_base(e + 1) {
        lemma_depth_of_from_range(i, e + 1);
    }
}

/// Every in-range index lies inside its layer's bounds.
pub proof fn lemma_depth_of_range(i: nat)
    requires
        i < max_len(),
    ensures
        depth_of(i) <= 10,
        cum_base(depth_of(i)) <= i,
        i < cum_base(depth_of(i) + 1),
{
    lemma_depth_of_from_range(i, 0);
}

/// The parent of an in-range non-root index lies one layer up, strictly below it.
pub proof fn lemma_parent_of_range(i: nat)
    requires
        1 <= i < max_len(),
    ensures
        1 <= depth_of(i) <= 10,
        cum_base((depth_of(i) - 1) as nat) <= parent_of(i),
        parent_of(i) < cum_base(depth_of(i)),
        depth_of(parent_of(i)) == (depth_of(i) - 1) as nat,
        parent_of(i) < i,
{
    lemma_depth_of_range(i);
    let d = depth_of(i);
    if d == 0 {
        assert(cum_base(1) == 1);
    }
    let off = (i - cum_base(d)) as int;
    lemma_pow2_pos(d);
    let q = off / pow2(d) as int;
    lemma_div_pos_is_pos(off, pow2(d) as int);
    assert(layer_size(d) == layer_size((d - 1) as nat) * pow2(d));
    assert(off < layer_size((d - 1) as nat) * pow2(d));
    assert(layer_size((d - 1) as nat) * pow2(d) == pow2(d) * layer_size((d - 1) as nat)) by {
        lemma_mul_is_commutative(layer_size((d - 1) as nat) as int, pow2(d) as int);
    }
    lemma_multiply_divide_lt(off, pow2(d) as int, layer_size((d - 1) as nat) as int);
    assert(q < layer_size((d - 1) as nat));
    assert(parent_of(i) == cum_base((d - 1) as nat) + q);
    assert(parent_of(i) < cum_base((d - 1) as nat) + layer_size((d - 1) as nat));
    assert(parent_of(i) < cum_base(d));
    lemma_depth_of(parent_of(i), (d - 1) as nat);
}

/// Whether `j` is `i` itself or one of its transitive parents: the ancestor
/// chain that a sift walks between the root and index `i`.
pub open spec fn on_ancestor_chain(j: int, i: int) -> bool
    decreases i,
{
    if j == i {
        true
    } else if i <= 0 {
        false
    } else {
        let p = parent_of(i as nat) as int;
        if 0 <= p < i {
            on_ancestor_chain(j, p)
        } else {
            false
        }
    }
}

/// Chain members never exceed the chain's head.
pub proof fn lemma_chain_le(j: int, i: int)
    requires
        on_ancestor_chain(j, i),
    ensures
        j <= i,
    decreases i,
{
    if j != i {
        lemma_chain_le(j, parent_of(i as nat) as int);
    }
}

/// The ancestor chain is linear: of two members, the smaller lies on the
/// chain of the larger.
pub proof fn lemma_chain_linear(j: int, k: int, i: int)
    requires
        on_ancestor_chain(j, i),
        on_ancestor_chain(k, i),
        j <= k,
    ensures
        on_ancestor_chain(j, k),
    decreases i,
{
    if k != i {
        lemma_chain_le(k, i);
        if j == i {
            assert(false);
        }
        lemma_chain_linear(j, k, parent_of(i as nat) as int);
    }
}

/// Climbing one parent step from a chain member stays on the chain.
pub proof fn lemma_chain_step(i: int, pos: int)
    requires
        on_ancestor_chain(pos, i),
        pos >= 1,
        0 <= parent_of(pos as nat) < pos,
    ensures
        on_ancestor_chain(parent_of(pos as nat) as int, i),
    decreases i,
{
    if pos == i {
        assert(on_ancestor_chain(parent_of(pos as nat) as int, parent_of(pos as nat) as int));
    } else {
        lemma_chain_step(parent_of(i as nat) as int, pos);
    }
}

/// The `k`-th child of the node at layer `d`, sibling group `g`, sits in layer
/// `d + 1` at offset `g * pow2(d + 1) + k`, and points back to that node.
pub proof fn lemma_child_of(d: nat, g: nat, k: nat)
    requires
        d <= 9,
        g < layer_size(d),
        k < pow2(d + 1),
    ensures
        cum_base(d + 1) + g * pow2(d + 1) + k < cum_base(d + 2),
        depth_of((cum_base(d + 1) + g * pow2(d + 1) + k) as nat) == d + 1,
        parent_of((cum_base(d + 1) + g * pow2(d + 1) + k) as nat) == cum_base(d) + g,
{
    let p = pow2(d + 1) as int;
    lemma_pow2_pos(d + 1);
    let c = cum_base(d + 1) + g * p + k;
    lemma_mul_inequality(g as int, layer_size(d) as int - 1, p);
    lemma_mul_is_distributive_sub_other_way(p, layer_size(d) as int, 1);
    assert(layer_size(d + 1) == layer_size(d) * pow2(d + 1));
    assert(g * p + k < layer_size(d + 1));
    assert(c < cum_base(d + 2));
    lemma_depth_of(c as nat, d + 1);
    lemma_fundamental_div_mod_converse_div(c - cum_base(d + 1), p, g as int, k as int);
    assert((c - cum_base(d + 1)) / p == g);
}

/// Conversely: an in-range index whose parent is the node at layer `d`, sibling
/// group `g`, lies inside that node's contiguous child block.
pub proof fn lemma_parent_to_child_block(c: nat, d: nat, g: nat)
    requires
        1 <= c < max_len(),
        d <= 10,
        g < layer_size(d),
        parent_of(c) == cum_base(d) + g,
    ensures
        depth_of(c) == d + 1,
        cum_base(d + 1) + g * pow2(d + 1) <= c,
        c < cum_base(d + 1) + g * pow2(d + 1) + pow2(d + 1),
{
    lemma_parent_of_range(c);
    lemma_depth_of_range(c);
    let e = depth_of(c);
    if ((e - 1) as nat) < d {
        lemma_cum_base_mono(e, d);
        assert(parent_of(c) < cum_base(e));
        assert(false);
    }
    if ((e - 1) as nat) > d {
        lemma_cum_base_mono(d + 1, (e - 1) as nat);
        assert(cum_base(d) + g < cum_base(d + 1));
        assert(false);
    }
    assert(e == d + 1);
    let p = pow2(e) as int;
    lemma_pow2_pos(e);
    let off = (c - cum_base(e)) as int;
    let q = off / p;
    lemma_div_pos_is_pos(off, p);
    assert(parent_of(c) == cum_base(d) + q);
    assert(cum_base(d) + q == cum_base(d) + g);
    assert(q == g);
    lemma_fundamental_div_mod(off, p);
    vstd::arithmetic::div_mod::lemma_mod_bound(off, p);
    assert(off == p * (off / p) + off % p);
    assert(g * p <= off < g * p + p) by {
        assert(p * q == q * p) by (nonlinear_arith);
    }
}

/// Size of layer `d`, by the closed form `1 << (d(d+1)/2)`.
///
/// Asking for a layer past `MAX_DEPTH` is a capacity violation, excluded by
/// contract rather than wrapped.
pub fn base_layer(d: usize) -> (r: u64)
    requires
        d <= MAX_DEPTH as usize,
    ensures
        r == layer_size(d as nat),
{
    proof {
        assert(d * d + d <= 110) by (nonlinear_arith)
            requires
                d <= 10,
        ;
    }
    let e: u64 = ((d * d + d) / 2) as u64;
    proof {
        lemma_layer_values();
        lemma2_to64();
        lemma2_to64_rest();
        if d == 0 {
            assert(pow2(0) == layer_size(0));
        } else if d == 1 {
            assert(pow2(1) == layer_size(1));
        } else if d == 2 {
            assert(pow2(3) == layer_size(2));
        } else if d == 3 {
            assert(pow2(6) == layer_size(3));
        } else if d == 4 {
            assert(pow2(10) == layer_size(4));
        } else if d == 5 {
            assert(pow2(15) == layer_size(5));
        } else if d == 6 {
            assert(pow2(21) == layer_size(6));
        } else if d == 7 {
            assert(pow2(28) == layer_size(7));
        } else if d == 8 {
            assert(pow2(36) == layer_size(8));
        } else if d == 9 {
            assert(pow2(45) == layer_size(9));
        } else {
            assert(pow2(55) == layer_size(10));
        }
        assert(e <= 55);
        lemma_u64_shl_is_mul(1, e);
    }
    1u64 << e
}

/// Size of layer `d`; the table-backed entry point used by the heap itself.
pub fn base_layer_lookup(d: u8) -> (r: u64)
    requires
        d <= MAX_DEPTH,
    ensures
        r == layer_size(d as nat),
{
    base_layer(d as usize)
}

/// First array index of layer `d`: the sum of the shallower layers' sizes.
pub fn cumulative_base(d: u8) -> (r: u64)
    requires
        d <= MAX_DEPTH + 1,
    ensures
        r == cum_base(d as nat),
{
    let mut acc: u64 = 0;
    let mut k: u8 = 0;
    while k < d
        invariant
            k <= d,
            d <= 11,
            acc == cum_base(k as nat),
        decreases d - k,
    {
        proof {
            lemma_layer_values();
            lemma_cum_base_mono(k as nat + 1, 11);
        }
        acc = acc + base_layer_lookup(k);
        k = k + 1;
    }
    acc
}

/// Parent base and sibling offset for index `i`, given its precomputed layer
/// depth and base; the parent index is the sum of the two results.
///
/// Index 0 has no parent, so `depth >= 1` is a contract obligation.
pub fn parent_index(i: u64, depth: u8, base: u64) -> (r: (u64, u64))
    requires
        1 <= depth <= MAX_DEPTH,
        base == cum_base(depth as nat),
        base <= i,
        i < cum_base(depth as nat + 1),
    ensures
        r.0 == cum_base((depth - 1) as nat),
        r.1 < layer_size((depth - 1) as nat),
        r.0 + r.1 == parent_of(i as nat),
{
    proof {
        let d = depth as nat;
        lemma_cum_base_mono(d + 1, 11);
        lemma_layer_values();
        lemma_depth_of(i as nat, d);
        lemma_parent_of_range(i as nat);
        lemma_u64_shr_is_div((i - base) as u64, depth as u64);
        assert(cum_base(d) == cum_base((d - 1) as nat) + layer_size((d - 1) as nat));
    }
    let offset = i - base;
    let sibling_num = offset >> (depth as u64);
    let prev_base = base - base_layer_lookup(depth - 1);
    (prev_base, sibling_num)
}

} // verus!
