//! How an index finds its way down a trie of a given bit width.

use vstd::arithmetic::power2::{
    lemma2_to64, lemma2_to64_rest, lemma_pow2_adds, lemma_pow2_pos, lemma_pow2_strictly_increases,
    pow2,
};
use vstd::bits::{lemma_u64_pow2_no_overflow, lemma_u64_shl_is_mul, lemma_usize_shl_is_mul};
use vstd::prelude::*;

verus! {

/// The bit width of a trie that names none.
pub const DEFAULT_BIT_WIDTH: u32 = 3;

/// The widest a node may be: `2^8` slots.
pub const MAX_BIT_WIDTH: u32 = 8;

/// The largest index a trie holds, `2^63 - 1`.
pub const MAX_INDEX: u64 = 0x7fff_ffff_ffff_ffff;

/// A bit width a trie can have.
pub open spec fn valid_bit_width(bit_width: u32) -> bool {
    1 <= bit_width <= MAX_BIT_WIDTH
}

/// The number of slots in a node, `2^bit_width`.
pub open spec fn width(bit_width: nat) -> nat {
    pow2(bit_width)
}

/// The number of indices below one slot of a node at `height`, `2^(bit_width * height)`.
pub open spec fn span(bit_width: nat, height: nat) -> nat {
    pow2(bit_width * height)
}

/// The number of indices a trie of `height` addresses, `2^(bit_width * (height + 1))`.
pub open spec fn capacity(bit_width: nat, height: nat) -> nat {
    span(bit_width, height + 1)
}

/// The greatest height of a trie, the least `h` with `bit_width * h >= 64`.
pub open spec fn spec_max_height(bit_width: nat) -> nat
    recommends
        bit_width >= 1,
{
    ((64 + bit_width - 1) / (bit_width as int)) as nat
}

/// The slot of a node at `height >= 1` that index `i` lies below.
pub open spec fn slot_of(bit_width: nat, height: nat, i: nat) -> nat {
    i / span(bit_width, height)
}

/// What is left of index `i` below its slot of a node at `height >= 1`.
pub open spec fn rest_of(bit_width: nat, height: nat, i: nat) -> nat {
    i % span(bit_width, height)
}

/// A node has slots, and a slot has places.
pub proof fn lemma_span_pos(bit_width: nat, height: nat)
    ensures
        span(bit_width, height) > 0,
        capacity(bit_width, height) > 0,
        width(bit_width) > 0,
{
    lemma_pow2_pos(bit_width * height);
    lemma_pow2_pos(bit_width * (height + 1));
    lemma_pow2_pos(bit_width);
}

/// A trie one level higher addresses `2^bit_width` times as much.
pub proof fn lemma_capacity_step(bit_width: nat, height: nat)
    ensures
        capacity(bit_width, height) == width(bit_width) * span(bit_width, height),
        span(bit_width, 0) == 1,
        width(bit_width) == capacity(bit_width, 0),
{
    assert(bit_width * (height + 1) == bit_width + bit_width * height) by (nonlinear_arith);
    lemma_pow2_adds(bit_width, bit_width * height);
    assert(bit_width * 0 == 0);
    assert(bit_width * 1 == bit_width);
    lemma2_to64();
}

/// An index inside a node at `height >= 1` has a slot inside the node and a
/// rest inside that slot, and the two name it.
pub proof fn lemma_split(bit_width: nat, height: nat, i: nat)
    requires
        1 <= height,
        i < capacity(bit_width, height),
    ensures
        slot_of(bit_width, height, i) < width(bit_width),
        rest_of(bit_width, height, i) < capacity(bit_width, (height - 1) as nat),
        i == slot_of(bit_width, height, i) * span(bit_width, height) + rest_of(
            bit_width,
            height,
            i,
        ),
{
    lemma_span_pos(bit_width, height);
    lemma_capacity_step(bit_width, height);
    let s = span(bit_width, height) as int;
    let p = width(bit_width) as int;
    let n = i as int;
    assert(n / s < p && 0 <= n % s < s && n == (n / s) * s + n % s) by (nonlinear_arith)
        requires
            0 <= n < p * s,
            s > 0,
    ;
}

/// Two indices with the same slot and the same rest are one index.
pub proof fn lemma_split_unique(bit_width: nat, height: nat, i: nat, j: nat)
    requires
        slot_of(bit_width, height, i) == slot_of(bit_width, height, j),
        rest_of(bit_width, height, i) == rest_of(bit_width, height, j),
    ensures
        i == j,
{
    lemma_span_pos(bit_width, height);
    let s = span(bit_width, height) as int;
    let a = i as int;
    let b = j as int;
    assert(a == b) by (nonlinear_arith)
        requires
            s > 0,
            a >= 0,
            b >= 0,
            a / s == b / s,
            a % s == b % s,
    ;
}

/// The number of slots in a node.
pub fn fanout(bit_width: u32) -> (n: usize)
    requires
        bit_width <= MAX_BIT_WIDTH,
    ensures
        n == width(bit_width as nat),
        1 <= n <= 256,
{
    proof {
        lemma2_to64();
        if bit_width < 8 {
            lemma_pow2_strictly_increases(bit_width as nat, 8);
        }
        lemma_pow2_pos(bit_width as nat);
        lemma_usize_shl_is_mul(1, bit_width as usize);
    }
    1usize << (bit_width as usize)
}

/// The number of indices below one slot of a node at `height`, or `u64::MAX`
/// where that number does not fit.
pub fn nodes_for_height(bit_width: u32, height: u32) -> (n: u64)
    ensures
        bit_width * height < 64 ==> n == span(bit_width as nat, height as nat),
        bit_width * height >= 64 ==> n == u64::MAX && span(bit_width as nat, height as nat)
            > u64::MAX,
        n > 0,
{
    assert(bit_width * height <= u64::MAX) by (nonlinear_arith)
        requires
            bit_width <= u32::MAX,
            height <= u32::MAX,
    ;
    let height_log_two: u64 = bit_width as u64 * height as u64;
    if height_log_two >= 64 {
        proof {
            lemma2_to64();
            lemma2_to64_rest();
            if height_log_two > 64 {
                lemma_pow2_strictly_increases(64, height_log_two as nat);
            }
        }
        return u64::MAX;
    }
    proof {
        lemma_u64_pow2_no_overflow(height_log_two as nat);
        lemma_u64_shl_is_mul(1, height_log_two);
    }
    1u64 << height_log_two
}

/// The greatest height of a trie of this bit width.
pub fn max_height(bit_width: u32) -> (h: u32)
    requires
        valid_bit_width(bit_width),
    ensures
        h == spec_max_height(bit_width as nat),
        bit_width * h >= 64,
        1 <= h <= 64,
{
    let h = (64 + bit_width - 1) / bit_width;
    assert(bit_width * h >= 64 && 1 <= h <= 64) by (nonlinear_arith)
        requires
            1 <= bit_width <= 8,
            h == (64 + bit_width - 1) / (bit_width as int),
    ;
    h
}

/// The slot of a node at `height >= 1` below which index `i` lies, and what is
/// left of the index below that slot.
pub fn split_index(bit_width: u32, height: u32, i: u64) -> (r: (usize, u64))
    requires
        1 <= height,
        bit_width <= MAX_BIT_WIDTH,
        i < u64::MAX,
        i < capacity(bit_width as nat, height as nat),
    ensures
        r.0 == slot_of(bit_width as nat, height as nat, i as nat),
        r.1 == rest_of(bit_width as nat, height as nat, i as nat),
        r.0 < width(bit_width as nat),
        r.1 < capacity(bit_width as nat, (height - 1) as nat),
        r.1 <= i,
{
    let below = nodes_for_height(bit_width, height);
    proof {
        lemma_split(bit_width as nat, height as nat, i as nat);
        lemma2_to64();
        if bit_width < 8 {
            lemma_pow2_strictly_increases(bit_width as nat, 8);
        }
        let s = span(bit_width as nat, height as nat) as int;
        let n = i as int;
        if bit_width * height >= 64 {
            assert(n / s == 0 && n % s == n) by (nonlinear_arith)
                requires
                    0 <= n < s,
            ;
            assert(n / (below as int) == 0 && n % (below as int) == n) by (nonlinear_arith)
                requires
                    0 <= n < below,
            ;
        }
        assert(n % s <= n) by (nonlinear_arith)
            requires
                0 <= n,
                s > 0,
        ;
    }
    ((i / below) as usize, i % below)
}

} // verus!
