//! The bitmap of a written node: one bit for each slot, the lowest bit of the
//! first byte for slot 0.

use crate::index::{fanout, width, MAX_BIT_WIDTH};
use vstd::arithmetic::power2::{lemma2_to64, lemma_pow2_adds, lemma_pow2_strictly_increases, pow2};
use vstd::prelude::*;

verus! {

/// The number of bytes in the bitmap of a node: one byte up to eight slots,
/// else one for every eight.
pub open spec fn bmap_len(bit_width: nat) -> nat {
    if bit_width <= 3 {
        1
    } else {
        pow2((bit_width - 3) as nat)
    }
}

/// Whether bit `k` of a byte is set.
pub open spec fn byte_bit(byte: u8, k: int) -> bool {
    0 <= k < 8 && (byte & (1u8 << (k as u8))) != 0
}

/// Whether the bit of slot `i` is set. Bits that the bitmap has no byte for are
/// not set.
pub open spec fn bit_set(bmap: Seq<u8>, i: int) -> bool {
    0 <= i && i / 8 < bmap.len() && byte_bit(bmap[i / 8], i % 8)
}

/// The number of set bits among those of the slots below `n`.
pub open spec fn count_set(bmap: Seq<u8>, n: nat) -> nat
    decreases n,
{
    if n == 0 {
        0
    } else {
        count_set(bmap, (n - 1) as nat) + if bit_set(bmap, n - 1) {
            1nat
        } else {
            0nat
        }
    }
}

/// The byte with the bits of the first `k` slots from `base` on, each set where
/// its slot is occupied.
pub open spec fn byte_of(occupied: Seq<bool>, base: int, k: nat) -> u8
    decreases k,
{
    if k == 0 {
        0u8
    } else {
        let below = byte_of(occupied, base, (k - 1) as nat);
        if base + k - 1 < occupied.len() && occupied[base + k - 1] {
            below | (1u8 << ((k - 1) as u8))
        } else {
            below
        }
    }
}

/// The bitmap of `len` bytes with the bit of each occupied slot set.
pub open spec fn bitmap_of(occupied: Seq<bool>, len: nat) -> Seq<u8> {
    Seq::new(len, |b: int| byte_of(occupied, 8 * b, 8))
}

/// A bitmap has a bit for every slot, and is no longer than 32 bytes.
pub proof fn lemma_bmap_len(bit_width: nat)
    requires
        bit_width <= MAX_BIT_WIDTH,
    ensures
        1 <= bmap_len(bit_width) <= 32,
        width(bit_width) <= 8 * bmap_len(bit_width),
        width(bit_width) <= 256,
{
    lemma2_to64();
    if bit_width > 3 {
        lemma_pow2_adds((bit_width - 3) as nat, 3);
        if bit_width < 8 {
            lemma_pow2_strictly_increases((bit_width - 3) as nat, 5);
        }
    } else if bit_width < 3 {
        lemma_pow2_strictly_increases(bit_width, 3);
    }
    if bit_width < 8 {
        lemma_pow2_strictly_increases(bit_width, 8);
    }
}

/// The bits of `byte_of` are the occupied slots.
pub proof fn lemma_byte_of(occupied: Seq<bool>, base: int, k: nat, m: int)
    requires
        k <= 8,
        0 <= m < 8,
        0 <= base,
    ensures
        byte_bit(byte_of(occupied, base, k), m) == (m < k && base + m < occupied.len()
            && occupied[base + m]),
    decreases k,
{
    if k == 0 {
        let bit = 1u8 << (m as u8);
        assert(0u8 & bit == 0) by (bit_vector);
    } else {
        lemma_byte_of(occupied, base, (k - 1) as nat, m);
        let below = byte_of(occupied, base, (k - 1) as nat);
        let j = (k - 1) as u8;
        let mm = m as u8;
        assert(((below | (1u8 << j)) & (1u8 << mm) != 0) == (mm == j || (below & (1u8 << mm))
            != 0)) by (bit_vector)
            requires
                j < 8,
                mm < 8,
        ;
    }
}

/// The bits of `bitmap_of` are the occupied slots.
pub proof fn lemma_bitmap_of(occupied: Seq<bool>, len: nat, i: int)
    requires
        0 <= i,
    ensures
        bit_set(bitmap_of(occupied, len), i) == (i < 8 * len && i < occupied.len() && occupied[i]),
{
    if i / 8 < len {
        lemma_byte_of(occupied, 8 * (i / 8), 8, i % 8);
    }
}

/// More slots hold no fewer set bits.
pub proof fn lemma_count_set_grows(bmap: Seq<u8>, n: nat, m: nat)
    requires
        n <= m,
    ensures
        count_set(bmap, n) <= count_set(bmap, m),
        count_set(bmap, n) <= n,
    decreases m,
{
    if n < m {
        lemma_count_set_grows(bmap, n, (m - 1) as nat);
    } else if n > 0 {
        lemma_count_set_grows(bmap, (n - 1) as nat, (n - 1) as nat);
    }
}

/// The number of bytes in the bitmap of a node.
pub fn bmap_bytes(bit_width: u32) -> (n: usize)
    requires
        bit_width <= MAX_BIT_WIDTH,
    ensures
        n == bmap_len(bit_width as nat),
{
    if bit_width <= 3 {
        1
    } else {
        fanout(bit_width - 3)
    }
}

/// Whether the bit of slot `i` is set.
pub fn test_bit(bmap: &[u8], i: usize) -> (r: bool)
    ensures
        r == bit_set(bmap@, i as int),
{
    if i / 8 >= bmap.len() {
        return false;
    }
    let byte = bmap[i / 8];
    let k: u8 = (i % 8) as u8;
    assert(k < 8);
    (byte & (1u8 << k)) != 0
}

/// The bitmap of `len` bytes with the bit of each occupied slot set.
pub fn make_bitmap(occupied: &Vec<bool>, len: usize) -> (bmap: Vec<u8>)
    requires
        8 * len <= usize::MAX,
    ensures
        bmap@ == bitmap_of(occupied@, len as nat),
{
    let mut bmap: Vec<u8> = Vec::new();
    let mut b: usize = 0;
    while b < len
        invariant
            b <= len,
            8 * len <= usize::MAX,
            bmap@.len() == b,
            forall|j: int| 0 <= j < b ==> bmap@[j] == byte_of(occupied@, 8 * j, 8),
        decreases len - b,
    {
        let mut byte: u8 = 0;
        let mut k: u8 = 0;
        while k < 8
            invariant
                k <= 8,
                b < len,
                8 * len <= usize::MAX,
                byte == byte_of(occupied@, 8 * b, k as nat),
            decreases 8 - k,
        {
            let slot = 8 * b + k as usize;
            if slot < occupied.len() && occupied[slot] {
                byte = byte | (1u8 << k);
            }
            k += 1;
        }
        bmap.push(byte);
        b += 1;
    }
    proof {
        assert(bmap@ =~= bitmap_of(occupied@, len as nat));
    }
    bmap
}

} // verus!
