//! Block-boundary arithmetic used by the file read path: rounding a byte
//! position down or up to an alignment boundary, and the handle naming a
//! block inside a file.

use vstd::arithmetic::power2::pow2;
use vstd::bits::lemma_usize_low_bits_mask_is_mod;
use vstd::bits::low_bits_mask;
use vstd::prelude::*;

verus! {

/// True when `align` is a power of two, the only alignments the rounding
/// helpers accept.
pub open spec fn is_alignment(align: usize) -> bool {
    exists|n: nat| n < usize::BITS && align == pow2(n)
}

/// The offset and length of one block inside a file.
#[derive(Copy, Clone, Debug, PartialEq, Eq, Structural)]
pub struct BlockHandle {
    pub offset: u64,
    pub length: u64,
}

impl Default for BlockHandle {
    fn default() -> (r: Self)
        ensures
            r.offset == 0 && r.length == 0,
    {
        BlockHandle { offset: 0, length: 0 }
    }
}

/// Rounds `pos` down to the nearest multiple of `align`.
pub fn floor_to_block_lo_pos(pos: usize, align: usize) -> (r: usize)
    requires
        is_alignment(align),
    ensures
        r == pos - pos % align,
        r % align == 0,
        r <= pos < r + align,
{
    proof {
        let n = choose|n: nat| n < usize::BITS && align == pow2(n);
        vstd::arithmetic::power2::lemma_pow2_pos(n);
        lemma_usize_low_bits_mask_is_mod(pos, n);
        assert(low_bits_mask(n) == align - 1);
        assert(pos % align < align && pos % align <= pos && (pos - pos % align) % (
        align as int) == 0) by (nonlinear_arith)
            requires align >= 1;
    }
    pos - (pos & (align - 1))
}

/// Rounds `pos` up to the nearest multiple of `align`.
pub fn ceil_to_block_hi_pos(pos: usize, align: usize) -> (r: usize)
    requires
        is_alignment(align),
        pos + align - 1 <= usize::MAX,
    ensures
        r == (pos + align - 1) / (align as int) * align,
        r % align == 0,
        pos <= r <= pos + align - 1,
{
    proof {
        let n = choose|n: nat| n < usize::BITS && align == pow2(n);
        vstd::arithmetic::power2::lemma_pow2_pos(n);
    }
    let q: usize = (pos + (align - 1)) / align;
    proof {
        let p = pos as int;
        let a = align as int;
        let s = p + a - 1;
        vstd::arithmetic::div_mod::lemma_fundamental_div_mod(s, a);
        vstd::arithmetic::div_mod::lemma_remainder_upper(s, a);
        vstd::arithmetic::div_mod::lemma_remainder_lower(s, a);
        assert(q * a == a * (s / a));
        vstd::arithmetic::div_mod::lemma_mod_multiples_basic(q as int, a);
    }
    q * align
}

} // verus!
