//! The address-to-pixel projection and its granularity parameter.
//!
//! A granularity of `bits_per_pixel` collapses that many low address bits
//! into one pixel, so each pixel stands for a block of `2^bits_per_pixel`
//! addresses.  The remaining bits index the pixels along the curve, and
//! the pixel grid is a perfect square whose side is
//! `2^((32 - bits_per_pixel) / 2)`.

use vstd::prelude::*;

verus! {

use vstd::arithmetic::power2::{pow2, lemma_pow2_adds, lemma_pow2_strictly_increases, lemma2_to64};
use vstd::arithmetic::div_mod::lemma_multiply_divide_lt;
use vstd::bits::{lemma_u32_shl_is_mul, lemma_u32_shr_is_div};
use crate::curve::{d2xy, hilbert_d2xy};

/// A granularity is accepted when it is even, so the pixel grid is a
/// perfect square, and within `[8, 24]`, so the grid is neither trivial
/// nor unboundedly large.
pub open spec fn valid_bits_per_pixel(bpp: u8) -> bool {
    8 <= bpp <= 24 && bpp % 2 == 0
}

/// The curve order that a granularity induces: half of the address bits
/// left over once `bpp` of them are collapsed into a pixel.
pub open spec fn order_of(bpp: u8) -> nat {
    ((32 - bpp) / 2) as nat
}

/// The pixel grid side, `2^order`.
pub open spec fn side_of(bpp: u8) -> nat {
    pow2(order_of(bpp))
}

/// The number of addresses each pixel stands for, `2^bpp`.
pub open spec fn addresses_per_pixel(bpp: u8) -> nat {
    pow2(bpp as nat)
}

/// The curve distance of an address: its high bits, the low `bpp` bits
/// discarded.
pub open spec fn distance_of(addr: u32, bpp: u8) -> int {
    addr as int / addresses_per_pixel(bpp) as int
}

/// Law: for every valid granularity the projection partitions the whole
/// address space exactly: `side * side * 2^bpp == 2^32`, with no gaps and
/// no overlaps.
pub proof fn lemma_granularity_coverage(bpp: u8)
    requires
        valid_bits_per_pixel(bpp),
    ensures
        side_of(bpp) * side_of(bpp) * addresses_per_pixel(bpp) == pow2(32),
{
    let order = order_of(bpp);
    lemma_pow2_adds(order, order);
    lemma_pow2_adds(2 * order, bpp as nat);
    assert(2 * order + bpp as nat == 32);
}

/// Distances of addresses lie below the number of pixels, `side * side`.
pub proof fn lemma_distance_in_range(addr: u32, bpp: u8)
    requires
        valid_bits_per_pixel(bpp),
    ensures
        0 <= distance_of(addr, bpp) < pow2(2 * order_of(bpp)),
{
    let order = order_of(bpp);
    lemma_pow2_adds(2 * order, bpp as nat);
    lemma_pow2_adds(bpp as nat, 2 * order);
    lemma2_to64();
    assert(pow2(32) == 0x1_0000_0000);
    lemma_multiply_divide_lt(addr as int, pow2(bpp as nat) as int, pow2(2 * order) as int);
    vstd::arithmetic::div_mod::lemma_div_pos_is_pos(addr as int, pow2(bpp as nat) as int);
}

/// The pixel grid side for a granularity, as a count of pixels per row.
pub fn image_size_for_bpp(bits_per_pixel: u8) -> (side: u32)
    requires
        valid_bits_per_pixel(bits_per_pixel),
    ensures
        side == side_of(bits_per_pixel),
{
    let order: u32 = (32 - bits_per_pixel as u32) / 2;
    proof {
        lemma2_to64();
        lemma_pow2_strictly_increases(order_of(bits_per_pixel), 32);
        lemma_u32_shl_is_mul(1u32, order);
    }
    1u32 << order
}

/// The curve distance of an address at a granularity.
pub fn address_distance(addr: u32, bits_per_pixel: u8) -> (d: u64)
    requires
        valid_bits_per_pixel(bits_per_pixel),
    ensures
        d == distance_of(addr, bits_per_pixel),
        0 <= d < pow2(2 * order_of(bits_per_pixel)),
{
    proof {
        lemma_u32_shr_is_div(addr, bits_per_pixel as u32);
        lemma_distance_in_range(addr, bits_per_pixel);
    }
    (addr >> (bits_per_pixel as u32)) as u64
}

/// The pixel coordinates an address projects to.
pub fn address_to_xy(addr: u32, bits_per_pixel: u8) -> (r: (u32, u32))
    requires
        valid_bits_per_pixel(bits_per_pixel),
    ensures
        r.0 < side_of(bits_per_pixel),
        r.1 < side_of(bits_per_pixel),
        (r.0 as int, r.1 as int) == d2xy(order_of(bits_per_pixel), distance_of(addr, bits_per_pixel)),
{
    let d: u64 = address_distance(addr, bits_per_pixel);
    let order: u32 = (32 - bits_per_pixel as u32) / 2;
    let point: Option<(u32, u32)> = hilbert_d2xy(d, order);
    proof {
        vstd::arithmetic::div_mod::lemma_small_mod(
            d as nat,
            pow2(2 * order_of(bits_per_pixel)),
        );
    }
    match point {
        Some(xy) => xy,
        None => (0, 0),
    }
}

} // verus!
