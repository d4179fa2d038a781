//! The accumulation buffer and its write semantics.
//!
//! A `Heatmap` owns the dense `side * side` grid of cells for one
//! rendering session.  Input records are written one at a time; every
//! write lands on the pixel its address projects to and carries a weight
//! transformed by the session's value mode.  A session-wide flag decides
//! whether writes add to a cell or overwrite it.

use vstd::prelude::*;

verus! {

use vstd::arithmetic::power2::{pow2, lemma_pow2_strictly_increases, lemma2_to64};
use vstd::bits::lemma_u64_shl_is_mul;
use crate::ConfigError;
use crate::curve::{d2xy, lemma_d2xy_bounds, lemma_d2xy_injective};
use crate::grid::{
    valid_bits_per_pixel, order_of, side_of, addresses_per_pixel, distance_of, image_size_for_bpp,
    address_to_xy,
};
use crate::scale::{DomainType, ScaleDomain};
use crate::parse::{
    Record, parse_record_spec, parse_record, first_token, lines_of, lines_from, scan_line_end,
    scan_separators, scan_token,
};
use vstd::slice::{slice_subrange, slice_to_vec};

/// How a record's weight is interpreted before it is written to a cell.
#[derive(Clone, Copy, Debug, PartialEq, Eq, Structural)]
pub enum ValueMode {
    /// Weights are opaque category identifiers, written unchanged;
    /// unpainted cells hold a sentinel below zero.
    Categorical,
    /// Weights are written unchanged; unpainted cells hold zero, which is
    /// indistinguishable from a painted zero.
    Raw,
    /// Weights are normalized by pixel density, so a single address and a
    /// fully covering range contribute comparable magnitude at any
    /// granularity; unpainted cells hold zero.
    Scaled,
}

/// The sentinel a categorical buffer is pre-filled with: any value below
/// zero marks a never-painted cell.
pub const UNPAINTED_CELL: i64 = -1;

/// The number of colours a categorical palette cycles through.
pub const PALETTE_SIZE: u64 = 8;

/// What every cell holds before the first write.
pub open spec fn initial_cell(mode: ValueMode) -> i64 {
    if mode is Categorical {
        UNPAINTED_CELL
    } else {
        0
    }
}

/// Saturates an accumulated sum to the cell range.
pub open spec fn clamp_cell(x: int) -> int {
    if x > i64::MAX {
        i64::MAX as int
    } else if x < i64::MIN {
        i64::MIN as int
    } else {
        x
    }
}

/// The value a cell holds after one write: the weight is added to the
/// cell (saturating at the cell range) when the session accumulates, and
/// replaces it (last write wins) when it does not.  Weights derive from
/// 32-bit inputs, so an overwrite never saturates.
pub open spec fn cell_write(accumulate: bool, old_cell: int, w: int) -> int {
    if accumulate {
        clamp_cell(old_cell + w)
    } else {
        clamp_cell(w)
    }
}

/// Integer division truncating toward zero, for a positive divisor.
pub open spec fn trunc_div(a: int, b: int) -> int {
    if a >= 0 {
        a / b
    } else {
        -((-a) / b)
    }
}

/// The weight attributed to a pixel that `overlap` addresses of a record
/// reach, out of the `p` addresses the pixel stands for.  Categorical and
/// raw modes write the weight unchanged; scaled mode apportions it by
/// density, truncating toward zero, so a very fine granularity may
/// legitimately truncate a contribution to nothing.
pub open spec fn pixel_weight(mode: ValueMode, value: int, overlap: int, p: int) -> int {
    match mode {
        ValueMode::Categorical => value,
        ValueMode::Raw => value,
        ValueMode::Scaled => trunc_div(value * overlap, p),
    }
}

/// The weight a single address contributes: one address out of `p`.
pub open spec fn single_weight(mode: ValueMode, value: int, p: int) -> int {
    pixel_weight(mode, value, 1, p)
}

/// The flat buffer index of the pixel at `(x, y)`.
pub open spec fn grid_index(x: int, y: int, side: int) -> int {
    y * side + x
}

/// The flat buffer index of the pixel at curve distance `dd`.
pub open spec fn pixel_index_of_distance(dd: int, bpp: u8) -> int {
    let p = d2xy(order_of(bpp), dd);
    grid_index(p.0, p.1, side_of(bpp) as int)
}

/// The flat buffer index of the pixel an address projects to.
pub open spec fn pixel_index_of(addr: u32, bpp: u8) -> int {
    pixel_index_of_distance(distance_of(addr, bpp), bpp)
}

/// The grid side of a valid granularity lies between 16 and 4096.
pub proof fn lemma_side_bounds(bpp: u8)
    requires
        valid_bits_per_pixel(bpp),
    ensures
        16 <= side_of(bpp) <= 4096,
        16 <= addresses_per_pixel(bpp),
{
    lemma2_to64();
    if order_of(bpp) < 12 {
        lemma_pow2_strictly_increases(order_of(bpp), 12);
    }
    if 4 < order_of(bpp) {
        lemma_pow2_strictly_increases(4, order_of(bpp));
    }
    if 8 < bpp {
        lemma_pow2_strictly_increases(8, bpp as nat);
    }
}

/// Pixel indexes stay within the buffer.
pub proof fn lemma_pixel_index_in_range(dd: int, bpp: u8)
    requires
        valid_bits_per_pixel(bpp),
        0 <= dd,
    ensures
        0 <= pixel_index_of_distance(dd, bpp) < side_of(bpp) * side_of(bpp),
{
    let s = side_of(bpp) as int;
    let p = d2xy(order_of(bpp), dd);
    lemma_d2xy_bounds(order_of(bpp), dd);
    assert(0 <= p.1 * s + p.0 < s * s) by (nonlinear_arith)
        requires
            0 <= p.0 < s,
            0 <= p.1 < s,
    ;
}

/// Distinct in-range distances use distinct buffer indexes, because the
/// curve transform is injective and the row-major index determines the
/// coordinates.
pub proof fn lemma_pixel_index_injective(bpp: u8, d1: int, d2: int)
    requires
        valid_bits_per_pixel(bpp),
        0 <= d1 < pow2(2 * order_of(bpp)),
        0 <= d2 < pow2(2 * order_of(bpp)),
        d1 != d2,
    ensures
        pixel_index_of_distance(d1, bpp) != pixel_index_of_distance(d2, bpp),
{
    let s = side_of(bpp) as int;
    let p1 = d2xy(order_of(bpp), d1);
    let p2 = d2xy(order_of(bpp), d2);
    lemma_d2xy_bounds(order_of(bpp), d1);
    lemma_d2xy_bounds(order_of(bpp), d2);
    if pixel_index_of_distance(d1, bpp) == pixel_index_of_distance(d2, bpp) {
        vstd::arithmetic::div_mod::lemma_fundamental_div_mod_converse(
            p1.1 * s + p1.0,
            s,
            p1.1,
            p1.0,
        );
        vstd::arithmetic::div_mod::lemma_fundamental_div_mod_converse(
            p2.1 * s + p2.0,
            s,
            p2.1,
            p2.0,
        );
        assert(p1 == p2);
        lemma_d2xy_injective(order_of(bpp), d1, d2);
    }
}

/// One rendering session: the cell grid and the write policy fixed for
/// its whole lifetime.
pub struct Heatmap {
    buffer: Vec<i64>,
    curve: DomainType,
    min_value: Option<i64>,
    max_value: Option<i64>,
    accumulate: bool,
    bits_per_pixel: u8,
    value_mode: ValueMode,
    side: u32,
}

impl Heatmap {
    /// The cells, row-major: the cell for pixel `(x, y)` is at
    /// `y * side + x`.
    pub closed spec fn cells(&self) -> Seq<i64> {
        self.buffer@
    }

    /// The configured domain kind.
    pub closed spec fn curve_spec(&self) -> DomainType {
        self.curve
    }

    /// The explicit lower domain bound, if one was supplied.
    pub closed spec fn min_value_spec(&self) -> Option<i64> {
        self.min_value
    }

    /// The explicit upper domain bound, if one was supplied.
    pub closed spec fn max_value_spec(&self) -> Option<i64> {
        self.max_value
    }

    /// Whether writes add to cells rather than overwrite them.
    pub closed spec fn accumulate_spec(&self) -> bool {
        self.accumulate
    }

    /// The configured granularity.
    pub closed spec fn bpp_spec(&self) -> u8 {
        self.bits_per_pixel
    }

    /// The configured value mode.
    pub closed spec fn mode_spec(&self) -> ValueMode {
        self.value_mode
    }

    /// A session is well formed when its granularity was accepted and the
    /// buffer covers the full square grid.
    pub open spec fn wf(&self) -> bool {
        &&& valid_bits_per_pixel(self.bpp_spec())
        &&& self.side_spec() == side_of(self.bpp_spec())
        &&& self.cells().len() == side_of(self.bpp_spec()) * side_of(self.bpp_spec())
    }

    /// The cached grid side.
    pub closed spec fn side_spec(&self) -> u32 {
        self.side
    }

    /// The whole session configuration, unchanged by every write.
    pub open spec fn same_setup(&self, other: &Heatmap) -> bool {
        &&& self.curve_spec() == other.curve_spec()
        &&& self.min_value_spec() == other.min_value_spec()
        &&& self.max_value_spec() == other.max_value_spec()
        &&& self.accumulate_spec() == other.accumulate_spec()
        &&& self.bpp_spec() == other.bpp_spec()
        &&& self.mode_spec() == other.mode_spec()
        &&& self.side_spec() == other.side_spec()
    }

    /// Builds a session.  The granularity is rejected exactly when it is
    /// odd or outside `[8, 24]`; an accepted session starts with every
    /// cell at the mode's initial value.
    pub fn new(
        curve: DomainType,
        min_value: Option<i64>,
        max_value: Option<i64>,
        accumulate: bool,
        bits_per_pixel: u8,
        value_mode: ValueMode,
    ) -> (r: Result<Heatmap, ConfigError>)
        ensures
            r is Ok <==> valid_bits_per_pixel(bits_per_pixel),
            r is Err ==> r->Err_0 == ConfigError::InvalidGranularity,
            r is Ok ==> ({
                let h = r->Ok_0;
                &&& h.wf()
                &&& h.curve_spec() == curve
                &&& h.min_value_spec() == min_value
                &&& h.max_value_spec() == max_value
                &&& h.accumulate_spec() == accumulate
                &&& h.bpp_spec() == bits_per_pixel
                &&& h.mode_spec() == value_mode
                &&& h.cells() == Seq::new(
                    side_of(bits_per_pixel) * side_of(bits_per_pixel),
                    |i: int| initial_cell(value_mode),
                )
            }),
    {
        if bits_per_pixel < 8 || bits_per_pixel > 24 || bits_per_pixel % 2 != 0 {
            return Err(ConfigError::InvalidGranularity);
        }
        let side: u32 = image_size_for_bpp(bits_per_pixel);
        proof {
            lemma_side_bounds(bits_per_pixel);
            assert((side as int) * (side as int) <= 16777216) by (nonlinear_arith)
                requires
                    0 <= (side as int) <= 4096,
            ;
        }
        let n: usize = side as usize * side as usize;
        let fill: i64 = if matches!(value_mode, ValueMode::Categorical) {
            UNPAINTED_CELL
        } else {
            0
        };
        let buffer: Vec<i64> = vec![fill; n];
        let h = Heatmap {
            buffer,
            curve,
            min_value,
            max_value,
            accumulate,
            bits_per_pixel,
            value_mode,
            side,
        };
        proof {
            assert(h.cells() =~= Seq::new(
                side_of(bits_per_pixel) * side_of(bits_per_pixel),
                |i: int| initial_cell(value_mode),
            ));
        }
        Ok(h)
    }

    /// The pixel grid side of this session.
    pub fn image_size(&self) -> (r: u32)
        requires
            self.wf(),
        ensures
            r == side_of(self.bpp_spec()),
    {
        self.side
    }

    /// Reads one cell.
    pub fn cell_at(&self, x: u32, y: u32) -> (r: i64)
        requires
            self.wf(),
            x < side_of(self.bpp_spec()),
            y < side_of(self.bpp_spec()),
        ensures
            r == self.cells()[grid_index(x as int, y as int, side_of(self.bpp_spec()) as int)],
    {
        proof {
            lemma_side_bounds(self.bits_per_pixel);
            let side_g: int = self.side as int;
            assert((y as int) * side_g + (x as int) < side_g * side_g <= 16777216)
                by (nonlinear_arith)
                requires
                    0 <= (x as int) < side_g,
                    0 <= (y as int) < side_g,
                    side_g <= 4096,
            ;
        }
        self.buffer[y as usize * self.side as usize + x as usize]
    }

    /// Writes one weight to the pixel at `(x, y)`: adding when the
    /// session accumulates, overwriting when it does not.
    pub fn paint_pixel(&mut self, x: u32, y: u32, value: i64)
        requires
            old(self).wf(),
            x < side_of(old(self).bpp_spec()),
            y < side_of(old(self).bpp_spec()),
        ensures
            final(self).wf(),
            final(self).same_setup(old(self)),
            ({
                let side = side_of(old(self).bpp_spec()) as int;
                let idx = grid_index(x as int, y as int, side);
                final(self).cells() == old(self).cells().update(
                    idx,
                    cell_write(
                        old(self).accumulate_spec(),
                        old(self).cells()[idx] as int,
                        value as int,
                    ) as i64,
                )
            }),
    {
        proof {
            lemma_side_bounds(self.bits_per_pixel);
            let side_g: int = self.side as int;
            assert((y as int) * side_g + (x as int) < side_g * side_g <= 16777216)
                by (nonlinear_arith)
                requires
                    0 <= (x as int) < side_g,
                    0 <= (y as int) < side_g,
                    side_g <= 4096,
            ;
        }
        let idx: usize = y as usize * self.side as usize + x as usize;
        if self.accumulate {
            let cur: i64 = self.buffer[idx];
            let summed: i64 = match cur.checked_add(value) {
                Some(v) => v,
                None => if value > 0 {
                    i64::MAX
                } else {
                    i64::MIN
                },
            };
            self.buffer[idx] = summed;
        } else {
            self.buffer[idx] = value;
        }
    }

    /// Paints a single address: its weight, transformed by the value
    /// mode, lands on the one pixel the address projects to.
    pub fn paint_address(&mut self, addr: u32, value: i32)
        requires
            old(self).wf(),
        ensures
            final(self).wf(),
            final(self).same_setup(old(self)),
            ({
                let idx = pixel_index_of(addr, old(self).bpp_spec());
                final(self).cells() == old(self).cells().update(
                    idx,
                    cell_write(
                        old(self).accumulate_spec(),
                        old(self).cells()[idx] as int,
                        single_weight(
                            old(self).mode_spec(),
                            value as int,
                            addresses_per_pixel(old(self).bpp_spec()) as int,
                        ),
                    ) as i64,
                )
            }),
    {
        proof {
            lemma_side_bounds(self.bits_per_pixel);
            crate::grid::lemma_distance_in_range(addr, self.bits_per_pixel);
            lemma_pixel_index_in_range(distance_of(addr, self.bpp_spec()), self.bits_per_pixel);
        }
        let xy: (u32, u32) = address_to_xy(addr, self.bits_per_pixel);
        let w: i64 = self.mode_weight(value, 1);
        self.paint_pixel(xy.0, xy.1, w);
    }

    /// The weight one write carries, for `overlap` addresses landing on a
    /// pixel of this session's density.
    fn mode_weight(&self, value: i32, overlap: u64) -> (w: i64)
        requires
            self.wf(),
            1 <= overlap <= addresses_per_pixel(self.bpp_spec()),
        ensures
            w == pixel_weight(
                self.mode_spec(),
                value as int,
                overlap as int,
                addresses_per_pixel(self.bpp_spec()) as int,
            ),
            i32::MIN <= w <= i32::MAX,
    {
        match self.value_mode {
            ValueMode::Categorical => value as i64,
            ValueMode::Raw => value as i64,
            ValueMode::Scaled => {
                proof {
                    lemma_side_bounds(self.bits_per_pixel);
                    lemma2_to64();
                    if (self.bits_per_pixel as nat) < 24 {
                        lemma_pow2_strictly_increases(self.bits_per_pixel as nat, 24);
                    }
                    lemma_u64_shl_is_mul(1u64, self.bits_per_pixel as u64);
                }
                let p: u64 = 1u64 << (self.bits_per_pixel as u64);
                let mag: u64 = if value >= 0 {
                    value as u64
                } else {
                    (-(value as i64)) as u64
                };
                proof {
                    assert((mag as int) * (overlap as int) <= 0x80000000 * 0x1000000)
                        by (nonlinear_arith)
                        requires
                            0 <= (mag as int) <= 0x80000000,
                            0 <= (overlap as int) <= 0x1000000,
                    ;
                }
                let prod: u64 = mag * overlap;
                let q: u64 = prod / p;
                proof {
                    assert(prod <= mag * p) by (nonlinear_arith)
                        requires
                            prod == mag * overlap,
                            overlap <= p,
                            mag >= 0,
                    ;
                    vstd::arithmetic::div_mod::lemma_div_is_ordered(
                        prod as int,
                        (mag as int) * (p as int),
                        p as int,
                    );
                    vstd::arithmetic::mul::lemma_mul_is_commutative(mag as int, p as int);
                    vstd::arithmetic::div_mod::lemma_div_multiples_vanish(mag as int, p as int);
                    assert(q <= mag);
                    if value >= 0 {
                        assert(value as int * overlap as int == prod as int) by (nonlinear_arith)
                            requires
                                mag == value,
                                prod == mag * overlap,
                        ;
                    } else {
                        assert(-(value as int * overlap as int) == prod as int)
                            by (nonlinear_arith)
                            requires
                                mag == -(value as int),
                                prod == mag * overlap,
                        ;
                    }
                }
                if value >= 0 {
                    q as i64
                } else {
                    -(q as i64)
                }
            },
        }
    }
}

/// The number of addresses, out of the `p` a pixel stands for, that the
/// record `[first, last]` covers at the pixel with curve distance `dd`:
/// the size of the intersection of the two address ranges.
pub open spec fn overlap_count(first: int, last: int, dd: int, p: int) -> int {
    let pixel_first = dd * p;
    let pixel_last = dd * p + p - 1;
    let of = if first >= pixel_first {
        first
    } else {
        pixel_first
    };
    let ol = if last <= pixel_last {
        last
    } else {
        pixel_last
    };
    ol - of + 1
}

/// One range write: the pixel at curve distance `dd` receives the
/// record's weight, apportioned to the addresses that actually land
/// there.
pub open spec fn paint_distance_spec(
    cells: Seq<i64>,
    mode: ValueMode,
    accumulate: bool,
    bpp: u8,
    first: int,
    last: int,
    value: int,
    dd: int,
) -> Seq<i64> {
    let p = addresses_per_pixel(bpp) as int;
    let idx = pixel_index_of_distance(dd, bpp);
    cells.update(
        idx,
        cell_write(
            accumulate,
            cells[idx] as int,
            pixel_weight(mode, value, overlap_count(first, last, dd, p), p),
        ) as i64,
    )
}

/// The first `n` pixel writes of a range record, in curve-distance
/// order starting at the record's first pixel.
pub open spec fn paint_range_upto(
    cells: Seq<i64>,
    mode: ValueMode,
    accumulate: bool,
    bpp: u8,
    first: int,
    last: int,
    value: int,
    n: nat,
) -> Seq<i64>
    decreases n,
{
    if n == 0 {
        cells
    } else {
        let p = addresses_per_pixel(bpp) as int;
        let dd = first / p + n - 1;
        paint_distance_spec(
            paint_range_upto(cells, mode, accumulate, bpp, first, last, value, (n - 1) as nat),
            mode,
            accumulate,
            bpp,
            first,
            last,
            value,
            dd,
        )
    }
}

/// How many pixels a range record touches: one per curve distance from
/// its first address's pixel to its last address's pixel.
pub open spec fn range_pixel_count(first: int, last: int, bpp: u8) -> nat {
    let p = addresses_per_pixel(bpp) as int;
    (last / p - first / p + 1) as nat
}

/// The buffer after a whole range record is distributed.
pub open spec fn paint_range_spec(
    cells: Seq<i64>,
    mode: ValueMode,
    accumulate: bool,
    bpp: u8,
    first: int,
    last: int,
    value: int,
) -> Seq<i64> {
    paint_range_upto(
        cells,
        mode,
        accumulate,
        bpp,
        first,
        last,
        value,
        range_pixel_count(first, last, bpp),
    )
}

/// A pixel of a range, `dd * p`, projects back to curve distance `dd`.
proof fn lemma_pixel_base_facts(first: int, last: int, dd: int, p: int)
    requires
        0 < p,
        0 <= first <= last,
        first / p <= dd <= last / p,
    ensures
        dd * p <= last,
        first <= dd * p + p - 1,
        (dd * p) / p == dd,
{
    vstd::arithmetic::div_mod::lemma_fundamental_div_mod(last, p);
    vstd::arithmetic::div_mod::lemma_fundamental_div_mod(first, p);
    vstd::arithmetic::div_mod::lemma_mod_pos_bound(last, p);
    vstd::arithmetic::div_mod::lemma_mod_pos_bound(first, p);
    vstd::arithmetic::mul::lemma_mul_inequality(dd, last / p, p);
    vstd::arithmetic::mul::lemma_mul_inequality(first / p, dd, p);
    vstd::arithmetic::mul::lemma_mul_is_commutative(dd, p);
    vstd::arithmetic::mul::lemma_mul_is_commutative(last / p, p);
    vstd::arithmetic::mul::lemma_mul_is_commutative(first / p, p);
    vstd::arithmetic::div_mod::lemma_div_multiples_vanish(dd, p);
}

impl Heatmap {
    /// Distributes a contiguous address range `[first, last]` across the
    /// pixels it touches.  The work is bounded by the number of touched
    /// pixels, never by the number of addresses: only the curve
    /// distances from the first to the last address's pixel are visited,
    /// and each receives the record's weight apportioned to the
    /// addresses that overlap it.
    pub fn paint_cidr_range(&mut self, first: u32, last: u32, value: i32)
        requires
            old(self).wf(),
            first <= last,
        ensures
            final(self).wf(),
            final(self).same_setup(old(self)),
            final(self).cells() == paint_range_spec(
                old(self).cells(),
                old(self).mode_spec(),
                old(self).accumulate_spec(),
                old(self).bpp_spec(),
                first as int,
                last as int,
                value as int,
            ),
    {
        proof {
            lemma_side_bounds(self.bits_per_pixel);
            lemma2_to64();
            if (self.bits_per_pixel as nat) < 24 {
                lemma_pow2_strictly_increases(self.bits_per_pixel as nat, 24);
            }
            lemma_u64_shl_is_mul(1u64, self.bits_per_pixel as u64);
        }
        let p: u64 = 1u64 << (self.bits_per_pixel as u64);
        let first64: u64 = first as u64;
        let last64: u64 = last as u64;
        let d_first: u64 = first64 / p;
        let d_last: u64 = last64 / p;
        proof {
            vstd::arithmetic::div_mod::lemma_div_is_ordered(first as int, last as int, p as int);
        }
        let mut dd: u64 = d_first;
        while dd <= d_last
            invariant
                old(self).wf(),
                self.wf(),
                self.same_setup(old(self)),
                first <= last,
                p == addresses_per_pixel(old(self).bpp_spec()),
                16 <= p <= 16777216,
                first64 == first as int,
                last64 == last as int,
                d_first == first as int / p as int,
                d_last == last as int / p as int,
                d_first <= dd <= d_last + 1,
                self.cells() == paint_range_upto(
                    old(self).cells(),
                    old(self).mode_spec(),
                    old(self).accumulate_spec(),
                    old(self).bpp_spec(),
                    first as int,
                    last as int,
                    value as int,
                    (dd - d_first) as nat,
                ),
            decreases d_last + 1 - dd,
        {
            proof {
                lemma_pixel_base_facts(first as int, last as int, dd as int, p as int);
            }
            let pixel_first: u64 = dd * p;
            let pixel_last: u64 = pixel_first + p - 1;
            let o_first: u64 = if first64 >= pixel_first {
                first64
            } else {
                pixel_first
            };
            let o_last: u64 = if last64 <= pixel_last {
                last64
            } else {
                pixel_last
            };
            let count: u64 = o_last - o_first + 1;
            let w: i64 = self.mode_weight(value, count);
            proof {
                crate::grid::lemma_distance_in_range(pixel_first as u32, self.bits_per_pixel);
            }
            let xy: (u32, u32) = address_to_xy(pixel_first as u32, self.bits_per_pixel);
            self.paint_pixel(xy.0, xy.1, w);
            dd = dd + 1;
        }
    }
}

/// The smallest value among the cells (zero for an empty sequence,
/// which a well-formed session never has).
pub open spec fn seq_min(s: Seq<i64>) -> int
    decreases s.len(),
{
    if s.len() == 0 {
        0
    } else if s.len() == 1 {
        s[0] as int
    } else {
        let rest = seq_min(s.drop_last());
        if (s.last() as int) < rest {
            s.last() as int
        } else {
            rest
        }
    }
}

/// The largest value among the cells.
pub open spec fn seq_max(s: Seq<i64>) -> int
    decreases s.len(),
{
    if s.len() == 0 {
        0
    } else if s.len() == 1 {
        s[0] as int
    } else {
        let rest = seq_max(s.drop_last());
        if (s.last() as int) > rest {
            s.last() as int
        } else {
            rest
        }
    }
}

/// Law: the auto-computed bounds are the true extremes of the buffer —
/// each is attained by some cell and bounds every cell.
pub proof fn lemma_seq_bounds_characterize(s: Seq<i64>)
    requires
        s.len() > 0,
    ensures
        exists|i: int| 0 <= i < s.len() && s[i] == seq_min(s),
        forall|i: int| 0 <= i < s.len() ==> seq_min(s) <= #[trigger] s[i] as int,
        exists|i: int| 0 <= i < s.len() && s[i] == seq_max(s),
        forall|i: int| 0 <= i < s.len() ==> #[trigger] s[i] as int <= seq_max(s),
    decreases s.len(),
{
    if s.len() == 1 {
        assert(s[0] == seq_min(s));
        assert(s[0] == seq_max(s));
    } else {
        let rest = s.drop_last();
        lemma_seq_bounds_characterize(rest);
        let wmin = choose|i: int| 0 <= i < rest.len() && rest[i] == seq_min(rest);
        let wmax = choose|i: int| 0 <= i < rest.len() && rest[i] == seq_max(rest);
        assert(s[wmin] == rest[wmin]);
        assert(s[wmax] == rest[wmax]);
        assert(s[s.len() - 1] == s.last());
        if (s.last() as int) < seq_min(rest) {
            assert(s[s.len() - 1] == seq_min(s));
        } else {
            assert(s[wmin] == seq_min(s));
        }
        if (s.last() as int) > seq_max(rest) {
            assert(s[s.len() - 1] == seq_max(s));
        } else {
            assert(s[wmax] == seq_max(s));
        }
        assert forall|i: int| 0 <= i < s.len() implies seq_min(s) <= #[trigger] s[i] as int by {
            if i < s.len() - 1 {
                assert(s[i] == rest[i]);
            }
        };
        assert forall|i: int| 0 <= i < s.len() implies #[trigger] s[i] as int <= seq_max(s) by {
            if i < s.len() - 1 {
                assert(s[i] == rest[i]);
            }
        };
    }
}

impl Heatmap {
    /// The lower domain bound the session will scale with: the explicit
    /// bound if one was supplied, else the smallest cell value.
    pub open spec fn effective_min(&self) -> int {
        match self.min_value_spec() {
            Some(v) => v as int,
            None => seq_min(self.cells()),
        }
    }

    /// The upper domain bound the session will scale with: the explicit
    /// bound if one was supplied, else the largest cell value.
    pub open spec fn effective_max(&self) -> int {
        match self.max_value_spec() {
            Some(v) => v as int,
            None => seq_max(self.cells()),
        }
    }

    /// Scans the finished buffer once for its true minimum and maximum.
    fn buffer_bounds(&self) -> (r: (i64, i64))
        requires
            self.wf(),
        ensures
            r.0 == seq_min(self.cells()),
            r.1 == seq_max(self.cells()),
    {
        proof {
            lemma_side_bounds(self.bits_per_pixel);
            let side_g: int = side_of(self.bpp_spec()) as int;
            assert(side_g * side_g >= 1) by (nonlinear_arith)
                requires
                    side_g >= 16,
            ;
        }
        let mut lo: i64 = self.buffer[0];
        let mut hi: i64 = self.buffer[0];
        let mut i: usize = 1;
        while i < self.buffer.len()
            invariant
                self.wf(),
                1 <= i <= self.cells().len(),
                lo == seq_min(self.cells().take(i as int)),
                hi == seq_max(self.cells().take(i as int)),
            decreases self.cells().len() - i,
        {
            let v: i64 = self.buffer[i];
            if v < lo {
                lo = v;
            }
            if v > hi {
                hi = v;
            }
            i = i + 1;
            proof {
                let cells = self.cells();
                assert(cells.take(i as int).drop_last() =~= cells.take(i as int - 1));
                assert(cells.take(i as int).last() == cells[i as int - 1]);
            }
        }
        proof {
            assert(self.cells().take(self.cells().len() as int) =~= self.cells());
        }
        (lo, hi)
    }

    /// The domain the final colouring pass will scale with: explicit
    /// bounds where supplied, the dataset's own extremes where not.
    /// Fails exactly when those bounds collapse, as they do for a
    /// dataset with a single distinct value and no explicit bounds.
    pub fn calculate_domain(&self) -> (r: Result<ScaleDomain, ConfigError>)
        requires
            self.wf(),
        ensures
            r is Ok <==> self.effective_min() < self.effective_max(),
            r is Err ==> r->Err_0 == ConfigError::InvalidDomainBounds,
            r is Ok ==> ({
                let dom = r->Ok_0;
                &&& dom.wf()
                &&& dom.kind_spec() == self.curve_spec()
                &&& dom.min_spec() == self.effective_min()
                &&& dom.max_spec() == self.effective_max()
            }),
    {
        let bounds: (i64, i64) = self.buffer_bounds();
        let min_value: i64 = match self.min_value {
            Some(v) => v,
            None => bounds.0,
        };
        let max_value: i64 = match self.max_value {
            Some(v) => v,
            None => bounds.1,
        };
        ScaleDomain::new(self.curve, min_value, max_value)
    }
}

/// The palette slot a categorical cell selects: nothing below zero (the
/// unpainted sentinel renders fully transparent), otherwise the cell
/// value modulo the palette size.
pub fn palette_index(cell: i64) -> (r: Option<u8>)
    ensures
        cell < 0 ==> r is None,
        cell >= 0 ==> r == Some((cell as int % (PALETTE_SIZE as int)) as u8),
{
    if cell < 0 {
        None
    } else {
        Some((cell as u64 % PALETTE_SIZE) as u8)
    }
}

/// A fatal input error: the 1-based line number and the offending
/// token, kept for the caller's report.
#[derive(Debug)]
pub struct ParseError {
    pub line: usize,
    pub token: Vec<u8>,
}

/// The cells after one non-fatal record is applied: a single address
/// paints its pixel, a range is distributed, everything else is a no-op.
pub open spec fn apply_record_spec(
    cells: Seq<i64>,
    mode: ValueMode,
    accumulate: bool,
    bpp: u8,
    rec: Record,
) -> Seq<i64> {
    match rec {
        Record::Single { addr, value } => {
            let idx = pixel_index_of(addr, bpp);
            cells.update(
                idx,
                cell_write(
                    accumulate,
                    cells[idx] as int,
                    single_weight(mode, value as int, addresses_per_pixel(bpp) as int),
                ) as i64,
            )
        },
        Record::Range { first, last, value } => paint_range_spec(
            cells,
            mode,
            accumulate,
            bpp,
            first as int,
            last as int,
            value as int,
        ),
        _ => cells,
    }
}

/// The cells after a whole input is ingested, with the zero-based index
/// of the first fatal line if one stops the run.
pub open spec fn ingest_spec(
    cells: Seq<i64>,
    mode: ValueMode,
    accumulate: bool,
    bpp: u8,
    lines: Seq<Seq<u8>>,
) -> (Seq<i64>, Option<int>)
    decreases lines.len(),
{
    if lines.len() == 0 {
        (cells, None)
    } else {
        let rec = parse_record_spec(lines[0]);
        if rec is BadAddress {
            (cells, Some(0int))
        } else {
            let next = apply_record_spec(cells, mode, accumulate, bpp, rec);
            let rest = ingest_spec(next, mode, accumulate, bpp, lines.drop_first());
            (
                rest.0,
                match rest.1 {
                    Some(i) => Some(i + 1),
                    None => None,
                },
            )
        }
    }
}

impl Heatmap {
    /// Applies one non-fatal record to the buffer.
    pub fn apply_record(&mut self, rec: Record)
        requires
            old(self).wf(),
            !(rec is BadAddress),
            rec matches Record::Range { first, last, value } ==> first <= last,
        ensures
            final(self).wf(),
            final(self).same_setup(old(self)),
            final(self).cells() == apply_record_spec(
                old(self).cells(),
                old(self).mode_spec(),
                old(self).accumulate_spec(),
                old(self).bpp_spec(),
                rec,
            ),
    {
        match rec {
            Record::Single { addr, value } => self.paint_address(addr, value),
            Record::Range { first, last, value } => self.paint_cidr_range(first, last, value),
            _ => {},
        }
    }

    /// Ingests a whole input, one record per line.  Processing stops at
    /// the first malformed plain address token, reported with its
    /// 1-based line number and the offending token; malformed range
    /// tokens and blank lines only skip their line.
    pub fn process_input_from_string(&mut self, input: &[u8]) -> (r: Result<(), ParseError>)
        requires
            old(self).wf(),
        ensures
            final(self).wf(),
            final(self).same_setup(old(self)),
            ({
                let out = ingest_spec(
                    old(self).cells(),
                    old(self).mode_spec(),
                    old(self).accumulate_spec(),
                    old(self).bpp_spec(),
                    lines_of(input@),
                );
                &&& final(self).cells() == out.0
                &&& (r is Ok <==> out.1 is None)
                &&& (r matches Err(e) ==> {
                    &&& e.line >= 1
                    &&& out.1 == Some(e.line - 1)
                    &&& e.token@ == first_token(lines_of(input@)[e.line - 1])
                })
            }),
    {
        let ghost all = lines_of(input@);
        let ghost cells0 = self.cells();
        let ghost mode = self.mode_spec();
        let ghost acc = self.accumulate_spec();
        let ghost bpp = self.bpp_spec();
        let ghost full = ingest_spec(cells0, mode, acc, bpp, all);
        let mut pos: usize = 0;
        let mut lineno: usize = 0;
        proof {
            assert(all.skip(0) =~= all);
        }
        while pos < input.len()
            invariant
                old(self).wf(),
                self.wf(),
                self.same_setup(old(self)),
                0 <= pos <= input@.len(),
                lineno <= pos,
                cells0 == old(self).cells(),
                mode == old(self).mode_spec(),
                acc == old(self).accumulate_spec(),
                bpp == old(self).bpp_spec(),
                all == lines_of(input@),
                full == ingest_spec(cells0, mode, acc, bpp, all),
                lines_from(input@, pos as int) == all.skip(lineno as int),
                lineno <= all.len(),
                full.0 == ingest_spec(self.cells(), mode, acc, bpp, all.skip(lineno as int)).0,
                full.1 == (match ingest_spec(
                    self.cells(),
                    mode,
                    acc,
                    bpp,
                    all.skip(lineno as int),
                ).1 {
                    Some(i) => Some(i + lineno),
                    None => None,
                }),
            decreases input@.len() - pos,
        {
            let e: usize = scan_line_end(input, pos);
            let line: &[u8] = slice_subrange(input, pos, e);
            let ghost remaining = all.skip(lineno as int);
            proof {
                assert(remaining[0] == line@);
                if e < input@.len() {
                    assert(remaining.drop_first() =~= lines_from(input@, e as int + 1));
                } else {
                    assert(remaining.drop_first() =~= Seq::<Seq<u8>>::empty());
                }
                assert(all.skip(lineno as int + 1) =~= remaining.drop_first());
            }
            let rec: Record = parse_record(line);
            if let Record::BadAddress = rec {
                let a2: usize = scan_separators(line, 0);
                let b2: usize = scan_token(line, a2);
                let token: Vec<u8> = slice_to_vec(slice_subrange(line, a2, b2));
                return Err(ParseError { line: lineno + 1, token });
            }
            self.apply_record(rec);
            if e < input.len() {
                pos = e + 1;
            } else {
                pos = e;
            }
            lineno = lineno + 1;
        }
        proof {
            assert(all.skip(lineno as int) =~= Seq::<Seq<u8>>::empty());
        }
        Ok(())
    }
}

impl Heatmap {
    /// The pixel coordinates an address projects to at this session's
    /// granularity.  Always a point; both coordinates lie below the
    /// grid side.
    pub fn ip_to_xy(&self, ip: u32) -> (r: Option<(u32, u32)>)
        requires
            self.wf(),
        ensures
            r is Some,
            ({
                let (x, y) = r->0;
                &&& x < side_of(self.bpp_spec())
                &&& y < side_of(self.bpp_spec())
                &&& (x as int, y as int) == d2xy(
                    order_of(self.bpp_spec()),
                    distance_of(ip, self.bpp_spec()),
                )
            }),
    {
        Some(address_to_xy(ip, self.bits_per_pixel))
    }
}

/// Range distances stay below the pixel count of the grid.
proof fn lemma_range_distance_bound(addr: int, bpp: u8)
    requires
        valid_bits_per_pixel(bpp),
        0 <= addr < 0x1_0000_0000,
    ensures
        0 <= addr / (addresses_per_pixel(bpp) as int) < pow2(2 * order_of(bpp)),
{
    let p = addresses_per_pixel(bpp) as int;
    lemma2_to64();
    vstd::arithmetic::power2::lemma_pow2_adds(bpp as nat, 2 * order_of(bpp));
    vstd::arithmetic::div_mod::lemma_multiply_divide_lt(addr, p, pow2(2 * order_of(bpp)) as int);
    vstd::arithmetic::div_mod::lemma_div_pos_is_pos(addr, p);
}

/// Law: distributing a range touches exactly the pixels whose curve
/// distances its addresses reach.  Each touched pixel receives one
/// write of the record's weight apportioned to its own overlap, against
/// the cell's value from before the record; every other cell is left
/// untouched.
pub proof fn lemma_paint_range_per_pixel(
    cells: Seq<i64>,
    mode: ValueMode,
    accumulate: bool,
    bpp: u8,
    first: int,
    last: int,
    value: int,
)
    requires
        valid_bits_per_pixel(bpp),
        0 <= first <= last < 0x1_0000_0000,
        cells.len() == side_of(bpp) * side_of(bpp),
    ensures
        ({
            let out = paint_range_spec(cells, mode, accumulate, bpp, first, last, value);
            let p = addresses_per_pixel(bpp) as int;
            &&& out.len() == cells.len()
            &&& forall|dd: int|
                first / p <= dd <= last / p ==> out[#[trigger] pixel_index_of_distance(dd, bpp)]
                    == cell_write(
                    accumulate,
                    cells[pixel_index_of_distance(dd, bpp)] as int,
                    pixel_weight(mode, value, overlap_count(first, last, dd, p), p),
                ) as i64
            &&& forall|i: int|
                0 <= i < cells.len() && !(exists|dd: int|
                    first / p <= dd <= last / p && #[trigger] pixel_index_of_distance(dd, bpp)
                        == i) ==> #[trigger] out[i] == cells[i]
        }),
{
    let p = addresses_per_pixel(bpp) as int;
    lemma_side_bounds(bpp);
    vstd::arithmetic::div_mod::lemma_div_is_ordered(first, last, p);
    lemma_paint_range_upto_per_pixel(
        cells,
        mode,
        accumulate,
        bpp,
        first,
        last,
        value,
        range_pixel_count(first, last, bpp),
    );
}

/// Induction behind `lemma_paint_range_per_pixel`: after the first `n`
/// pixel writes, the first `n` distances are written and nothing else.
proof fn lemma_paint_range_upto_per_pixel(
    cells: Seq<i64>,
    mode: ValueMode,
    accumulate: bool,
    bpp: u8,
    first: int,
    last: int,
    value: int,
    n: nat,
)
    requires
        valid_bits_per_pixel(bpp),
        0 <= first <= last < 0x1_0000_0000,
        cells.len() == side_of(bpp) * side_of(bpp),
        n <= range_pixel_count(first, last, bpp),
    ensures
        ({
            let out = paint_range_upto(cells, mode, accumulate, bpp, first, last, value, n);
            let p = addresses_per_pixel(bpp) as int;
            &&& out.len() == cells.len()
            &&& forall|dd: int|
                first / p <= dd < first / p + n ==> out[#[trigger] pixel_index_of_distance(
                    dd,
                    bpp,
                )] == cell_write(
                    accumulate,
                    cells[pixel_index_of_distance(dd, bpp)] as int,
                    pixel_weight(mode, value, overlap_count(first, last, dd, p), p),
                ) as i64
            &&& forall|i: int|
                0 <= i < cells.len() && !(exists|dd: int|
                    first / p <= dd < first / p + n && #[trigger] pixel_index_of_distance(
                        dd,
                        bpp,
                    ) == i) ==> #[trigger] out[i] == cells[i]
        }),
    decreases n,
{
    let p = addresses_per_pixel(bpp) as int;
    lemma_side_bounds(bpp);
    vstd::arithmetic::div_mod::lemma_div_is_ordered(first, last, p);
    if n > 0 {
        lemma_paint_range_upto_per_pixel(
            cells,
            mode,
            accumulate,
            bpp,
            first,
            last,
            value,
            (n - 1) as nat,
        );
        let prev = paint_range_upto(cells, mode, accumulate, bpp, first, last, value, (
        n - 1) as nat);
        let out = paint_range_upto(cells, mode, accumulate, bpp, first, last, value, n);
        let dd_new = first / p + n - 1;
        lemma_range_distance_bound(first, bpp);
        lemma_range_distance_bound(last, bpp);
        lemma_pixel_index_in_range(dd_new, bpp);
        let idx_new = pixel_index_of_distance(dd_new, bpp);
        assert forall|dd: int| first / p <= dd < first / p + (n - 1) implies #[trigger]
            pixel_index_of_distance(dd, bpp) != idx_new by {
            lemma_pixel_index_injective(bpp, dd, dd_new);
        };
        assert(prev[idx_new] == cells[idx_new]);
        assert(out == prev.update(
            idx_new,
            cell_write(
                accumulate,
                prev[idx_new] as int,
                pixel_weight(mode, value, overlap_count(first, last, dd_new, p), p),
            ) as i64,
        ));
        vstd::arithmetic::div_mod::lemma_div_pos_is_pos(first, p);
        assert forall|dd: int| first / p <= dd < first / p + n implies out[
            #[trigger] pixel_index_of_distance(dd, bpp)
        ] == cell_write(
            accumulate,
            cells[pixel_index_of_distance(dd, bpp)] as int,
            pixel_weight(mode, value, overlap_count(first, last, dd, p), p),
        ) as i64 by {
            lemma_pixel_index_in_range(dd, bpp);
            if dd < dd_new {
                lemma_pixel_index_injective(bpp, dd, dd_new);
            }
        };
        assert forall|i: int|
            0 <= i < cells.len() && !(exists|dd: int|
                first / p <= dd < first / p + n && #[trigger] pixel_index_of_distance(dd, bpp)
                    == i) implies #[trigger] out[i] == cells[i] by {
            assert(i != idx_new);
        };
    }
}

} // verus!
