//! The time grid of the visible range: steps of a power of two nanoseconds,
//! wide enough that an event of one step covers two pixels.

use crate::trace::Nanos;
use std::ops::Range;
use vstd::arithmetic::power2::{lemma2_to64, lemma2_to64_rest, pow2};
use vstd::bits::lemma_u64_shl_is_mul;
use vstd::prelude::*;
use vstd::std_specs::bits::{axiom_u64_leading_zeros, u64_leading_zeros};

verus! {

/// The grid by which the timeline view rounds times.
#[derive(Debug)]
pub struct ViewQuant {
    pub time_step: Nanos,
}

/// The largest multiple of `step` that is not above `x`.
pub open spec fn rounded_down(x: int, step: int) -> int {
    x - x % step
}

impl ViewQuant {
    /// The grid for showing `range` on `width` pixels: the step is the power of
    /// two of `b` where `b` is the number of bits that twice the nanoseconds
    /// per pixel take.
    pub fn new(range: &Range<Nanos>, width: u64) -> (quant: Self)
        requires
            range.start <= range.end,
            width > 0,
            (range.end - range.start) / (width as int) < 0x4000_0000_0000_0000,
        ensures
            quant.time_step == pow2(
                (64 - u64_leading_zeros((2 * ((range.end - range.start) / (width as int))) as u64)) as nat,
            ),
            2 * ((range.end - range.start) / (width as int)) < quant.time_step,
            quant.time_step <= 4 * ((range.end - range.start) / (width as int)) || quant.time_step
                == 1,
            quant.time_step >= 1,
    {
        let ns_per_px = (range.end - range.start) / width;
        let min_event_px: u64 = 2;
        let shown = ns_per_px * min_event_px;
        let zeros = shown.leading_zeros();
        proof {
            axiom_u64_leading_zeros(shown);
            lemma_bits_bound(shown);
            lemma2_to64();
            lemma2_to64_rest();
            assert(zeros >= 1) by {
                if zeros == 0 {
                    assert((shown >> 63u64) & 1u64 != 0u64 ==> shown >= 0x8000_0000_0000_0000u64)
                        by (bit_vector);
                }
            }
            let bits = (64 - zeros) as nat;
            assert(pow2(bits) <= pow2(63)) by {
                if bits < 63 {
                    vstd::arithmetic::power2::lemma_pow2_strictly_increases(bits, 63);
                }
            }
            lemma_u64_shl_is_mul(1, (64 - zeros) as u64);
        }
        let step = 1u64 << (64 - zeros);
        Self { time_step: if step < 1 { 1 } else { step } }
    }

    /// `x`, rounded down to the grid.
    pub fn round_down(&self, x: Nanos) -> (rounded: Nanos)
        requires
            self.time_step > 0,
        ensures
            rounded == rounded_down(x as int, self.time_step as int),
            rounded <= x < rounded + self.time_step,
            rounded % self.time_step == 0,
    {
        proof {
            let step = self.time_step as int;
            vstd::arithmetic::div_mod::lemma_fundamental_div_mod(x as int, step);
            vstd::arithmetic::div_mod::lemma_mod_multiples_basic(x as int / step, step);
            vstd::arithmetic::mul::lemma_mul_is_commutative(x as int / step, step);
        }
        x - (x % self.time_step)
    }

    /// The grid cells that `range` touches: from its start rounded down to one
    /// step behind its end rounded down.
    pub fn quantize(&self, range: &Range<Nanos>) -> (cells: Range<Nanos>)
        requires
            self.time_step > 0,
            rounded_down(range.end as int, self.time_step as int) + self.time_step <= u64::MAX,
        ensures
            cells.start == rounded_down(range.start as int, self.time_step as int),
            cells.end == rounded_down(range.end as int, self.time_step as int) + self.time_step,
    {
        self.round_down(range.start)..(self.round_down(range.end) + self.time_step)
    }
}

/// A number is below the power of two of the bits it takes, and not below half
/// of that unless it is zero.
proof fn lemma_bits_bound(v: u64)
    ensures
        u64_leading_zeros(v) >= 1 ==> v < pow2((64 - u64_leading_zeros(v)) as nat),
        v > 0 ==> pow2((64 - u64_leading_zeros(v)) as nat) <= 2 * v,
        v == 0 ==> pow2((64 - u64_leading_zeros(v)) as nat) == 1,
    decreases v,
{
    reveal(u64_leading_zeros);
    axiom_u64_leading_zeros(v);
    axiom_u64_leading_zeros(v / 2);
    lemma2_to64();
    if v > 0 {
        lemma_bits_bound(v / 2);
        vstd::arithmetic::power2::lemma_pow2_unfold((64 - u64_leading_zeros(v)) as nat);
    }
}

} // verus!
