//! Distance-weighted smoothing across neighbouring buckets.
use vstd::arithmetic::div_mod::{lemma_div_by_multiple, lemma_div_is_ordered};
use vstd::arithmetic::mul::lemma_mul_inequality;
use vstd::prelude::*;

verus! {

/// The weight of distance 0. Being the least common multiple of 1..=16, the
/// weight `1 / (1 + d)` is held exactly for every distance `d` up to 15.
pub const WEIGHT_SCALE: u64 = 720720;

/// Weight of a neighbour at distance `d`: `1 / (1 + d)` in units of `WEIGHT_SCALE`.
pub open spec fn weight(d: nat) -> nat {
    (WEIGHT_SCALE as nat) / (d + 1)
}

pub open spec fn distance(i: int, j: int) -> nat {
    if i <= j {
        (j - i) as nat
    } else {
        (i - j) as nat
    }
}

/// First index of the neighbourhood of `i` (clamped at the start).
pub open spec fn window_lo(i: int, radius: nat) -> int {
    if i >= radius {
        i - radius
    } else {
        0
    }
}

/// One past the last index of the neighbourhood of `i` (clamped at the end).
pub open spec fn window_hi(len: int, i: int, radius: nat) -> int {
    if i + radius + 1 <= len {
        i + radius + 1
    } else {
        len
    }
}

/// Sum of `s[j] * weight(|i - j|)` for `j` in `lo..hi`.
pub open spec fn weighted_sum(s: Seq<u32>, i: int, lo: int, hi: int) -> int
    decreases hi - lo,
{
    if hi <= lo {
        0
    } else {
        weighted_sum(s, i, lo, hi - 1) + s[hi - 1] * weight(distance(i, hi - 1))
    }
}

/// Sum of `weight(|i - j|)` for `j` in `lo..hi`.
pub open spec fn weight_total(i: int, lo: int, hi: int) -> int
    decreases hi - lo,
{
    if hi <= lo {
        0
    } else {
        weight_total(i, lo, hi - 1) + weight(distance(i, hi - 1))
    }
}

/// Weighted average (rounded down) of the neighbourhood of `i` within `radius`.
pub open spec fn smoothed_value(s: Seq<u32>, radius: nat, i: int) -> int {
    let lo = window_lo(i, radius);
    let hi = window_hi(s.len() as int, i, radius);
    weighted_sum(s, i, lo, hi) / weight_total(i, lo, hi)
}

/// One pass: every value is replaced by the weighted average of the previous
/// pass's values around it.
pub open spec fn smooth_pass(s: Seq<u32>, radius: nat) -> Seq<u32> {
    Seq::new(s.len(), |i: int| smoothed_value(s, radius, i) as u32)
}

/// `passes` passes one after the other.
pub open spec fn smooth_passes(s: Seq<u32>, passes: nat, radius: nat) -> Seq<u32>
    decreases passes,
{
    if passes == 0 {
        s
    } else {
        smooth_pass(smooth_passes(s, (passes - 1) as nat, radius), radius)
    }
}

proof fn lemma_weight_total_positive(i: int, lo: int, hi: int)
    requires
        lo <= i < hi,
    ensures
        weight_total(i, lo, hi) >= WEIGHT_SCALE,
    decreases hi - lo,
{
    if hi - 1 > i {
        lemma_weight_total_positive(i, lo, hi - 1);
    } else {
        lemma_weight_total_nonneg(i, lo, hi - 1);
        assert(distance(i, hi - 1) == 0);
        lemma_div_by_multiple(WEIGHT_SCALE as int, 1);
        assert(weight(0) == WEIGHT_SCALE);
    }
}

proof fn lemma_weight_total_nonneg(i: int, lo: int, hi: int)
    ensures
        weight_total(i, lo, hi) >= 0,
    decreases hi - lo,
{
    if hi > lo {
        lemma_weight_total_nonneg(i, lo, hi - 1);
    }
}

/// Bounds of the weighted sum by the bounds of the values it weighs.
proof fn lemma_weighted_sum_bounds(s: Seq<u32>, i: int, lo: int, hi: int, low: int, high: int)
    requires
        0 <= lo,
        hi <= s.len(),
        forall|j: int| lo <= j < hi ==> low <= #[trigger] s[j] <= high,
    ensures
        low * weight_total(i, lo, hi) <= weighted_sum(s, i, lo, hi) <= high * weight_total(i, lo, hi),
    decreases hi - lo,
{
    if hi > lo {
        lemma_weighted_sum_bounds(s, i, lo, hi - 1, low, high);
        let w = weight(distance(i, hi - 1)) as int;
        lemma_mul_inequality(low, s[hi - 1] as int, w);
        lemma_mul_inequality(s[hi - 1] as int, high, w);
        assert(low * weight_total(i, lo, hi) == low * weight_total(i, lo, hi - 1) + low * w)
            by (nonlinear_arith)
            requires
                weight_total(i, lo, hi) == weight_total(i, lo, hi - 1) + w,
        ;
        assert(high * weight_total(i, lo, hi) == high * weight_total(i, lo, hi - 1) + high * w)
            by (nonlinear_arith)
            requires
                weight_total(i, lo, hi) == weight_total(i, lo, hi - 1) + w,
        ;
    }
}

/// A smoothed value never leaves the range of the values it was made from.
proof fn lemma_smoothed_value_bounds(s: Seq<u32>, radius: nat, i: int, low: int, high: int)
    requires
        0 <= i < s.len(),
        0 <= low,
        forall|j: int| 0 <= j < s.len() ==> low <= #[trigger] s[j] <= high,
    ensures
        low <= smoothed_value(s, radius, i) <= high,
{
    let lo = window_lo(i, radius);
    let hi = window_hi(s.len() as int, i, radius);
    let total = weight_total(i, lo, hi);
    lemma_weight_total_positive(i, lo, hi);
    lemma_weighted_sum_bounds(s, i, lo, hi, low, high);
    lemma_div_is_ordered(low * total, weighted_sum(s, i, lo, hi), total);
    lemma_div_is_ordered(weighted_sum(s, i, lo, hi), high * total, total);
    lemma_div_by_multiple(low, total);
    lemma_div_by_multiple(high, total);
}

/// No overshoot: after one smoothing pass, whatever the radius, every value
/// lies between the smallest and the largest value of the input.
pub proof fn lemma_smooth_pass_no_overshoot(s: Seq<u32>, radius: nat, low: u32, high: u32)
    requires
        forall|j: int| 0 <= j < s.len() ==> low <= #[trigger] s[j] <= high,
    ensures
        smooth_pass(s, radius).len() == s.len(),
        forall|i: int| 0 <= i < s.len() ==> low <= #[trigger] smooth_pass(s, radius)[i] <= high,
{
    assert forall|i: int| 0 <= i < s.len() implies low <= #[trigger] smooth_pass(s, radius)[i]
        <= high by {
        lemma_smoothed_value_bounds(s, radius, i, low as int, high as int);
    }
}

/// No overshoot over many passes: however many passes are made, every value
/// stays between the smallest and the largest value of the input.
pub proof fn lemma_smooth_passes_no_overshoot(s: Seq<u32>, passes: nat, radius: nat, low: u32, high: u32)
    requires
        forall|j: int| 0 <= j < s.len() ==> low <= #[trigger] s[j] <= high,
    ensures
        smooth_passes(s, passes, radius).len() == s.len(),
        forall|i: int|
            0 <= i < s.len() ==> low <= #[trigger] smooth_passes(s, passes, radius)[i] <= high,
    decreases passes,
{
    if passes > 0 {
        let before = smooth_passes(s, (passes - 1) as nat, radius);
        lemma_smooth_passes_no_overshoot(s, (passes - 1) as nat, radius, low, high);
        lemma_smooth_pass_no_overshoot(before, radius, low, high);
    }
}

/// Runs one smoothing pass over `src`, reading only the previous values.
fn smooth_pass_once(src: &Vec<u32>, radius: u32) -> (r: Vec<u32>)
    ensures
        r@ == smooth_pass(src@, radius as nat),
{
    let len = src.len();
    let rad = radius as usize;
    let mut out: Vec<u32> = Vec::with_capacity(len);
    let mut i: usize = 0;
    while i < len
        invariant
            i <= len,
            len == src@.len(),
            rad == radius,
            out@.len() == i,
            forall|k: int| 0 <= k < i ==> out@[k] == smooth_pass(src@, radius as nat)[k],
        decreases len - i,
    {
        let lo: usize = if i >= rad {
            i - rad
        } else {
            0
        };
        let hi: usize = if len - i > rad {
            i + rad + 1
        } else {
            len
        };
        let mut sum: u128 = 0;
        let mut total: u128 = 0;
        let mut j: usize = lo;
        while j < hi
            invariant
                lo == window_lo(i as int, radius as nat),
                hi == window_hi(len as int, i as int, radius as nat),
                lo <= j <= hi,
                i < len,
                len == src@.len(),
                rad == radius,
                sum == weighted_sum(src@, i as int, lo as int, j as int),
                total == weight_total(i as int, lo as int, j as int),
                sum <= (j - lo) * 0x10_0000_0000_0000,
                total <= (j - lo) * WEIGHT_SCALE,
            decreases hi - j,
        {
            let d: usize = if j >= i {
                j - i
            } else {
                i - j
            };
            let w: u64 = WEIGHT_SCALE / (d as u64 + 1);
            let v: u32 = src[j];
            proof {
                assert(w <= WEIGHT_SCALE) by {
                    lemma_div_is_ordered(WEIGHT_SCALE as int, WEIGHT_SCALE as int * (d + 1), d + 1);
                    lemma_div_by_multiple(WEIGHT_SCALE as int, d + 1);
                    lemma_mul_inequality(1, d + 1, WEIGHT_SCALE as int);
                }
                assert(v * w <= 0x10_0000_0000_0000) by (nonlinear_arith)
                    requires
                        v <= 0xffff_ffff,
                        w <= WEIGHT_SCALE,
                ;
            }
            sum = sum + (v as u128) * (w as u128);
            total = total + w as u128;
            j = j + 1;
        }
        proof {
            lemma_smoothed_value_bounds(src@, radius as nat, i as int, 0, 0xffff_ffff);
            lemma_weight_total_positive(i as int, lo as int, hi as int);
        }
        out.push((sum / total) as u32);
        i = i + 1;
    }
    proof {
        assert(out@ =~= smooth_pass(src@, radius as nat));
    }
    out
}

/// Smooths `buffer` in place with `smoothing` passes over neighbourhoods of
/// `smoothing_size` buckets on either side, each bucket weighted by
/// `1 / (1 + distance)`. No pass is made for 0; a radius of 0 leaves every
/// value as it is.
pub fn smooth(buffer: &mut Vec<u32>, smoothing: u32, smoothing_size: u32)
    ensures
        final(buffer)@ == smooth_passes(old(buffer)@, smoothing as nat, smoothing_size as nat),
        final(buffer)@.len() == old(buffer)@.len(),
{
    let mut pass: u32 = 0;
    while pass < smoothing
        invariant
            pass <= smoothing,
            buffer@ == smooth_passes(old(buffer)@, pass as nat, smoothing_size as nat),
            buffer@.len() == old(buffer)@.len(),
        decreases smoothing - pass,
    {
        let next = smooth_pass_once(buffer, smoothing_size);
        *buffer = next;
        pass = pass + 1;
    }
}

} // verus!
