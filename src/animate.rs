//! Per-bucket easing of the displayed levels towards each new frame.
use vstd::arithmetic::div_mod::{lemma_div_by_multiple, lemma_div_is_ordered};
use vstd::arithmetic::mul::lemma_mul_inequality;
use vstd::prelude::*;

verus! {

/// The interpolation factor 1.0: a factor `a` stands for `a / ALPHA_ONE`.
pub const ALPHA_ONE: u32 = 65536;

/// `prev` moved towards `cur` by the fraction `alpha / ALPHA_ONE` of the gap.
/// The step is rounded up, so that any factor above zero makes progress.
pub open spec fn approach(prev: int, cur: int, alpha: int) -> int {
    if cur >= prev {
        prev + ((cur - prev) * alpha + ALPHA_ONE - 1) / (ALPHA_ONE as int)
    } else {
        prev - ((prev - cur) * alpha + ALPHA_ONE - 1) / (ALPHA_ONE as int)
    }
}

/// Each previous level moved towards the matching current level.
pub open spec fn animate_seq(prev: Seq<u32>, cur: Seq<u32>, alpha: int) -> Seq<u32> {
    Seq::new(prev.len(), |i: int| approach(prev[i] as int, cur[i] as int, alpha) as u32)
}

pub open spec fn gap(a: int, b: int) -> int {
    if a <= b {
        b - a
    } else {
        a - b
    }
}

/// The step towards the target never passes it, and is at least 1 when the
/// factor and the gap are above zero.
proof fn lemma_step_bounds(d: int, alpha: int)
    requires
        0 <= d,
        0 <= alpha <= ALPHA_ONE,
    ensures
        0 <= (d * alpha + ALPHA_ONE - 1) / (ALPHA_ONE as int) <= d,
        d > 0 && alpha > 0 ==> (d * alpha + ALPHA_ONE - 1) / (ALPHA_ONE as int) >= 1,
        alpha == ALPHA_ONE ==> (d * alpha + ALPHA_ONE - 1) / (ALPHA_ONE as int) == d,
{
    let one = ALPHA_ONE as int;
    lemma_mul_inequality(alpha, one, d);
    assert(d * alpha >= 0) by (nonlinear_arith)
        requires
            d >= 0,
            alpha >= 0,
    ;
    lemma_div_is_ordered(0, d * alpha + one - 1, one);
    lemma_div_is_ordered(d * alpha + one - 1, d * one + one - 1, one);
    assert((d * one + one - 1) / one == d) by (nonlinear_arith)
        requires
            one == 65536,
            d >= 0,
    ;
    if d > 0 && alpha > 0 {
        assert(d * alpha >= 1) by (nonlinear_arith)
            requires
                d >= 1,
                alpha >= 1,
        ;
        lemma_div_is_ordered(one, d * alpha + one - 1, one);
        lemma_div_by_multiple(1, one);
    }
}

/// Steady approach: with a factor in `(0, ALPHA_ONE]` every level that is not
/// yet at its target gets strictly closer to it without passing it, and with
/// the factor `ALPHA_ONE` every level lands on its target at once.
pub proof fn lemma_animate_approaches(prev: Seq<u32>, cur: Seq<u32>, alpha: u32)
    requires
        prev.len() == cur.len(),
        alpha <= ALPHA_ONE,
    ensures
        animate_seq(prev, cur, alpha as int).len() == prev.len(),
        forall|i: int|
            0 <= i < prev.len() ==> gap(#[trigger] animate_seq(prev, cur, alpha as int)[i] as int,
                cur[i] as int) <= gap(prev[i] as int, cur[i] as int),
        forall|i: int|
            0 <= i < prev.len() && 0 < alpha && prev[i] != cur[i] ==> gap(
                #[trigger] animate_seq(prev, cur, alpha as int)[i] as int,
                cur[i] as int,
            ) < gap(prev[i] as int, cur[i] as int),
        alpha == ALPHA_ONE ==> animate_seq(prev, cur, alpha as int) == cur,
{
    assert forall|i: int| 0 <= i < prev.len() implies {
        let a = #[trigger] animate_seq(prev, cur, alpha as int)[i] as int;
        &&& gap(a, cur[i] as int) <= gap(prev[i] as int, cur[i] as int)
        &&& (0 < alpha && prev[i] != cur[i] ==> gap(a, cur[i] as int) < gap(
            prev[i] as int,
            cur[i] as int,
        ))
        &&& (alpha == ALPHA_ONE ==> a == cur[i])
    } by {
        lemma_step_bounds(gap(prev[i] as int, cur[i] as int), alpha as int);
    }
    if alpha == ALPHA_ONE {
        assert(animate_seq(prev, cur, alpha as int) =~= cur);
    }
}

/// The state that persists from frame to frame: the levels shown last.
pub struct AudioVisualizerState {
    previous_buckets: Vec<u32>,
}

impl View for AudioVisualizerState {
    type V = Seq<u32>;

    closed spec fn view(&self) -> Seq<u32> {
        self.previous_buckets@
    }
}

impl AudioVisualizerState {
    /// A state of `num_buckets` levels, all at zero.
    pub fn new(num_buckets: usize) -> (s: Self)
        ensures
            s@ == Seq::new(num_buckets as nat, |i: int| 0u32),
    {
        let mut levels: Vec<u32> = Vec::with_capacity(num_buckets);
        let mut k: usize = 0;
        while k < num_buckets
            invariant
                k <= num_buckets,
                levels@ == Seq::new(k as nat, |i: int| 0u32),
            decreases num_buckets - k,
        {
            levels.push(0);
            k = k + 1;
            proof {
                assert(levels@ =~= Seq::new(k as nat, |i: int| 0u32));
            }
        }
        AudioVisualizerState { previous_buckets: levels }
    }

    /// The levels shown last.
    pub fn levels(&self) -> (r: &Vec<u32>)
        ensures
            r@ == self@,
    {
        &self.previous_buckets
    }

    /// Number of buckets.
    pub fn len(&self) -> (n: usize)
        ensures
            n == self@.len(),
    {
        self.previous_buckets.len()
    }

    /// Moves every level towards `current_buckets` by the factor
    /// `interpolation_factor / ALPHA_ONE`, keeps the result for the next
    /// frame and returns it.
    pub fn animate_buckets(&mut self, current_buckets: &Vec<u32>, interpolation_factor: u32) -> (r:
        Vec<u32>)
        requires
            current_buckets@.len() == old(self)@.len(),
            interpolation_factor <= ALPHA_ONE,
        ensures
            r@ == animate_seq(old(self)@, current_buckets@, interpolation_factor as int),
            final(self)@ == r@,
    {
        let ghost prev = self.previous_buckets@;
        let len = self.previous_buckets.len();
        let mut animated: Vec<u32> = Vec::with_capacity(len);
        let mut i: usize = 0;
        while i < len
            invariant
                i <= len,
                len == prev.len(),
                current_buckets@.len() == len,
                self.previous_buckets@ == prev,
                interpolation_factor <= ALPHA_ONE,
                animated@.len() == i,
                forall|k: int|
                    0 <= k < i ==> animated@[k] == animate_seq(
                        prev,
                        current_buckets@,
                        interpolation_factor as int,
                    )[k],
            decreases len - i,
        {
            let p = self.previous_buckets[i];
            let c = current_buckets[i];
            proof {
                lemma_step_bounds(gap(p as int, c as int), interpolation_factor as int);
                assert(gap(p as int, c as int) * interpolation_factor <= 0xffff_ffff * 65536)
                    by (nonlinear_arith)
                    requires
                        gap(p as int, c as int) <= 0xffff_ffff,
                        interpolation_factor <= 65536,
                ;
            }
            let next: u32 = if c >= p {
                let step = (((c - p) as u64) * (interpolation_factor as u64) + (ALPHA_ONE as u64 - 1))
                    / (ALPHA_ONE as u64);
                p + step as u32
            } else {
                let step = (((p - c) as u64) * (interpolation_factor as u64) + (ALPHA_ONE as u64 - 1))
                    / (ALPHA_ONE as u64);
                p - step as u32
            };
            animated.push(next);
            i = i + 1;
        }
        proof {
            assert(animated@ =~= animate_seq(prev, current_buckets@, interpolation_factor as int));
        }
        self.previous_buckets = animated.clone();
        animated
    }
}

} // verus!
