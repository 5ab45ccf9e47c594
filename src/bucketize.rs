//! Gathering of spectrum bins into logarithmic frequency buckets.
use vstd::arithmetic::mul::lemma_mul_inequality;
use vstd::prelude::*;

verus! {

/// `r` is the square root of `x`, rounded down.
pub open spec fn is_floor_sqrt(x: nat, r: nat) -> bool {
    r * r <= x < (r + 1) * (r + 1)
}

/// The square root of `x`, rounded down.
pub open spec fn floor_sqrt_of(x: nat) -> nat {
    choose|r: nat| is_floor_sqrt(x, r)
}

proof fn lemma_floor_sqrt_unique(x: nat, r: nat)
    requires
        is_floor_sqrt(x, r),
    ensures
        floor_sqrt_of(x) == r,
{
    let q = floor_sqrt_of(x);
    assert(is_floor_sqrt(x, q));
    if q < r {
        lemma_mul_inequality(q + 1 as int, r as int, q + 1 as int);
        lemma_mul_inequality(q + 1 as int, r as int, r as int);
    } else if r < q {
        lemma_mul_inequality(r + 1 as int, q as int, r + 1 as int);
        lemma_mul_inequality(r + 1 as int, q as int, q as int);
    }
}

/// The square root of `x`, rounded down, found by bisection.
pub fn floor_sqrt(x: u64) -> (r: u32)
    ensures
        is_floor_sqrt(x as nat, r as nat),
        r == floor_sqrt_of(x as nat),
{
    let mut lo: u64 = 0;
    let mut hi: u64 = 0x1_0000_0000;
    proof {
        assert(hi * hi == 0x1_0000_0000_0000_0000) by (nonlinear_arith)
            requires
                hi == 0x1_0000_0000,
        ;
    }
    while hi - lo > 1
        invariant
            lo < hi <= 0x1_0000_0000,
            lo * lo <= x,
            x < hi * hi,
        decreases hi - lo,
    {
        let mid: u64 = lo + (hi - lo) / 2;
        proof {
            assert(mid * mid <= 0xffff_ffff * 0xffff_ffff) by (nonlinear_arith)
                requires
                    mid < 0x1_0000_0000,
            ;
        }
        if mid * mid <= x {
            lo = mid;
        } else {
            hi = mid;
        }
    }
    proof {
        assert(hi == lo + 1);
        lemma_floor_sqrt_unique(x as nat, lo as nat);
    }
    lo as u32
}

/// Energy of bucket `k`: the sum of `power[i]` over the bins `i < upto`
/// whose bucket index is `k`.
pub open spec fn bucket_energy(power: Seq<u32>, bin_bucket: Seq<i64>, k: int, upto: int) -> int
    decreases upto,
{
    if upto <= 0 {
        0
    } else {
        bucket_energy(power, bin_bucket, k, upto - 1) + if bin_bucket[upto - 1] == k {
            power[upto - 1] as int
        } else {
            0
        }
    }
}

/// The energy of bucket `k` over the lower half of the spectrum (the bins
/// below the Nyquist frequency), held at `u64::MAX` when it is larger.
pub open spec fn held_energy(power: Seq<u32>, bin_bucket: Seq<i64>, k: int) -> nat {
    let e = bucket_energy(power, bin_bucket, k, (power.len() / 2) as int);
    if e > u64::MAX {
        u64::MAX as nat
    } else {
        e as nat
    }
}

/// The level of every bucket: the square root of its energy, rounded down.
pub open spec fn bucket_levels(power: Seq<u32>, bin_bucket: Seq<i64>, num_buckets: nat) -> Seq<u32> {
    Seq::new(num_buckets, |k: int| floor_sqrt_of(held_energy(power, bin_bucket, k)) as u32)
}

proof fn lemma_bucket_energy_nonneg(power: Seq<u32>, bin_bucket: Seq<i64>, k: int, upto: int)
    ensures
        bucket_energy(power, bin_bucket, k, upto) >= 0,
    decreases upto,
{
    if upto > 0 {
        lemma_bucket_energy_nonneg(power, bin_bucket, k, upto - 1);
    }
}

/// Gathers the bins of a spectrum into `num_buckets` buckets.
///
/// `power[i]` is the squared magnitude of bin `i`, and `bin_bucket[i]` the
/// logarithmic bucket index that the frequency of bin `i` falls in (rounded
/// down), for each bin of the lower half of the spectrum. A bin whose index
/// lies outside `0..num_buckets` (below the lowest frequency, or above the
/// highest) is left out. Each bucket sums the power of its bins, and its
/// level is the square root of that sum, rounded down; so no level is ever
/// negative.
pub fn bucketize_fft_to_ranges(power: &Vec<u32>, bin_bucket: &Vec<i64>, num_buckets: usize) -> (r:
    Vec<u32>)
    requires
        bin_bucket@.len() == power@.len() / 2,
    ensures
        r@ == bucket_levels(power@, bin_bucket@, num_buckets as nat),
        forall|k: int|
            0 <= k < num_buckets ==> is_floor_sqrt(
                held_energy(power@, bin_bucket@, k),
                #[trigger] r@[k] as nat,
            ),
{
    let mut sums: Vec<u64> = Vec::with_capacity(num_buckets);
    let mut k: usize = 0;
    while k < num_buckets
        invariant
            k <= num_buckets,
            sums@.len() == k,
            forall|m: int| 0 <= m < k ==> sums@[m] == 0,
        decreases num_buckets - k,
    {
        sums.push(0);
        k = k + 1;
    }
    let half = power.len() / 2;
    let mut i: usize = 0;
    while i < half
        invariant
            i <= half,
            half == power@.len() / 2,
            bin_bucket@.len() == half,
            sums@.len() == num_buckets,
            forall|m: int|
                0 <= m < num_buckets ==> {
                    let e = bucket_energy(power@, bin_bucket@, m, i as int);
                    #[trigger] sums@[m] == if e > u64::MAX {
                        u64::MAX as int
                    } else {
                        e
                    }
                },
        decreases half - i,
    {
        let b: i64 = bin_bucket[i];
        if b >= 0 && (b as u64) < (num_buckets as u64) {
            let at = b as usize;
            let added = sums[at].saturating_add(power[i] as u64);
            sums.set(at, added);
        }
        proof {
            assert forall|m: int| 0 <= m < num_buckets implies {
                let e = bucket_energy(power@, bin_bucket@, m, i + 1);
                #[trigger] sums@[m] == if e > u64::MAX {
                    u64::MAX as int
                } else {
                    e
                }
            } by {
                lemma_bucket_energy_nonneg(power@, bin_bucket@, m, i as int);
            }
        }
        i = i + 1;
    }
    let mut out: Vec<u32> = Vec::with_capacity(num_buckets);
    let mut k: usize = 0;
    while k < num_buckets
        invariant
            k <= num_buckets,
            half == power@.len() / 2,
            sums@.len() == num_buckets,
            out@.len() == k,
            forall|m: int|
                0 <= m < num_buckets ==> #[trigger] sums@[m] == held_energy(power@, bin_bucket@, m),
            forall|m: int|
                0 <= m < k ==> is_floor_sqrt(
                    held_energy(power@, bin_bucket@, m),
                    #[trigger] out@[m] as nat,
                ),
            forall|m: int|
                0 <= m < k ==> #[trigger] out@[m] == floor_sqrt_of(
                    held_energy(power@, bin_bucket@, m),
                ),
        decreases num_buckets - k,
    {
        let level = floor_sqrt(sums[k]);
        out.push(level);
        k = k + 1;
    }
    proof {
        assert(out@ =~= bucket_levels(power@, bin_bucket@, num_buckets as nat));
    }
    out
}

} // verus!
