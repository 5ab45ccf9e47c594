//! Rescaling of the levels by their peak, packed four to a group for display.
use vstd::arithmetic::div_mod::{lemma_div_by_multiple, lemma_div_is_ordered};
use vstd::arithmetic::mul::lemma_mul_inequality;
use vstd::prelude::*;

verus! {

/// The output level 1.0: an output `v` stands for `v / FULL_SCALE`.
pub const FULL_SCALE: u32 = 65536;

/// The largest value of `s`, or 0 when `s` is empty.
pub open spec fn seq_max(s: Seq<u32>) -> nat
    decreases s.len(),
{
    if s.len() == 0 {
        0
    } else {
        let m = seq_max(s.drop_last());
        if s.last() > m {
            s.last() as nat
        } else {
            m
        }
    }
}

/// `v` relative to the peak `peak`, in units of `FULL_SCALE`, rounded down;
/// 0 when the peak is 0 (silence).
pub open spec fn normalized(v: nat, peak: nat) -> nat {
    if peak == 0 {
        0
    } else {
        v * (FULL_SCALE as nat) / peak
    }
}

/// The output slot `i`: bucket `i` rescaled by the peak, or 0 where no bucket
/// stands at `i`.
pub open spec fn packed_value(buckets: Seq<u32>, i: int) -> nat {
    if 0 <= i < buckets.len() {
        normalized(buckets[i] as nat, seq_max(buckets))
    } else {
        0
    }
}

/// Number of groups of four that hold `n` values.
pub open spec fn group_count(n: nat) -> nat {
    (n + 3) / 4
}

/// `out` holds `buckets` rescaled by their peak, four to a group, in order.
pub open spec fn is_packing(out: Seq<[u32; 4]>, buckets: Seq<u32>) -> bool {
    &&& out.len() == group_count(buckets.len())
    &&& forall|g: int, c: int|
        0 <= g < out.len() && 0 <= c < 4 ==> #[trigger] out[g][c] == packed_value(buckets, 4 * g + c)
}

proof fn lemma_seq_max_bounds(s: Seq<u32>)
    ensures
        forall|i: int| 0 <= i < s.len() ==> #[trigger] s[i] <= seq_max(s),
        s.len() > 0 ==> exists|i: int| 0 <= i < s.len() && s[i] == seq_max(s),
        s.len() == 0 ==> seq_max(s) == 0,
        seq_max(s) <= u32::MAX,
    decreases s.len(),
{
    if s.len() > 0 {
        lemma_seq_max_bounds(s.drop_last());
        assert forall|i: int| 0 <= i < s.len() implies #[trigger] s[i] <= seq_max(s) by {
            if i < s.len() - 1 {
                assert(s[i] == s.drop_last()[i]);
            }
        }
        if s.len() > 1 && s.last() <= seq_max(s.drop_last()) {
            let j = choose|j: int|
                0 <= j < s.drop_last().len() && s.drop_last()[j] == seq_max(s.drop_last());
            assert(s[j] == seq_max(s));
        } else {
            assert(s[s.len() - 1] == seq_max(s));
        }
    }
}

proof fn lemma_normalized_bounds(v: nat, peak: nat)
    requires
        v <= peak,
    ensures
        normalized(v, peak) <= FULL_SCALE,
        peak > 0 && v == peak ==> normalized(v, peak) == FULL_SCALE,
{
    if peak > 0 {
        lemma_mul_inequality(v as int, peak as int, FULL_SCALE as int);
        lemma_div_is_ordered(v * FULL_SCALE, peak * FULL_SCALE, peak as int);
        lemma_div_by_multiple(FULL_SCALE as int, peak as int);
        assert(peak * FULL_SCALE == FULL_SCALE * peak) by (nonlinear_arith);
    }
}

/// Rescales `buckets` by their peak and packs them in order, four to a group:
/// bucket `i` goes to component `i % 4` of group `i / 4`, and the slots of the
/// last group that no bucket fills stay 0.
///
/// Every output lies in `0..=FULL_SCALE`; where some bucket is above zero, the
/// peak buckets give exactly `FULL_SCALE`; all-zero input gives all-zero output.
pub fn normalize_buckets(buckets: &Vec<u32>) -> (r: Vec<[u32; 4]>)
    ensures
        is_packing(r@, buckets@),
        forall|g: int, c: int|
            0 <= g < r@.len() && 0 <= c < 4 ==> #[trigger] r@[g][c] <= FULL_SCALE,
        forall|i: int|
            0 <= i < buckets@.len() && seq_max(buckets@) > 0 && buckets@[i] == seq_max(buckets@)
                ==> #[trigger] r@[i / 4][i % 4] == FULL_SCALE,
        seq_max(buckets@) == 0 ==> forall|g: int, c: int|
            0 <= g < r@.len() && 0 <= c < 4 ==> #[trigger] r@[g][c] == 0,
{
    let len = buckets.len();
    let mut peak: u32 = 0;
    let mut i: usize = 0;
    while i < len
        invariant
            i <= len,
            len == buckets@.len(),
            peak == seq_max(buckets@.subrange(0, i as int)),
        decreases len - i,
    {
        proof {
            assert(buckets@.subrange(0, i + 1).drop_last() =~= buckets@.subrange(0, i as int));
        }
        if buckets[i] > peak {
            peak = buckets[i];
        }
        i = i + 1;
    }
    proof {
        assert(buckets@.subrange(0, len as int) =~= buckets@);
        lemma_seq_max_bounds(buckets@);
    }
    let groups: usize = if len % 4 == 0 {
        len / 4
    } else {
        len / 4 + 1
    };
    let mut out: Vec<[u32; 4]> = Vec::with_capacity(groups);
    let mut g: usize = 0;
    while g < groups
        invariant
            g <= groups,
            groups == group_count(len as nat),
            len == buckets@.len(),
            peak == seq_max(buckets@),
            forall|k: int| 0 <= k < len ==> #[trigger] buckets@[k] <= peak,
            out@.len() == g,
            forall|h: int, c: int|
                0 <= h < g && 0 <= c < 4 ==> #[trigger] out@[h][c] == packed_value(
                    buckets@,
                    4 * h + c,
                ),
        decreases groups - g,
    {
        let mut lanes: [u32; 4] = [0, 0, 0, 0];
        let mut c: usize = 0;
        while c < 4
            invariant
                c <= 4,
                g < groups,
                groups == group_count(len as nat),
                len == buckets@.len(),
                peak == seq_max(buckets@),
                forall|k: int| 0 <= k < len ==> #[trigger] buckets@[k] <= peak,
                forall|d: int| 0 <= d < c ==> #[trigger] lanes@[d] == packed_value(buckets@, 4 * g + d),
            decreases 4 - c,
        {
            let at = 4 * g + c;
            if at < len && peak > 0 {
                let v = buckets[at];
                proof {
                    lemma_normalized_bounds(v as nat, peak as nat);
                    assert(v * 65536 <= 0xffff_ffff * 65536) by (nonlinear_arith)
                        requires
                            v <= 0xffff_ffff,
                    ;
                }
                lanes[c] = ((v as u64) * (FULL_SCALE as u64) / (peak as u64)) as u32;
            } else {
                lanes[c] = 0;
            }
            c = c + 1;
        }
        out.push(lanes);
        g = g + 1;
    }
    proof {
        assert forall|g: int, c: int| 0 <= g < out@.len() && 0 <= c < 4 implies #[trigger] out@[g][c]
            <= FULL_SCALE by {
            let at = 4 * g + c;
            if 0 <= at < len {
                lemma_normalized_bounds(buckets@[at] as nat, peak as nat);
            }
        }
        assert forall|i: int|
            0 <= i < buckets@.len() && seq_max(buckets@) > 0 && buckets@[i] == seq_max(
                buckets@,
            ) implies #[trigger] out@[i / 4][i % 4] == FULL_SCALE by {
            assert(4 * (i / 4) + i % 4 == i);
            lemma_normalized_bounds(buckets@[i] as nat, peak as nat);
        }
    }
    out
}

} // verus!
