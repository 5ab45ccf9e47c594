//! Sizing and zero-padding of a raw frame for a power-of-two transform.
use vstd::prelude::*;

verus! {

/// `x` is a power of two (1, 2, 4, ...).
pub open spec fn is_power_of_two(x: nat) -> bool
    decreases x,
{
    if x == 1 {
        true
    } else if x == 0 || x % 2 == 1 {
        false
    } else {
        is_power_of_two(x / 2)
    }
}

/// The smallest power of two that is at least `n`.
pub open spec fn is_next_power_of_two(n: nat, p: nat) -> bool {
    &&& is_power_of_two(p)
    &&& n <= p
    &&& (p == 1 || p / 2 < n)
}

proof fn lemma_double_power_of_two(p: nat)
    requires
        is_power_of_two(p),
    ensures
        is_power_of_two(2 * p),
{
    assert((2 * p) / 2 == p);
}

proof fn lemma_smaller_power_of_two(p: nat, n: nat)
    requires
        is_power_of_two(p),
        is_power_of_two(n),
        p < n,
    ensures
        2 * p <= n,
    decreases p,
{
    if p != 1 {
        lemma_smaller_power_of_two(p / 2, n / 2);
    }
}

/// Rounds `n` up to the next power of two; 0 and 1 both give 1.
pub fn next_power_of_two(n: usize) -> (r: usize)
    requires
        n <= usize::MAX / 2 + 1,
    ensures
        is_next_power_of_two(n as nat, r as nat),
        is_power_of_two(n as nat) ==> r == n,
{
    let mut p: usize = 1;
    while p < n
        invariant
            is_power_of_two(p as nat),
            p >= 1,
            p == 1 || p / 2 < n,
            n <= usize::MAX / 2 + 1,
            is_power_of_two(n as nat) ==> p <= n,
        decreases usize::MAX - p,
    {
        proof {
            lemma_double_power_of_two(p as nat);
            if is_power_of_two(n as nat) {
                lemma_smaller_power_of_two(p as nat, n as nat);
            }
        }
        p = p * 2;
    }
    p
}

/// The samples of all channels of a frame, channel after channel.
pub open spec fn flatten<T>(frame: Seq<Vec<T>>) -> Seq<T>
    decreases frame.len(),
{
    if frame.len() == 0 {
        Seq::empty()
    } else {
        flatten(frame.drop_last()) + frame.last()@
    }
}

/// `samples` followed by copies of `zero` up to the length `size`.
pub open spec fn zero_padded<T>(samples: Seq<T>, size: nat, zero: T) -> Seq<T> {
    samples + Seq::new((size - samples.len()) as nat, |i: int| zero)
}

/// Lays the channels of `frame` one after the other and pads the result on
/// the right with `zero` up to the next power of two, ready for a transform.
/// A frame without samples gives an empty buffer: there is nothing to
/// transform.
pub fn flatten_and_pad<T: Copy>(frame: &Vec<Vec<T>>, zero: T) -> (r: Vec<T>)
    requires
        flatten(frame@).len() <= usize::MAX / 2 + 1,
    ensures
        flatten(frame@).len() == 0 ==> r@.len() == 0,
        flatten(frame@).len() > 0 ==> is_next_power_of_two(flatten(frame@).len(), r@.len()),
        r@ == zero_padded(flatten(frame@), r@.len(), zero),
{
    let mut out: Vec<T> = Vec::new();
    let mut c: usize = 0;
    while c < frame.len()
        invariant
            c <= frame@.len(),
            out@ == flatten(frame@.subrange(0, c as int)),
        decreases frame@.len() - c,
    {
        let channel = &frame[c];
        let mut j: usize = 0;
        while j < channel.len()
            invariant
                c < frame@.len(),
                *channel == frame@[c as int],
                j <= channel@.len(),
                out@ == flatten(frame@.subrange(0, c as int)) + channel@.subrange(0, j as int),
            decreases channel@.len() - j,
        {
            let sample: T = channel[j];
            out.push(sample);
            proof {
                assert(channel@.subrange(0, j + 1) =~= channel@.subrange(0, j as int).push(sample));
            }
            j = j + 1;
        }
        proof {
            assert(frame@.subrange(0, c + 1).drop_last() =~= frame@.subrange(0, c as int));
            assert(channel@.subrange(0, j as int) =~= channel@);
        }
        c = c + 1;
    }
    proof {
        assert(frame@.subrange(0, c as int) =~= frame@);
    }
    let ghost flat = out@;
    if out.len() == 0 {
        proof {
            assert(out@ =~= zero_padded(flat, 0, zero));
        }
        return out;
    }
    let size = next_power_of_two(out.len());
    while out.len() < size
        invariant
            flat.len() <= out@.len() <= size,
            out@ == zero_padded(flat, out@.len(), zero),
        decreases size - out@.len(),
    {
        out.push(zero);
        proof {
            assert(out@ =~= zero_padded(flat, out@.len(), zero));
        }
    }
    out
}

} // verus!
