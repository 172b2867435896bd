//! The integer side of iterative threshold selection and binary segmentation
//! of greymap pixels.
//!
//! A threshold splits the pixels into those strictly below it and the rest.
//! Pixel values are whole numbers, so a pixel `p` lies below a real threshold
//! `t` exactly when `p` lies below the cutoff `ceil(t)`; the functions here
//! take that integer cutoff.

use vstd::prelude::*;

use rand::rngs::ThreadRng;
use rand::seq::IndexedRandom;

verus! {

/// How many pixels the first estimate of a threshold averages.
pub const SAMPLE_SIZE: usize = 10;

/// The sum of a sequence of pixel values.
pub open spec fn seq_sum(s: Seq<u32>) -> nat
    decreases s.len(),
{
    if s.len() == 0 {
        0
    } else {
        seq_sum(s.drop_last()) + s.last() as nat
    }
}

/// The number of values in `s` that lie below `cutoff`.
pub open spec fn count_below(s: Seq<u32>, cutoff: u64) -> nat
    decreases s.len(),
{
    if s.len() == 0 {
        0
    } else {
        count_below(s.drop_last(), cutoff) + if (s.last() as u64) < cutoff {
            1nat
        } else {
            0nat
        }
    }
}

/// The sum of the values in `s` that lie below `cutoff`.
pub open spec fn sum_below(s: Seq<u32>, cutoff: u64) -> nat
    decreases s.len(),
{
    if s.len() == 0 {
        0
    } else {
        sum_below(s.drop_last(), cutoff) + if (s.last() as u64) < cutoff {
            s.last() as nat
        } else {
            0nat
        }
    }
}

/// The number of values in `s` that lie at or above `cutoff`.
pub open spec fn count_at_or_above(s: Seq<u32>, cutoff: u64) -> nat
    decreases s.len(),
{
    if s.len() == 0 {
        0
    } else {
        count_at_or_above(s.drop_last(), cutoff) + if (s.last() as u64) < cutoff {
            0nat
        } else {
            1nat
        }
    }
}

/// The sum of the values in `s` that lie at or above `cutoff`.
pub open spec fn sum_at_or_above(s: Seq<u32>, cutoff: u64) -> nat
    decreases s.len(),
{
    if s.len() == 0 {
        0
    } else {
        sum_at_or_above(s.drop_last(), cutoff) + if (s.last() as u64) < cutoff {
            0nat
        } else {
            s.last() as nat
        }
    }
}

/// The value of one pixel of the binary image: 1 for a pixel below the
/// cutoff, 0 for any other.
pub open spec fn segment_value(p: u32, cutoff: u64) -> u8 {
    if (p as u64) < cutoff {
        1u8
    } else {
        0u8
    }
}

/// The binary image of `pixels` at `cutoff`.
pub open spec fn segmented(pixels: Seq<u32>, cutoff: u64) -> Seq<u8> {
    Seq::new(pixels.len(), |i: int| segment_value(pixels[i], cutoff))
}

/// The number of ones in a binary image.
pub open spec fn count_ones(bits: Seq<u8>) -> nat
    decreases bits.len(),
{
    if bits.len() == 0 {
        0
    } else {
        count_ones(bits.drop_last()) + if bits.last() == 1 {
            1nat
        } else {
            0nat
        }
    }
}

/// No sum of `n` pixel values exceeds `n` times the largest `u32`.
proof fn lemma_sum_bound(s: Seq<u32>)
    ensures
        seq_sum(s) <= s.len() * 4294967295,
    decreases s.len(),
{
    if s.len() > 0 {
        lemma_sum_bound(s.drop_last());
    }
}

/// Every pixel falls on exactly one side of a cutoff: the counts of the two
/// groups add up to the number of pixels, and their sums to the sum of all
/// pixels.
pub proof fn lemma_partition_is_complete(s: Seq<u32>, cutoff: u64)
    ensures
        count_below(s, cutoff) + count_at_or_above(s, cutoff) == s.len(),
        sum_below(s, cutoff) + sum_at_or_above(s, cutoff) == seq_sum(s),
    decreases s.len(),
{
    if s.len() > 0 {
        lemma_partition_is_complete(s.drop_last(), cutoff);
    }
}

/// The foreground of the binary image at a cutoff is the group of pixels
/// below that cutoff: the image holds as many ones as there are such pixels.
pub proof fn lemma_foreground_is_lower_group(pixels: Seq<u32>, cutoff: u64)
    ensures
        count_ones(segmented(pixels, cutoff)) == count_below(pixels, cutoff),
    decreases pixels.len(),
{
    if pixels.len() > 0 {
        let init = pixels.drop_last();
        lemma_foreground_is_lower_group(init, cutoff);
        assert(segmented(pixels, cutoff).drop_last() =~= segmented(init, cutoff));
    }
}

/// The test of a pixel value against a cutoff, as whole numbers: below it.
pub open spec fn lies_below(cutoff: u64) -> spec_fn(u32) -> bool {
    |p: u32| (p as int) < (cutoff as int)
}

/// The test of a pixel value against a cutoff, as whole numbers: at or above it.
pub open spec fn lies_at_or_above(cutoff: u64) -> spec_fn(u32) -> bool {
    |p: u32| (p as int) >= (cutoff as int)
}

/// Each bit of the binary image compares the pixel's whole value with the
/// cutoff: it is 1 exactly when the pixel lies below the cutoff, and 0
/// exactly when it does not.
pub proof fn lemma_bits_compare_whole_values(pixels: Seq<u32>, cutoff: u64)
    ensures
        segmented(pixels, cutoff).len() == pixels.len(),
        forall|i: int|
            #![trigger segmented(pixels, cutoff)[i]]
            0 <= i < pixels.len() ==> {
                &&& (segmented(pixels, cutoff)[i] == 1u8 <==> (pixels[i] as int) < (cutoff as int))
                &&& (segmented(pixels, cutoff)[i] == 0u8 <==> (pixels[i] as int) >= (
                cutoff as int))
            },
{
}

/// The two groups are exactly the pixels on each side of the cutoff: the
/// lower group counts and sums the pixels whose value lies below it, the upper
/// group those whose value does not, in order.
pub proof fn lemma_groups_are_pixels_on_each_side(s: Seq<u32>, cutoff: u64)
    ensures
        count_below(s, cutoff) == s.filter(lies_below(cutoff)).len(),
        sum_below(s, cutoff) == seq_sum(s.filter(lies_below(cutoff))),
        count_at_or_above(s, cutoff) == s.filter(lies_at_or_above(cutoff)).len(),
        sum_at_or_above(s, cutoff) == seq_sum(s.filter(lies_at_or_above(cutoff))),
    decreases s.len(),
{
    reveal(Seq::filter);
    if s.len() > 0 {
        lemma_groups_are_pixels_on_each_side(s.drop_last(), cutoff);
        let lo = s.drop_last().filter(lies_below(cutoff));
        let hi = s.drop_last().filter(lies_at_or_above(cutoff));
        if (s.last() as int) < (cutoff as int) {
            assert(lies_below(cutoff)(s.last()));
            assert(!lies_at_or_above(cutoff)(s.last()));
            assert(s.filter(lies_below(cutoff)) == lo.push(s.last()));
            assert(lo.push(s.last()).drop_last() =~= lo);
        } else {
            assert(!lies_below(cutoff)(s.last()));
            assert(lies_at_or_above(cutoff)(s.last()));
            assert(s.filter(lies_at_or_above(cutoff)) == hi.push(s.last()));
            assert(hi.push(s.last()).drop_last() =~= hi);
        }
    }
}

/// A larger cutoff keeps every foreground pixel in the foreground.
pub proof fn lemma_segmentation_monotone(pixels: Seq<u32>, low: u64, high: u64, i: int)
    requires
        low <= high,
        0 <= i < pixels.len(),
        segmented(pixels, low)[i] == 1,
    ensures
        segmented(pixels, high)[i] == 1,
{
}

/// The sum of all values of `values`.
pub fn sum_values(values: &Vec<u32>) -> (sum: u128)
    ensures
        sum as nat == seq_sum(values@),
{
    let mut sum: u128 = 0;
    let mut i: usize = 0;
    while i < values.len()
        invariant
            i <= values.len(),
            sum as nat == seq_sum(values@.take(i as int)),
        decreases values.len() - i,
    {
        proof {
            lemma_sum_bound(values@.take(i as int));
            assert(values@.take(i + 1).drop_last() =~= values@.take(i as int));
        }
        sum = sum + values[i] as u128;
        i = i + 1;
    }
    proof {
        assert(values@.take(i as int) =~= values@);
    }
    sum
}

/// The two groups into which a cutoff splits the pixels: the count and sum of
/// those below it and of the others.
pub struct Partition {
    pub below_count: usize,
    pub below_sum: u128,
    pub above_count: usize,
    pub above_sum: u128,
}

/// Splits the pixels at `cutoff` and counts and sums each group, as one pass
/// of the threshold iteration does.
pub fn partition(pixels: &Vec<u32>, cutoff: u64) -> (r: Partition)
    ensures
        r.below_count as nat == count_below(pixels@, cutoff),
        r.below_sum as nat == sum_below(pixels@, cutoff),
        r.above_count as nat == count_at_or_above(pixels@, cutoff),
        r.above_sum as nat == sum_at_or_above(pixels@, cutoff),
        r.below_count + r.above_count == pixels.len(),
        r.below_sum + r.above_sum == seq_sum(pixels@),
{
    let mut r = Partition { below_count: 0, below_sum: 0, above_count: 0, above_sum: 0 };
    let mut i: usize = 0;
    while i < pixels.len()
        invariant
            i <= pixels.len(),
            r.below_count as nat == count_below(pixels@.take(i as int), cutoff),
            r.below_sum as nat == sum_below(pixels@.take(i as int), cutoff),
            r.above_count as nat == count_at_or_above(pixels@.take(i as int), cutoff),
            r.above_sum as nat == sum_at_or_above(pixels@.take(i as int), cutoff),
        decreases pixels.len() - i,
    {
        let ghost done = pixels@.take(i as int);
        proof {
            lemma_partition_is_complete(done, cutoff);
            lemma_sum_bound(done);
            assert(pixels@.take(i + 1).drop_last() =~= done);
        }
        let p = pixels[i];
        if (p as u64) < cutoff {
            r.below_count = r.below_count + 1;
            r.below_sum = r.below_sum + p as u128;
        } else {
            r.above_count = r.above_count + 1;
            r.above_sum = r.above_sum + p as u128;
        }
        i = i + 1;
    }
    proof {
        assert(pixels@.take(i as int) =~= pixels@);
        lemma_partition_is_complete(pixels@, cutoff);
    }
    r
}

/// The binary image of the pixels at `cutoff`: 1 for each pixel below it and
/// 0 for each other pixel, in the same order.
pub fn segmentation(pixels: &Vec<u32>, cutoff: u64) -> (bits: Vec<u8>)
    ensures
        bits@ == segmented(pixels@, cutoff),
{
    let mut bits: Vec<u8> = Vec::new();
    let mut i: usize = 0;
    while i < pixels.len()
        invariant
            i <= pixels.len(),
            bits@ =~= segmented(pixels@, cutoff).take(i as int),
        decreases pixels.len() - i,
    {
        if (pixels[i] as u64) < cutoff {
            bits.push(1u8);
        } else {
            bits.push(0u8);
        }
        i = i + 1;
    }
    proof {
        assert(segmented(pixels@, cutoff).take(i as int) =~= segmented(pixels@, cutoff));
    }
    bits
}

// ------------------------------------------------------------------
// Random sampling
// ------------------------------------------------------------------

#[verifier::external_type_specification]
#[verifier::external_body]
pub struct ExThreadRng(ThreadRng);

/// Calls `rand::rng`, the handle to the thread's random number generator.
/// Nothing is claimed of it.
#[verifier::external_body]
fn thread_rng() -> ThreadRng {
    rand::rng()
}

/// Calls `IndexedRandom::sample` of `rand` on the values and collects the
/// picked values. Its source draws `min(amount, values.len())` distinct
/// positions of the slice and yields the values at them, so the claim is that
/// the result has that length and that, counted with multiplicity, it is part
/// of the values. Which positions it draws depends on the generator and is
/// left open. For more than `u32::MAX` values the source asks (in a debug
/// assertion) for fewer picks than values, hence the precondition.
#[verifier::external_body]
fn sample_distinct(rng: &mut ThreadRng, values: &Vec<u32>, amount: usize) -> (picked: Vec<u32>)
    requires
        amount < values.len() || values.len() <= u32::MAX,
    ensures
        picked.len() == (if amount <= values.len() {
            amount
        } else {
            values.len()
        }),
        picked@.to_multiset().subset_of(values@.to_multiset()),
{
    values.as_slice().sample(rng, amount).copied().collect()
}

/// Count and sum of a random sample of the pixels.
pub struct SampleStats {
    pub count: usize,
    pub sum: u128,
}

/// Draws up to [`SAMPLE_SIZE`] pixels at distinct random positions and
/// returns how many were drawn and their sum, from which the first estimate
/// of the threshold is their mean.
pub fn sample_stats(pixels: &Vec<u32>) -> (s: SampleStats)
    ensures
        s.count == (if SAMPLE_SIZE <= pixels.len() {
            SAMPLE_SIZE
        } else {
            pixels.len()
        }),
        exists|picked: Seq<u32>|
            #![trigger seq_sum(picked)]
            picked.len() == s.count && picked.to_multiset().subset_of(pixels@.to_multiset())
                && s.sum as nat == seq_sum(picked),
{
    let mut rng = thread_rng();
    let picked = sample_distinct(&mut rng, pixels, SAMPLE_SIZE);
    let sum = sum_values(&picked);
    SampleStats { count: picked.len(), sum }
}

} // verus!
