//! Drawing indices at random.
use vstd::prelude::*;
use rand::rngs::ThreadRng;
use rand::Rng;
use std::ops::Range;

verus! {

#[verifier::external_type_specification]
#[verifier::external_body]
pub struct ExThreadRng(ThreadRng);

/// Relies on rand's `Rng::gen_range`: a value drawn uniformly from the
/// half-open range `low..high`, which panics when that range is empty.
#[verifier::external_body]
fn draw_between(rng: &mut ThreadRng, low: usize, high: usize) -> (r: usize)
    requires
        low < high,
    ensures
        low <= r < high,
{
    rng.gen_range(low..high)
}

/// Random draws of indices beyond a plain range.
pub trait ExtendedRng {
    /// A value in `0..lim`.
    fn gen_zero_to(&mut self, lim: usize) -> (r: usize)
        requires
            0 < lim,
        ensures
            r < lim,
    ;

    /// A value in `range` other than `exclude`; the range must hold one.
    fn gen_range_excluding(&mut self, range: Range<usize>, exclude: usize) -> (r: usize)
        requires
            range.start < range.end,
            range.end - range.start == 1 ==> exclude != range.start,
        ensures
            range.start <= r < range.end,
            r != exclude,
    ;

    /// Two distinct values in `range`, which must hold at least two.
    fn gen_distinct_pair_range(&mut self, range: Range<usize>) -> (r: (usize, usize))
        requires
            range.start < range.end,
            range.end - range.start >= 2,
        ensures
            range.start <= r.0 < range.end,
            range.start <= r.1 < range.end,
            r.0 != r.1,
    ;
}

impl ExtendedRng for ThreadRng {
    fn gen_zero_to(&mut self, lim: usize) -> (r: usize) {
        draw_between(self, 0, lim)
    }

    /// Draws among the values of the range that are not excluded, all with
    /// the same chance, without retrying.
    fn gen_range_excluding(&mut self, range: Range<usize>, exclude: usize) -> (r: usize) {
        if exclude < range.start || exclude >= range.end {
            return draw_between(self, range.start, range.end);
        }
        let x = draw_between(self, range.start, range.end - 1);
        if x >= exclude {
            x + 1
        } else {
            x
        }
    }

    fn gen_distinct_pair_range(&mut self, range: Range<usize>) -> (r: (usize, usize)) {
        let x = draw_between(self, range.start, range.end);
        let y = self.gen_range_excluding(range, x);
        (x, y)
    }
}

} // verus!
