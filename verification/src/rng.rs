//! The library's random-number source: a xoshiro256** generator driven
//! through rand, behind trusted wrappers.

use rand::Rng;
use rand::seq::SliceRandom;
use vstd::prelude::*;

verus! {

/// The xoshiro256** generator used as this library's random-number source.
#[verifier::external_type_specification]
#[verifier::external_body]
pub struct ExXoshiro(rand_xoshiro::Xoshiro256StarStar);

/// Relies on rand's `Rng::gen_range`: sampling from `0..n` yields a value
/// in `0..n`, and panics only on an empty range, which `n >= 1` rules out.
#[verifier::external_body]
pub(crate) fn draw_below(random: &mut rand_xoshiro::Xoshiro256StarStar, n: u32) -> (r: u32)
    requires
        n >= 1,
    ensures
        r < n,
{
    random.gen_range(0..n)
}

/// Relies on rand's `SliceRandom::shuffle`: a Fisher-Yates pass permutes
/// the slice in place by swaps, so the multiset of elements is unchanged.
#[verifier::external_body]
pub(crate) fn shuffle_in_place(random: &mut rand_xoshiro::Xoshiro256StarStar, v: &mut Vec<usize>)
    ensures
        final(v)@.to_multiset() == old(v)@.to_multiset(),
{
    v.shuffle(random)
}

} // verus!
