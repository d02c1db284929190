use vstd::prelude::*;
use bracket_random::prelude::RandomNumberGenerator;

verus! {

/// The generator of random numbers of `bracket_random`, the one that `bracket_lib` hands on
/// in its prelude. Nothing of it is seen.
#[verifier::external_type_specification]
#[verifier::external_body]
pub struct ExRandomNumberGenerator(RandomNumberGenerator);

/// `RandomNumberGenerator::new`: a generator whose seed is taken from the machine. Nothing is
/// claimed of it.
#[verifier::external_body]
pub(crate) fn fresh_generator() -> (rng: RandomNumberGenerator) {
    RandomNumberGenerator::new()
}

/// `RandomNumberGenerator::seeded`: a generator that starts from `seed`. Nothing is claimed
/// of it.
#[verifier::external_body]
pub(crate) fn seeded_generator(seed: u64) -> (rng: RandomNumberGenerator) {
    RandomNumberGenerator::seeded(seed)
}

/// `RandomNumberGenerator::range` on `i32`: some number from `min` up to, and not including,
/// `max`. The outside function panics on an empty range, which `requires` leaves out. Which
/// number comes is not claimed.
#[verifier::external_body]
pub(crate) fn roll_range(rng: &mut RandomNumberGenerator, min: i32, max: i32) -> (roll: i32)
    requires
        min < max,
    ensures
        min <= roll < max,
{
    rng.range(min, max)
}

/// `RandomNumberGenerator::random_slice_index`: some index into `slice`, or `None` for an
/// empty one. The outside function counts the length in `i32`, so `requires` keeps it below
/// `i32::MAX`. Which index comes is not claimed.
#[verifier::external_body]
pub(crate) fn roll_index<T>(rng: &mut RandomNumberGenerator, slice: &[T]) -> (index: Option<usize>)
    requires
        slice@.len() < i32::MAX,
    ensures
        match index {
            Some(i) => i < slice@.len(),
            None => slice@.len() == 0,
        },
{
    rng.random_slice_index(slice)
}

/// Some index into `slice`, or `None` for an empty one: a slice that holds anything always
/// gives one. Up to what `i32` can count, each index is as likely as the other; of a longer
/// slice only the first `i32::MAX` places are picked from.
pub fn pick_index<T>(rng: &mut RandomNumberGenerator, slice: &[T]) -> (index: Option<usize>)
    ensures
        index is Some == (slice@.len() > 0),
        index matches Some(i) ==> i < slice@.len(),
{
    if slice.len() < i32::MAX as usize {
        roll_index(rng, slice)
    } else {
        let roll: i32 = roll_range(rng, 0, i32::MAX);
        Some(roll as usize)
    }
}

} // verus!
