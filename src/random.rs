use vstd::prelude::*;
use rand::{Rng, SeedableRng, StdRng};

verus! {

/// The standard generator of `rand`, carried through as an opaque value.
#[verifier::external_type_specification]
#[verifier::external_body]
pub struct ExStdRng(StdRng);

/// Relies on `rand::Rng::gen_range(0, bound)` for `usize`: a draw in
/// `[0, bound)`; it panics when `bound` is 0, which the precondition excludes.
#[verifier::external_body]
pub fn random_below(rng: &mut StdRng, bound: usize) -> (r: usize)
    requires
        bound > 0,
    ensures
        r < bound,
{
    rng.gen_range(0, bound)
}

/// Relies on `rand::SeedableRng::from_seed` for `StdRng`, which seeds the
/// generator from a slice of words.
#[verifier::external_body]
pub fn rng_from_words(words: &Vec<usize>) -> (r: StdRng) {
    StdRng::from_seed(words.as_slice())
}

/// A generator seeded from four consecutive words starting at `seed`.
pub fn seeded_rng(seed: u32) -> (r: StdRng) {
    let s = seed as usize;
    let mut words: Vec<usize> = Vec::new();
    words.push(s);
    words.push(s.wrapping_add(1));
    words.push(s.wrapping_add(2));
    words.push(s.wrapping_add(3));
    rng_from_words(&words)
}

} // verus!
