use vstd::prelude::*;

verus! {

/// Scale for the probability parameters of the stochastic operators: a rate
/// of `r` stands for the probability `r / RATE_SCALE`, so `RATE_SCALE`
/// itself is certainty.
pub const RATE_SCALE: u64 = 1000000;

#[verifier::external_type_specification]
#[verifier::external_body]
pub struct ExStdRng(rand::rngs::StdRng);

/// A pseudo-random stream owned by one run, so that concurrent runs stay
/// decorrelated and a fixed seed reproduces a search trajectory exactly.
pub struct RandomSource {
    inner: rand::rngs::StdRng,
}

impl RandomSource {
    /// Relies on rand::SeedableRng::seed_from_u64 to build a generator from
    /// a seed; nothing is claimed about the stream it produces.
    #[verifier::external_body]
    pub fn from_seed(seed: u64) -> RandomSource {
        RandomSource { inner: <rand::rngs::StdRng as rand::SeedableRng>::seed_from_u64(seed) }
    }

    /// Relies on rand::Rng::gen_range over the range 0..n, which returns a
    /// value below the upper bound and panics only on an empty range.
    #[verifier::external_body]
    pub fn next_below(&mut self, n: usize) -> (r: usize)
        requires
            n >= 1,
        ensures
            r < n,
    {
        rand::Rng::gen_range(&mut self.inner, 0..n)
    }

    /// Relies on rand::Rng::gen_range over the range 0..n, which returns a
    /// value below the upper bound and panics only on an empty range.
    #[verifier::external_body]
    pub fn next_below_u128(&mut self, n: u128) -> (r: u128)
        requires
            n >= 1,
        ensures
            r < n,
    {
        rand::Rng::gen_range(&mut self.inner, 0..n)
    }

    /// Draws a biased coin: true with probability `rate / RATE_SCALE`.
    pub fn coin(&mut self, rate: u64) -> (r: bool)
        ensures
            rate == 0 ==> !r,
            rate >= RATE_SCALE ==> r,
    {
        let d = self.next_below_u128(RATE_SCALE as u128);
        d < rate as u128
    }
}

} // verus!
