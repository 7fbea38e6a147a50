//! Uniform draws from the seeded random generator, each kept together with
//! the range it was drawn from.

use vstd::prelude::*;
use rand::Rng;
use rand::rngs::StdRng;

verus! {

/// `rand::rngs::StdRng`, the seeded generator the draws come from; nothing
/// of its state is visible here.
#[verifier::external_type_specification]
#[verifier::external_body]
pub struct ExStdRng(StdRng);

/// A value drawn from the inclusive range `[lo, hi]`, with that range.
/// Its fields are private: only `random_in_range` makes one, so the range
/// recorded is the range that was handed to the generator.
#[derive(Debug, Clone, Copy)]
pub struct Sample {
    value: i64,
    lo: i64,
    hi: i64,
}

impl Sample {
    pub closed spec fn spec_value(&self) -> i64 {
        self.value
    }

    pub closed spec fn spec_lo(&self) -> i64 {
        self.lo
    }

    pub closed spec fn spec_hi(&self) -> i64 {
        self.hi
    }

    /// The value lies in the range it was drawn from.
    pub open spec fn within(&self) -> bool {
        self.spec_lo() <= self.spec_value() <= self.spec_hi()
    }

    /// The drawn value.
    #[verifier::when_used_as_spec(spec_value)]
    pub fn value(&self) -> (v: i64)
        ensures
            v == self.spec_value(),
    {
        self.value
    }

    /// The lower end of the range it was drawn from.
    #[verifier::when_used_as_spec(spec_lo)]
    pub fn lo(&self) -> (v: i64)
        ensures
            v == self.spec_lo(),
    {
        self.lo
    }

    /// The upper end of the range it was drawn from.
    #[verifier::when_used_as_spec(spec_hi)]
    pub fn hi(&self) -> (v: i64)
        ensures
            v == self.spec_hi(),
    {
        self.hi
    }
}

/// `rand::Rng::gen_range(lo..=hi)` on the generator: a value of the
/// inclusive range (drawn uniformly; which one depends on the generator's
/// state, so no more than the range is claimed), returned with the range
/// it was asked for. `gen_range` panics on an empty range, which
/// `lo <= hi` rules out.
#[verifier::external_body]
pub(crate) fn random_in_range(rng: &mut StdRng, lo: i64, hi: i64) -> (s: Sample)
    requires
        lo <= hi,
    ensures
        s.lo() == lo,
        s.hi() == hi,
        lo <= s.value() <= hi,
{
    Sample { value: rng.gen_range(lo..=hi), lo, hi }
}

} // verus!
