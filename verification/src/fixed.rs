//! Exact fractions standing in for the pixel and scale samples that the
//! engine reads from its text assets.

use vstd::prelude::*;

verus! {

/// A signed fraction `num / den`.
///
/// Bone offsets and sprite scales are decimal literals in asset files; the
/// library keeps them exact instead of rounding them, and the embedding
/// layer converts to floating point only at the drawing boundary.
#[derive(Clone, Copy, Debug, PartialEq, Eq, Structural)]
pub struct Fp {
    pub num: i64,
    pub den: i64,
}

impl Fp {
    /// A valid fraction has a positive denominator.
    pub open spec fn wf(self) -> bool {
        self.den >= 1
    }

    pub open spec fn spec_zero() -> Fp {
        Fp { num: 0, den: 1 }
    }

    pub open spec fn spec_one() -> Fp {
        Fp { num: 1, den: 1 }
    }

    pub fn zero() -> (r: Fp)
        ensures
            r == Fp::spec_zero(),
    {
        Fp { num: 0, den: 1 }
    }

    pub fn one() -> (r: Fp)
        ensures
            r == Fp::spec_one(),
    {
        Fp { num: 1, den: 1 }
    }
}

} // verus!
