//! The alternative hypotheses of the test.
use vstd::prelude::*;

verus! {

/// The alternative hypothesis: which departures from the hypothesised
/// probability count as evidence against it.
#[derive(Debug, Clone, Copy, PartialEq, Eq, Structural)]
pub enum Alternative {
    /// The true probability differs from the hypothesised one.
    TwoSided,
    /// The true probability is smaller.
    Less,
    /// The true probability is larger.
    Greater,
}

impl Alternative {
    /// The name under which statistics packages know the alternative.
    pub open spec fn name(self) -> Seq<char> {
        match self {
            Alternative::TwoSided => "two-sided"@,
            Alternative::Less => "less"@,
            Alternative::Greater => "greater"@,
        }
    }
}

/// The conventional name of an alternative: `two-sided`, `less` or `greater`.
pub fn alt_to_str(alt: &Alternative) -> (r: &'static str)
    ensures
        r@ == alt.name(),
{
    match alt {
        Alternative::TwoSided => "two-sided",
        Alternative::Less => "less",
        Alternative::Greater => "greater",
    }
}

} // verus!
