//! The evaluation of the test: checking the parameters and choosing the
//! outcomes whose probability makes up the p-value.
use crate::alternative::Alternative;
use crate::binary64::Binary64;
use crate::search::{binary_search, describes, search_index, total};
use vstd::prelude::*;

verus! {

/// Why a set of test parameters is refused.
#[derive(Debug, Clone, Copy, PartialEq, Eq, Structural)]
pub enum TestError {
    /// There is no trial at all.
    InvalidTrials,
    /// More successes than trials.
    InvalidSuccessCount,
    /// The hypothesised probability is not a number from zero to one.
    InvalidProbability,
}

impl TestError {
    /// The words that describe the error.
    pub open spec fn text(self) -> Seq<char> {
        match self {
            TestError::InvalidTrials => "Number of trials n must be > 0"@,
            TestError::InvalidSuccessCount => "Number of successes k must be <= n and > 0"@,
            TestError::InvalidProbability => "Probability p must be in [0, 1]"@,
        }
    }

    /// A description of the error for the caller.
    pub fn message(&self) -> (r: String)
        ensures
            r@ == self.text(),
    {
        match self {
            TestError::InvalidTrials => "Number of trials n must be > 0".to_owned(),
            TestError::InvalidSuccessCount => "Number of successes k must be <= n and > 0".to_owned(),
            TestError::InvalidProbability => "Probability p must be in [0, 1]".to_owned(),
        }
    }
}

/// The whole numbers next to the expected count `p * n`: the largest that
/// does not exceed it and the smallest that is not below it. They anchor
/// the two-sided search.
#[derive(Debug, Clone, Copy, PartialEq, Eq, Structural)]
pub struct MeanBracket {
    pub floor: u64,
    pub ceil: u64,
}

/// The bracket of an expected count.
pub open spec fn bracket(expected: Binary64) -> MeanBracket {
    MeanBracket { floor: expected.floor_count(), ceil: expected.ceil_count() }
}

/// Brackets an expected count: rounds it down and up to whole numbers.
pub fn mean_bracket(expected: Binary64) -> (r: MeanBracket)
    ensures
        r == bracket(expected),
        r.floor <= r.ceil <= r.floor + 1,
{
    let (floor, ceil) = expected.whole_counts();
    MeanBracket { floor, ceil }
}

/// A p-value, written as the terms of the distribution that add up to it.
#[derive(Debug, Clone, Copy, PartialEq, Eq)]
pub enum PValue {
    /// Exactly one.
    Certain,
    /// The cumulative distribution function at `upto`: the probability of
    /// at most `upto` successes.
    Lower { upto: u64 },
    /// The survival function at `above`: the probability of more than
    /// `above` successes.
    Upper { above: u64 },
    /// The sum of a lower tail and an upper tail: the cumulative
    /// distribution function at `lower`, or zero where there is no lower
    /// tail, plus the survival function at `above`.
    Both { lower: Option<u64>, above: u64 },
}

impl PValue {
    /// Whether the probability of `x` successes is part of the p-value.
    pub open spec fn counts(self, x: u64) -> bool {
        match self {
            PValue::Certain => true,
            PValue::Lower { upto } => x <= upto,
            PValue::Upper { above } => x > above,
            PValue::Both { lower, above } => (lower matches Some(l) && x <= l) || x > above,
        }
    }

    /// Whether the two tails, where the terms have two, have no outcome in
    /// common.
    pub open spec fn apart(self) -> bool {
        self matches PValue::Both { lower: Some(upto), above } ==> upto <= above
    }
}

/// The first reason, if any, to refuse the parameters: no trial, then more
/// successes than trials, then a probability outside the unit interval.
pub open spec fn rejection(k: u64, n: u64, p: Binary64) -> Option<TestError> {
    if n < 1 {
        Some(TestError::InvalidTrials)
    } else if k > n {
        Some(TestError::InvalidSuccessCount)
    } else if !p.unit_interval() {
        Some(TestError::InvalidProbability)
    } else {
        None
    }
}

/// Checks `k` successes in `n` trials under the probability `p`.
pub fn check_parameters(k: u64, n: u64, p: Binary64) -> (r: Result<(), TestError>)
    ensures
        r == (match rejection(k, n, p) {
            Some(e) => Err::<(), TestError>(e),
            None => Ok(()),
        }),
{
    if n < 1 {
        return Err(TestError::InvalidTrials);
    }
    if k > n {
        return Err(TestError::InvalidSuccessCount);
    }
    if !p.is_probability() {
        return Err(TestError::InvalidProbability);
    }
    Ok(())
}

/// The mass function with every value negated: it rises where `g` falls.
pub open spec fn negation(g: spec_fn(u64) -> Binary64) -> spec_fn(u64) -> Binary64 {
    |x: u64| g(x).negated()
}

/// The terms of the two-sided p-value of `k` successes in `n` trials, for
/// the mass function `g`.
///
/// At the floor of the expected count the p-value is one. Below it, the
/// lower tail up to `k` is joined by the upper tail beyond the place where
/// the falling side of `g` crosses the observed mass `g(k)`. Above it, the
/// upper tail from `k` on is joined by the lower tail up to the place where
/// the rising side crosses the observed mass, if any outcome there is as
/// unlikely as the observed one.
pub open spec fn two_sided_terms(
    k: u64,
    n: u64,
    mean: MeanBracket,
    g: spec_fn(u64) -> Binary64,
) -> PValue {
    let d = g(k);
    if k == mean.floor {
        PValue::Certain
    } else if k < mean.floor {
        PValue::Both {
            lower: Some(k),
            above: search_index(negation(g), d.negated(), mean.ceil, n),
        }
    } else {
        let x = search_index(g, d, 0, mean.floor);
        PValue::Both {
            lower: if x == 0 && d.below(g(0)) {
                None
            } else {
                Some(x)
            },
            above: (k - 1) as u64,
        }
    }
}

/// What the terms of a two-sided p-value are like whatever the mass
/// function returns: one at the floor of the expected count; below it
/// the lower tail up to `k` and an upper tail that starts no earlier than
/// the ceiling; above it the upper tail from `k` on and a lower tail, if
/// there is one, that ends no later than the floor.
pub open spec fn two_sided_shape(k: u64, n: u64, mean: MeanBracket, t: PValue) -> bool {
    if k == mean.floor {
        t == PValue::Certain
    } else if k < mean.floor {
        &&& t matches PValue::Both { lower, above }
        &&& lower == Some(k)
        &&& mean.ceil <= above + 1
        &&& (above <= n || above <= mean.ceil)
    } else {
        &&& t matches PValue::Both { lower, above }
        &&& above == k - 1
        &&& (lower matches Some(upto) ==> upto <= mean.floor)
    }
}

/// The terms of the test against `Less`: the lower tail up to `k`.
pub open spec fn lower_tail(k: u64) -> PValue {
    PValue::Lower { upto: k }
}

/// The terms of the test against `Greater`: the upper tail from `k` on,
/// which is the whole distribution when `k` is zero.
pub open spec fn upper_tail_from(k: u64) -> PValue {
    if k == 0 {
        PValue::Certain
    } else {
        PValue::Upper { above: (k - 1) as u64 }
    }
}

/// The terms of the p-value of `k` successes in `n` trials under the given
/// alternative, for the mass function `g`.
pub open spec fn p_value_terms(
    k: u64,
    n: u64,
    mean: MeanBracket,
    alt: Alternative,
    g: spec_fn(u64) -> Binary64,
) -> PValue {
    match alt {
        Alternative::Less => lower_tail(k),
        Alternative::Greater => upper_tail_from(k),
        Alternative::TwoSided => two_sided_terms(k, n, mean, g),
    }
}

/// The exact binomial test of `k` successes in `n` trials under the
/// hypothesised success probability `p`.
///
/// `expected` is the expected count, the product of `p` and `n` as the
/// caller's arithmetic rounds it, and `pmf` is the probability mass
/// function of the binomial distribution with the parameters `p` and `n`.
/// The mass function is consulted for a two-sided test of valid
/// parameters, and then only.
///
/// The result is the first reason to refuse the parameters, if there is
/// one. Otherwise it is the terms of the p-value: for a one-sided test the
/// tail on the side of the alternative; for a two-sided test, and every
/// function `g` that describes `pmf`, the terms that `two_sided_terms`
/// names for `g`.
pub fn binomial_test<F: Fn(u64) -> Binary64>(
    k: u64,
    n: u64,
    p: Binary64,
    alt: Alternative,
    expected: Binary64,
    pmf: &F,
) -> (r: Result<PValue, TestError>)
    requires
        total(pmf),
    ensures
        rejection(k, n, p) matches Some(e) ==> r == Err::<PValue, TestError>(e),
        rejection(k, n, p) is None ==> r is Ok,
        rejection(k, n, p) is None && alt == Alternative::Less ==> r == Ok::<PValue, TestError>(
            lower_tail(k),
        ),
        rejection(k, n, p) is None && alt == Alternative::Greater ==> r == Ok::<PValue, TestError>(
            upper_tail_from(k),
        ),
        rejection(k, n, p) is None && alt == Alternative::TwoSided ==> (r matches Ok(t)
            && two_sided_shape(k, n, bracket(expected), t)),
        rejection(k, n, p) is None ==> forall|g: spec_fn(u64) -> Binary64| #[trigger]
            describes(pmf, g) ==> r == Ok::<PValue, TestError>(
                p_value_terms(k, n, bracket(expected), alt, g),
            ),
{
    match check_parameters(k, n, p) {
        Err(e) => {
            return Err(e);
        },
        Ok(_) => {},
    }
    match alt {
        Alternative::Less => Ok(PValue::Lower { upto: k }),
        Alternative::Greater => {
            if k == 0 {
                Ok(PValue::Certain)
            } else {
                Ok(PValue::Upper { above: k - 1 })
            }
        },
        Alternative::TwoSided => {
            let d = pmf(k);
            let mean = mean_bracket(expected);
            if k == mean.floor {
                Ok(PValue::Certain)
            } else if k < mean.floor {
                let falling = |x: u64| -> (y: Binary64)
                    requires
                        pmf.requires((x,)),
                    ensures
                        exists|v: Binary64| pmf.ensures((x,), v) && y == v.negated(),
                    { pmf(x).neg() };
                let x = binary_search(&falling, d.neg(), mean.ceil, n);
                proof {
                    assert forall|g: spec_fn(u64) -> Binary64| #[trigger]
                        describes(pmf, g) implies describes(&falling, negation(g)) by {}
                }
                Ok(PValue::Both { lower: Some(k), above: x })
            } else {
                let x = binary_search(pmf, d, 0, mean.floor);
                let lower = if x == 0 && d.lt(pmf(x)) {
                    None
                } else {
                    Some(x)
                };
                Ok(PValue::Both { lower, above: k - 1 })
            }
        },
    }
}

} // verus!
