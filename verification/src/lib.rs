//! The exact one-sample binomial test.
//!
//! Given `k` successes in `n` independent trials and a hypothesised success
//! probability `p`, the test asks how probable an outcome at least as
//! extreme as `k` is. This library checks the parameters and decides which
//! outcomes count as at least as extreme; the probabilities themselves come
//! from a binomial distribution that the caller supplies.
//!
//! - [`binary64`]: double-precision numbers by their bit pattern, with the
//!   comparisons and roundings that the test needs.
//! - [`search`]: the search for the place where a function crosses a key.
//! - [`evaluator`]: the test itself, from the parameters to the terms of
//!   the p-value.
//! - [`tails`]: what the outcomes that a p-value counts have in common.
//! - [`weight`]: what the terms of a p-value add up to in exact arithmetic.
//! - [`alternative`]: the alternative hypotheses and their names.
pub mod alternative;
pub mod binary64;
pub mod evaluator;
pub mod search;
pub mod tails;
pub mod weight;

pub use alternative::{alt_to_str, Alternative};
pub use binary64::Binary64;
pub use evaluator::{
    binomial_test, check_parameters, mean_bracket, MeanBracket, PValue, TestError,
};
pub use search::binary_search;
