//! What the terms of a p-value add up to in exact arithmetic.
//!
//! The distribution that the caller brings works in rounded arithmetic.
//! Here every outcome has a weight that is a natural number, its
//! probability in whatever unit makes all of them whole, and the terms of
//! a p-value stand for sums of such weights. Of these sums it is proved
//! what a p-value owes to being a probability.
use crate::alternative::Alternative;
use crate::binary64::Binary64;
use crate::evaluator::{
    lower_tail, p_value_terms, two_sided_shape, two_sided_terms, upper_tail_from, MeanBracket,
    PValue,
};
use crate::search::{nondecreasing, numeric};
use crate::tails::{
    far_side, lemma_tails_apart, lemma_two_sided_relabelling, lemma_two_sided_terms_shape,
    nonincreasing, relabelled,
};
use vstd::prelude::*;

verus! {

/// The weight of the outcomes `0..=x`.
pub open spec fn weight_upto(w: spec_fn(u64) -> nat, x: u64) -> nat
    decreases x,
{
    if x == 0 {
        w(0)
    } else {
        w(x) + weight_upto(w, (x - 1) as u64)
    }
}

/// The cumulative distribution function at `x` for `n` trials: the weight
/// of at most `x` successes.
pub open spec fn cumulative(w: spec_fn(u64) -> nat, n: u64, x: u64) -> nat {
    if x >= n {
        weight_upto(w, n)
    } else {
        weight_upto(w, x)
    }
}

/// The survival function at `x` for `n` trials: the weight of more than `x`
/// successes, which is what the cumulative distribution function leaves of
/// the whole.
pub open spec fn survival(w: spec_fn(u64) -> nat, n: u64, x: u64) -> nat {
    (weight_upto(w, n) - cumulative(w, n, x)) as nat
}

impl PValue {
    /// What the terms add up to for `n` trials with the weights `w`, where
    /// the whole distribution stands for one.
    pub open spec fn weight(self, w: spec_fn(u64) -> nat, n: u64) -> nat {
        match self {
            PValue::Certain => weight_upto(w, n),
            PValue::Lower { upto } => cumulative(w, n, upto),
            PValue::Upper { above } => survival(w, n, above),
            PValue::Both { lower, above } => (match lower {
                Some(upto) => cumulative(w, n, upto),
                None => 0,
            }) + survival(w, n, above),
        }
    }
}

/// The weight of those outcomes among `0..=x` that the terms count.
pub open spec fn counted_upto(t: PValue, w: spec_fn(u64) -> nat, x: u64) -> nat
    decreases x,
{
    let own: nat = if t.counts(x) {
        w(x)
    } else {
        0
    };
    if x == 0 {
        own
    } else {
        own + counted_upto(t, w, (x - 1) as u64)
    }
}

/// Among `0..=x`, the counted and the uncounted outcomes of a lower tail
/// and of an upper tail.
proof fn lemma_counted_tail(w: spec_fn(u64) -> nat, bound: u64, x: u64)
    ensures
        counted_upto(PValue::Lower { upto: bound }, w, x) == weight_upto(
            w,
            if bound <= x {
                bound
            } else {
                x
            },
        ),
        counted_upto(PValue::Upper { above: bound }, w, x) + weight_upto(
            w,
            if bound <= x {
                bound
            } else {
                x
            },
        ) == weight_upto(w, x),
        counted_upto(PValue::Certain, w, x) == weight_upto(w, x),
    decreases x,
{
    if x > 0 {
        lemma_counted_tail(w, bound, (x - 1) as u64);
    }
}

/// Among `0..=x`, two tails apart count what each of them counts.
proof fn lemma_counted_both(w: spec_fn(u64) -> nat, lower: Option<u64>, above: u64, x: u64)
    requires
        lower matches Some(upto) ==> upto <= above,
    ensures
        counted_upto(PValue::Both { lower, above }, w, x) == (match lower {
            Some(upto) => counted_upto(PValue::Lower { upto }, w, x),
            None => 0,
        }) + counted_upto(PValue::Upper { above }, w, x),
    decreases x,
{
    if x > 0 {
        lemma_counted_both(w, lower, above, (x - 1) as u64);
    }
}

/// Terms whose tails are apart add up to the weight of the outcomes that
/// they count.
pub proof fn lemma_weight_is_counted(t: PValue, w: spec_fn(u64) -> nat, n: u64)
    requires
        t.apart(),
    ensures
        t.weight(w, n) == counted_upto(t, w, n),
{
    match t {
        PValue::Certain => {
            lemma_counted_tail(w, 0, n);
        },
        PValue::Lower { upto } => {
            lemma_counted_tail(w, upto, n);
        },
        PValue::Upper { above } => {
            lemma_counted_tail(w, above, n);
        },
        PValue::Both { lower, above } => {
            lemma_counted_both(w, lower, above, n);
            lemma_counted_tail(w, above, n);
            if let Some(upto) = lower {
                lemma_counted_tail(w, upto, n);
            }
        },
    }
}

/// The weight of `0..=x` grows with `x`.
pub proof fn lemma_weight_upto_grows(w: spec_fn(u64) -> nat, x: u64, y: u64)
    requires
        x <= y,
    ensures
        weight_upto(w, x) <= weight_upto(w, y),
    decreases y,
{
    if x < y {
        lemma_weight_upto_grows(w, x, (y - 1) as u64);
    }
}

/// The cumulative distribution function grows with its argument and never
/// exceeds the whole; the survival function falls and is what is left.
pub proof fn lemma_cumulative_grows(w: spec_fn(u64) -> nat, n: u64, x: u64, y: u64)
    requires
        x <= y,
    ensures
        cumulative(w, n, x) <= cumulative(w, n, y) <= weight_upto(w, n),
        survival(w, n, y) <= survival(w, n, x) <= weight_upto(w, n),
        cumulative(w, n, x) + survival(w, n, x) == weight_upto(w, n),
{
    if y < n {
        lemma_weight_upto_grows(w, x, y);
        lemma_weight_upto_grows(w, y, n);
    } else if x < n {
        lemma_weight_upto_grows(w, x, n);
    }
}

/// A one-sided p-value is at most one.
pub proof fn lemma_one_sided_at_most_one(k: u64, n: u64, w: spec_fn(u64) -> nat)
    ensures
        lower_tail(k).weight(w, n) <= weight_upto(w, n),
        upper_tail_from(k).weight(w, n) <= weight_upto(w, n),
{
    lemma_cumulative_grows(w, n, k, k);
    if k > 0 {
        lemma_cumulative_grows(w, n, (k - 1) as u64, (k - 1) as u64);
    }
}

/// A two-sided p-value is at most one: where the expected count is
/// bracketed in order, terms of the shape of a two-sided test add up to no
/// more than the whole distribution.
pub proof fn lemma_two_sided_at_most_one(
    k: u64,
    n: u64,
    mean: MeanBracket,
    t: PValue,
    w: spec_fn(u64) -> nat,
)
    requires
        mean.floor <= mean.ceil,
        two_sided_shape(k, n, mean, t),
    ensures
        t.weight(w, n) <= weight_upto(w, n),
{
    match t {
        PValue::Both { lower: Some(upto), above } => {
            lemma_cumulative_grows(w, n, upto, above);
        },
        PValue::Both { lower: None, above } => {
            lemma_cumulative_grows(w, n, above, above);
        },
        _ => {},
    }
}

/// Against `Greater` without a success observed the p-value is one by its
/// very terms, and against `Less` with every trial a success it adds up to
/// one.
pub proof fn lemma_whole_distribution_is_one(
    n: u64,
    mean: MeanBracket,
    g: spec_fn(u64) -> Binary64,
    w: spec_fn(u64) -> nat,
)
    ensures
        p_value_terms(0, n, mean, Alternative::Greater, g) == PValue::Certain,
        p_value_terms(n, n, mean, Alternative::Less, g).weight(w, n) == weight_upto(w, n),
{
}

/// With more successes observed, the p-value against `Less` does not fall
/// and the p-value against `Greater` does not rise.
pub proof fn lemma_one_sided_weight_monotone(k1: u64, k2: u64, n: u64, w: spec_fn(u64) -> nat)
    requires
        k1 <= k2,
    ensures
        lower_tail(k1).weight(w, n) <= lower_tail(k2).weight(w, n),
        upper_tail_from(k2).weight(w, n) <= upper_tail_from(k1).weight(w, n),
{
    lemma_cumulative_grows(w, n, k1, k2);
    if k1 > 0 {
        lemma_cumulative_grows(w, n, (k1 - 1) as u64, (k2 - 1) as u64);
    } else if k2 > 0 {
        lemma_cumulative_grows(w, n, (k2 - 1) as u64, (k2 - 1) as u64);
    }
}

/// Reading the outcomes from the other end leaves the counted weight as
/// it is: the weight that `t` counts among the highest `x + 1` of the
/// outcomes `0..=n` is what `u` counts among `0..=x`.
proof fn lemma_counted_from_the_other_end(
    t: PValue,
    u: PValue,
    w: spec_fn(u64) -> nat,
    v: spec_fn(u64) -> nat,
    n: u64,
    x: u64,
)
    requires
        x <= n,
        forall|y: u64| y <= n ==> (#[trigger] t.counts(y) <==> u.counts((n - y) as u64)),
        forall|y: u64| y <= n ==> #[trigger] v(y) == w((n - y) as u64),
    ensures
        counted_upto(t, w, n) == counted_upto(u, v, x) + if x < n {
            counted_upto(t, w, (n - x - 1) as u64)
        } else {
            0
        },
    decreases x,
{
    let y = (n - x) as u64;
    assert(t.counts(y) <==> u.counts((n - y) as u64));
    assert(v(x) == w((n - x) as u64));
    if x > 0 {
        lemma_counted_from_the_other_end(t, u, w, v, n, (x - 1) as u64);
    }
}

/// The two-sided p-value does not depend on which of the two outcomes of a
/// trial is called a success: under the conditions of
/// `lemma_two_sided_relabelling`, the terms for `k` successes add up, with
/// the weights `w`, to what the terms for `n - k` successes add up to with
/// the weights read from the other end.
pub proof fn lemma_two_sided_weight_relabelling(
    k: u64,
    n: u64,
    mean: MeanBracket,
    g: spec_fn(u64) -> Binary64,
    m: spec_fn(u64) -> Binary64,
    w: spec_fn(u64) -> nat,
    v: spec_fn(u64) -> nat,
)
    requires
        k <= n,
        mean.floor <= mean.ceil <= n,
        k < mean.floor || k > mean.ceil || mean.floor == mean.ceil,
        forall|x: u64| x <= n ==> #[trigger] m(x) == g((n - x) as u64),
        forall|x: u64| x <= n ==> #[trigger] v(x) == w((n - x) as u64),
        nondecreasing(g, 0, mean.floor),
        nonincreasing(g, mean.ceil, n),
        numeric(g, 0, n),
        forall|y: u64| far_side(k, n, mean, y) ==> !(#[trigger] g(y)).same_number(g(k)),
    ensures
        two_sided_terms(k, n, mean, g).weight(w, n) == two_sided_terms(
            (n - k) as u64,
            n,
            relabelled(n, mean),
            m,
        ).weight(v, n),
{
    let turned = relabelled(n, mean);
    let t = two_sided_terms(k, n, mean, g);
    let u = two_sided_terms((n - k) as u64, n, turned, m);
    lemma_two_sided_relabelling(k, n, mean, g, m);
    lemma_two_sided_terms_shape(k, n, mean, g);
    lemma_two_sided_terms_shape((n - k) as u64, n, turned, m);
    if k != mean.floor {
        lemma_tails_apart(k, n, mean, t);
    }
    if n - k != turned.floor {
        lemma_tails_apart((n - k) as u64, n, turned, u);
    }
    lemma_weight_is_counted(t, w, n);
    lemma_weight_is_counted(u, v, n);
    lemma_counted_from_the_other_end(t, u, w, v, n, n);
}

} // verus!
