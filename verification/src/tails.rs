//! What the tails of the test hold: the outcomes that a p-value counts, and
//! how they change with the observation.
use crate::binary64::{lemma_negation_reverses, Binary64};
use crate::evaluator::{
    lower_tail, negation, two_sided_shape, two_sided_terms, upper_tail_from, MeanBracket, PValue,
};
use crate::search::{
    crossing, lemma_search_finds_crossing, lemma_search_index_bounds, nondecreasing, numeric,
    search_index,
};
use vstd::prelude::*;

verus! {

/// Whether `g` never increases, in the total order, over `low..=high`.
pub open spec fn nonincreasing(g: spec_fn(u64) -> Binary64, low: u64, high: u64) -> bool {
    forall|a: u64, b: u64|
        low <= a <= b <= high ==> (#[trigger] g(b)).order_key() <= (#[trigger] g(a)).order_key()
}

/// A one-sided test counts exactly the outcomes on its side of the
/// observed one, the observed one included.
pub proof fn lemma_one_sided_counts(k: u64, x: u64)
    ensures
        lower_tail(k).counts(x) <==> x <= k,
        upper_tail_from(k).counts(x) <==> x >= k,
{
}

/// The terms of the two-sided test have their shape for every mass
/// function.
pub proof fn lemma_two_sided_terms_shape(
    k: u64,
    n: u64,
    mean: MeanBracket,
    g: spec_fn(u64) -> Binary64,
)
    ensures
        two_sided_shape(k, n, mean, two_sided_terms(k, n, mean, g)),
{
    if k < mean.floor {
        lemma_search_index_bounds(negation(g), g(k).negated(), mean.ceil, n);
    } else if k > mean.floor {
        lemma_search_index_bounds(g, g(k), 0, mean.floor);
    }
}

/// Terms of the shape of a two-sided test, away from the floor of the
/// expected count, have two tails with no outcome in common: every outcome
/// enters the p-value at most once.
pub proof fn lemma_tails_apart(k: u64, n: u64, mean: MeanBracket, t: PValue)
    requires
        mean.floor <= mean.ceil,
        k != mean.floor,
        two_sided_shape(k, n, mean, t),
    ensures
        t is Both,
        t.apart(),
{
}

/// The two-sided test of an observation below the expected count, where
/// the mass function falls from the ceiling of the expected count to `n`
/// and is a number there.
///
/// Every outcome up to the observed one is counted, and none between it
/// and the ceiling. From the ceiling on, an outcome that is counted is at
/// most as probable as the observed one, and an outcome that is not
/// counted is at least as probable.
pub proof fn lemma_two_sided_upper_tail(
    k: u64,
    n: u64,
    mean: MeanBracket,
    g: spec_fn(u64) -> Binary64,
)
    requires
        k < mean.floor <= mean.ceil <= n,
        nonincreasing(g, mean.ceil, n),
        numeric(g, mean.ceil, n),
        !g(k).nan(),
    ensures
        ({
            let t = two_sided_terms(k, n, mean, g);
            &&& forall|y: u64| y <= k ==> #[trigger] t.counts(y)
            &&& forall|y: u64| k < y < mean.ceil ==> !#[trigger] t.counts(y)
            &&& forall|y: u64|
                mean.ceil <= y <= n && #[trigger] t.counts(y) ==> g(y).at_most(g(k))
            &&& forall|y: u64|
                mean.ceil <= y <= n && !#[trigger] t.counts(y) ==> g(k).at_most(g(y))
        }),
{
    let h = negation(g);
    let key = g(k).negated();
    assert(nondecreasing(h, mean.ceil, n)) by {
        assert forall|a: u64, b: u64| mean.ceil <= a <= b <= n implies (#[trigger] h(a)).order_key()
            <= (#[trigger] h(b)).order_key() by {
            lemma_negation_reverses(g(a), g(b));
        }
    }
    assert(numeric(h, mean.ceil, n)) by {
        assert forall|x: u64| mean.ceil <= x <= n implies !(#[trigger] h(x)).nan() by {
            lemma_negation_reverses(g(x), g(x));
        }
    }
    lemma_negation_reverses(g(k), g(k));
    lemma_search_finds_crossing(h, key, mean.ceil, n);
    let t = two_sided_terms(k, n, mean, g);
    assert(crossing(h, key, mean.ceil, n, search_index(h, key, mean.ceil, n)));
    assert forall|y: u64| mean.ceil <= y <= n && #[trigger] t.counts(y) implies g(y).at_most(
        g(k),
    ) by {
        lemma_negation_reverses(g(k), g(y));
        assert(key.at_most(h(y)) || key.below(h(y)));
    }
    assert forall|y: u64| mean.ceil <= y <= n && !#[trigger] t.counts(y) implies g(k).at_most(
        g(y),
    ) by {
        lemma_negation_reverses(g(y), g(k));
        assert(h(y).at_most(key));
    }
}

/// The two-sided test of an observation above the floor of the expected
/// count, where the mass function rises from zero to that floor and is a
/// number there.
///
/// Every outcome from the observed one on is counted, and none between the
/// floor and it. Up to the floor, an outcome that is counted is at most as
/// probable as the observed one, and an outcome that is not counted is at
/// least as probable.
pub proof fn lemma_two_sided_lower_tail(
    k: u64,
    n: u64,
    mean: MeanBracket,
    g: spec_fn(u64) -> Binary64,
)
    requires
        mean.floor < k,
        nondecreasing(g, 0, mean.floor),
        numeric(g, 0, mean.floor),
        !g(k).nan(),
    ensures
        ({
            let t = two_sided_terms(k, n, mean, g);
            &&& forall|y: u64| k <= y ==> #[trigger] t.counts(y)
            &&& forall|y: u64| mean.floor < y < k ==> !#[trigger] t.counts(y)
            &&& forall|y: u64| y <= mean.floor && #[trigger] t.counts(y) ==> g(y).at_most(g(k))
            &&& forall|y: u64| y <= mean.floor && !#[trigger] t.counts(y) ==> g(k).at_most(g(y))
        }),
{
    let d = g(k);
    lemma_search_finds_crossing(g, d, 0, mean.floor);
    let x = search_index(g, d, 0, mean.floor);
    let t = two_sided_terms(k, n, mean, g);
    assert(crossing(g, d, 0, mean.floor, x));
    assert(!g(0).nan());
    assert forall|y: u64| y <= mean.floor && !#[trigger] t.counts(y) implies g(k).at_most(
        g(y),
    ) by {
        assert(!g(y).nan());
        if g(0).at_most(d) {
            assert(d.at_most(g(y)));
        } else {
            assert(d.below(g(y)));
        }
    }
    assert forall|y: u64| y <= mean.floor && #[trigger] t.counts(y) implies g(y).at_most(
        g(k),
    ) by {
        assert(!g(y).nan());
        assert(g(0).at_most(d));
        assert(g(y).at_most(d));
    }
}

/// Whether `y` lies on the far side of the expected count from `k`: from
/// the ceiling up to `n` for an observation below the floor, and up to the
/// floor for an observation above the ceiling.
pub open spec fn far_side(k: u64, n: u64, mean: MeanBracket, y: u64) -> bool {
    (k < mean.floor && mean.ceil <= y <= n) || (k > mean.ceil && y <= mean.floor)
}

/// The bracket of the expected count once successes and failures have
/// changed names.
pub open spec fn relabelled(n: u64, mean: MeanBracket) -> MeanBracket {
    MeanBracket { floor: (n - mean.ceil) as u64, ceil: (n - mean.floor) as u64 }
}

/// The two-sided test of an observation below the floor of the expected
/// count counts `y` successes exactly when the relabelled test counts
/// `n - y`.
proof fn lemma_relabelling_from_below(
    k: u64,
    n: u64,
    mean: MeanBracket,
    g: spec_fn(u64) -> Binary64,
    m: spec_fn(u64) -> Binary64,
)
    requires
        k < mean.floor <= mean.ceil <= n,
        forall|x: u64| x <= n ==> #[trigger] m(x) == g((n - x) as u64),
        nonincreasing(g, mean.ceil, n),
        numeric(g, mean.ceil, n),
        !g(k).nan(),
        forall|y: u64| mean.ceil <= y <= n ==> !(#[trigger] g(y)).same_number(g(k)),
    ensures
        forall|y: u64|
            y <= n ==> (#[trigger] two_sided_terms(k, n, mean, g).counts(y) <==> two_sided_terms(
                (n - k) as u64,
                n,
                relabelled(n, mean),
                m,
            ).counts((n - y) as u64)),
{
    let turned = relabelled(n, mean);
    let t = two_sided_terms(k, n, mean, g);
    let u = two_sided_terms((n - k) as u64, n, turned, m);
    assert(m((n - k) as u64) == g(k));
    assert(nondecreasing(m, 0, turned.floor)) by {
        assert forall|a: u64, b: u64| 0 <= a <= b <= turned.floor implies (#[trigger] m(
            a,
        )).order_key() <= (#[trigger] m(b)).order_key() by {
            assert(g((n - b) as u64).order_key() >= g((n - a) as u64).order_key());
        }
    }
    assert(numeric(m, 0, turned.floor)) by {
        assert forall|x: u64| 0 <= x <= turned.floor implies !(#[trigger] m(x)).nan() by {
            assert(!g((n - x) as u64).nan());
        }
    }
    lemma_two_sided_upper_tail(k, n, mean, g);
    lemma_two_sided_lower_tail((n - k) as u64, n, turned, m);
    assert forall|y: u64| y <= n implies (#[trigger] t.counts(y) <==> u.counts((n - y) as u64)) by {
        let z = (n - y) as u64;
        if y <= k {
            assert(t.counts(y) && u.counts(z));
        } else if y < mean.ceil {
            assert(!t.counts(y) && !u.counts(z));
        } else {
            assert(m(z) == g(y));
            assert(!g(y).same_number(g(k)));
            assert(!g(y).nan());
        }
    }
}

/// The two-sided test of an observation above the ceiling of the expected
/// count counts `y` successes exactly when the relabelled test counts
/// `n - y`.
proof fn lemma_relabelling_from_above(
    k: u64,
    n: u64,
    mean: MeanBracket,
    g: spec_fn(u64) -> Binary64,
    m: spec_fn(u64) -> Binary64,
)
    requires
        mean.floor <= mean.ceil < k <= n,
        forall|x: u64| x <= n ==> #[trigger] m(x) == g((n - x) as u64),
        nondecreasing(g, 0, mean.floor),
        numeric(g, 0, mean.floor),
        !g(k).nan(),
        forall|y: u64| y <= mean.floor ==> !(#[trigger] g(y)).same_number(g(k)),
    ensures
        forall|y: u64|
            y <= n ==> (#[trigger] two_sided_terms(k, n, mean, g).counts(y) <==> two_sided_terms(
                (n - k) as u64,
                n,
                relabelled(n, mean),
                m,
            ).counts((n - y) as u64)),
{
    let turned = relabelled(n, mean);
    let t = two_sided_terms(k, n, mean, g);
    let u = two_sided_terms((n - k) as u64, n, turned, m);
    assert(m((n - k) as u64) == g(k));
    assert(nonincreasing(m, turned.ceil, n)) by {
        assert forall|a: u64, b: u64| turned.ceil <= a <= b <= n implies (#[trigger] m(
            b,
        )).order_key() <= (#[trigger] m(a)).order_key() by {
            assert(g((n - b) as u64).order_key() <= g((n - a) as u64).order_key());
        }
    }
    assert(numeric(m, turned.ceil, n)) by {
        assert forall|x: u64| turned.ceil <= x <= n implies !(#[trigger] m(x)).nan() by {
            assert(!g((n - x) as u64).nan());
        }
    }
    lemma_two_sided_lower_tail(k, n, mean, g);
    lemma_two_sided_upper_tail((n - k) as u64, n, turned, m);
    assert forall|y: u64| y <= n implies (#[trigger] t.counts(y) <==> u.counts((n - y) as u64)) by {
        let z = (n - y) as u64;
        if y >= k {
            assert(t.counts(y) && u.counts(z));
        } else if y > mean.floor {
            assert(!t.counts(y) && !u.counts(z));
        } else {
            assert(m(z) == g(y));
            assert(!g(y).same_number(g(k)));
            assert(!g(y).nan());
        }
    }
}

/// The two-sided test does not depend on which of the two outcomes of a
/// trial is called a success: it counts `y` successes exactly when the test
/// of `n - k` successes, for the mass function read from the other end and
/// the expected count bracketed from the other end, counts `n - y`.
///
/// This holds where the mass function rises up to the floor of the expected
/// count and falls from its ceiling on, where no outcome on the far side of
/// the expected count is exactly as probable as the observed one, and where
/// the observation is neither the floor nor the ceiling of an expected
/// count that is no whole number.
pub proof fn lemma_two_sided_relabelling(
    k: u64,
    n: u64,
    mean: MeanBracket,
    g: spec_fn(u64) -> Binary64,
    m: spec_fn(u64) -> Binary64,
)
    requires
        k <= n,
        mean.floor <= mean.ceil <= n,
        k < mean.floor || k > mean.ceil || mean.floor == mean.ceil,
        forall|x: u64| x <= n ==> #[trigger] m(x) == g((n - x) as u64),
        nondecreasing(g, 0, mean.floor),
        nonincreasing(g, mean.ceil, n),
        numeric(g, 0, n),
        forall|y: u64| far_side(k, n, mean, y) ==> !(#[trigger] g(y)).same_number(g(k)),
    ensures
        forall|y: u64|
            y <= n ==> (#[trigger] two_sided_terms(k, n, mean, g).counts(y) <==> two_sided_terms(
                (n - k) as u64,
                n,
                relabelled(n, mean),
                m,
            ).counts((n - y) as u64)),
{
    assert(!g(k).nan());
    if k < mean.floor {
        assert(numeric(g, mean.ceil, n)) by {
            assert forall|x: u64| mean.ceil <= x <= n implies !(#[trigger] g(x)).nan() by {}
        }
        assert forall|y: u64| mean.ceil <= y <= n implies !(#[trigger] g(y)).same_number(g(k)) by {
            assert(far_side(k, n, mean, y));
        }
        lemma_relabelling_from_below(k, n, mean, g, m);
    } else if k > mean.ceil {
        assert(numeric(g, 0, mean.floor)) by {
            assert forall|x: u64| 0 <= x <= mean.floor implies !(#[trigger] g(x)).nan() by {}
        }
        assert forall|y: u64| y <= mean.floor implies !(#[trigger] g(y)).same_number(g(k)) by {
            assert(far_side(k, n, mean, y));
        }
        lemma_relabelling_from_above(k, n, mean, g, m);
    }
}

} // verus!
