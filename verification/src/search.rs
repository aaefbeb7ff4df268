//! The search for the place where a function over the integers crosses a
//! threshold.
use crate::binary64::Binary64;
use vstd::prelude::*;

verus! {

/// Whether `g` gives, for every argument, the one value that a call of `f`
/// can return.
pub open spec fn describes<F: Fn(u64) -> Binary64>(f: &F, g: spec_fn(u64) -> Binary64) -> bool {
    forall|x: u64, y: Binary64| #[trigger] f.ensures((x,), y) ==> y == g(x)
}

/// Whether `f` may be called on every argument.
pub open spec fn total<F: Fn(u64) -> Binary64>(f: &F) -> bool {
    forall|x: u64| #[trigger] f.requires((x,))
}

/// The number of indices by which `high` lies above `low`.
pub open spec fn span(low: u64, high: u64) -> nat {
    if low < high {
        (high - low) as nat
    } else {
        0
    }
}

/// The index that the search over `low..=high` ends on: the halving search
/// that compares the value at the midpoint with `key` in the total order,
/// stops on an exact match, and once the bounds have met keeps the last
/// index if its value is numerically at most `key` and steps one below it
/// (never below zero) otherwise.
pub open spec fn search_index(
    g: spec_fn(u64) -> Binary64,
    key: Binary64,
    low: u64,
    high: u64,
) -> u64
    decreases span(low, high),
{
    if low < high {
        let mid = (low + (high - low) / 2) as u64;
        if g(mid).order_key() < key.order_key() {
            search_index(g, key, (mid + 1) as u64, high)
        } else if g(mid).order_key() == key.order_key() {
            mid
        } else if mid == 0 {
            0
        } else {
            search_index(g, key, low, (mid - 1) as u64)
        }
    } else if g(low).at_most(key) {
        low
    } else if low == 0 {
        0
    } else {
        (low - 1) as u64
    }
}

/// The search ends inside the range, or one index below it; where the
/// bounds come the wrong way round it ends on `low` or one index below.
pub proof fn lemma_search_index_bounds(
    g: spec_fn(u64) -> Binary64,
    key: Binary64,
    low: u64,
    high: u64,
)
    ensures
        low <= search_index(g, key, low, high) + 1,
        search_index(g, key, low, high) <= high || search_index(g, key, low, high) <= low,
    decreases span(low, high),
{
    if low < high {
        let mid = (low + (high - low) / 2) as u64;
        if g(mid).order_key() < key.order_key() {
            lemma_search_index_bounds(g, key, (mid + 1) as u64, high);
        } else if g(mid).order_key() > key.order_key() && mid != 0 {
            lemma_search_index_bounds(g, key, low, (mid - 1) as u64);
        }
    }
}

/// Whether `g` never decreases, in the total order, over `low..=high`.
pub open spec fn nondecreasing(g: spec_fn(u64) -> Binary64, low: u64, high: u64) -> bool {
    forall|a: u64, b: u64|
        low <= a <= b <= high ==> (#[trigger] g(a)).order_key() <= (#[trigger] g(b)).order_key()
}

/// Whether `g` is a number, not a NaN, all over `low..=high`.
pub open spec fn numeric(g: spec_fn(u64) -> Binary64, low: u64, high: u64) -> bool {
    forall|x: u64| low <= x <= high ==> !(#[trigger] g(x)).nan()
}

/// Whether `r` is a place where `g` crosses `key` over `low..=high`.
///
/// Where the first value is at most `key`, `r` lies in the range, every
/// value up to and including `r` is at most `key`, and every value after
/// `r` is at least `key`. Where already the first value exceeds `key`, so
/// does every value, and `r` is the index before `low`, or zero where there
/// is none.
pub open spec fn crossing(
    g: spec_fn(u64) -> Binary64,
    key: Binary64,
    low: u64,
    high: u64,
    r: u64,
) -> bool {
    if g(low).at_most(key) {
        &&& low <= r <= high
        &&& forall|x: u64| low <= x <= r ==> (#[trigger] g(x)).at_most(key)
        &&& forall|x: u64| r < x <= high ==> key.at_most(#[trigger] g(x))
    } else {
        &&& r == if low == 0 {
            0
        } else {
            low - 1
        }
        &&& forall|x: u64| low <= x <= high ==> key.below(#[trigger] g(x))
    }
}

/// What the search has established once it has narrowed `lo0..=hi0` down to
/// `low..=high`: the index it ends on splits the whole range at `key`.
proof fn lemma_search_narrowing(
    g: spec_fn(u64) -> Binary64,
    key: Binary64,
    lo0: u64,
    hi0: u64,
    low: u64,
    high: u64,
)
    requires
        lo0 <= low <= hi0,
        high <= hi0,
        low <= high + 1,
        nondecreasing(g, lo0, hi0),
        numeric(g, lo0, hi0),
        !key.nan(),
        forall|x: u64| lo0 <= x < low ==> (#[trigger] g(x)).order_key() < key.order_key(),
        forall|x: u64| high < x <= hi0 ==> (#[trigger] g(x)).order_key() > key.order_key(),
    ensures
        ({
            let r = search_index(g, key, low, high);
            &&& forall|x: u64| lo0 <= x <= hi0 && x < r ==> (#[trigger] g(x)).order_key() <= key.order_key()
            &&& forall|x: u64| lo0 <= x <= hi0 && x > r ==> (#[trigger] g(x)).order_key() >= key.order_key()
            &&& (lo0 <= r <= hi0 && g(r).at_most(key)) || (!g(lo0).at_most(key) && r == if lo0 == 0 {
                0
            } else {
                lo0 - 1
            })
        }),
    decreases span(low, high),
{
    if low < high {
        let mid = (low + (high - low) / 2) as u64;
        if g(mid).order_key() < key.order_key() {
            assert forall|x: u64| lo0 <= x < mid + 1 implies (#[trigger] g(x)).order_key()
                < key.order_key() by {
                assert(g(x).order_key() <= g(mid).order_key());
            }
            lemma_search_narrowing(g, key, lo0, hi0, (mid + 1) as u64, high);
        } else if g(mid).order_key() == key.order_key() {
            assert forall|x: u64| lo0 <= x <= hi0 && x < mid implies (#[trigger] g(x)).order_key()
                <= key.order_key() by {
                assert(g(x).order_key() <= g(mid).order_key());
            }
            assert forall|x: u64| lo0 <= x <= hi0 && x > mid implies (#[trigger] g(x)).order_key()
                >= key.order_key() by {
                assert(g(mid).order_key() <= g(x).order_key());
            }
        } else if mid == 0 {
            assert forall|x: u64| lo0 <= x <= hi0 && x > 0 implies (#[trigger] g(x)).order_key()
                >= key.order_key() by {
                assert(g(mid).order_key() <= g(x).order_key());
            }
            assert(!g(lo0).nan());
        } else {
            assert forall|x: u64| mid - 1 < x <= hi0 implies (#[trigger] g(x)).order_key()
                > key.order_key() by {
                assert(g(mid).order_key() <= g(x).order_key());
            }
            lemma_search_narrowing(g, key, lo0, hi0, low, (mid - 1) as u64);
        }
    } else {
        assert(!g(low).nan());
        if !g(low).at_most(key) && low > lo0 {
            assert(!g((low - 1) as u64).nan());
        }
    }
}

/// Over a range on which `g` never decreases and is never a NaN, the search
/// ends on a place where `g` crosses `key`.
pub proof fn lemma_search_finds_crossing(
    g: spec_fn(u64) -> Binary64,
    key: Binary64,
    low: u64,
    high: u64,
)
    requires
        low <= high,
        nondecreasing(g, low, high),
        numeric(g, low, high),
        !key.nan(),
    ensures
        crossing(g, key, low, high, search_index(g, key, low, high)),
{
    lemma_search_narrowing(g, key, low, high, low, high);
    let r = search_index(g, key, low, high);
    assert(!g(low).nan());
    if g(low).at_most(key) {
        assert forall|x: u64| low <= x <= r implies (#[trigger] g(x)).at_most(key) by {
            assert(!g(x).nan());
        }
        assert forall|x: u64| r < x <= high implies key.at_most(#[trigger] g(x)) by {
            assert(!g(x).nan());
        }
    } else {
        assert forall|x: u64| low <= x <= high implies key.below(#[trigger] g(x)) by {
            assert(!g(x).nan());
            assert(g(low).order_key() <= g(x).order_key());
        }
    }
}

/// Where no value over the range is the same number as `key`, `g` crosses
/// `key` at one place only.
pub proof fn lemma_crossing_unique(
    g: spec_fn(u64) -> Binary64,
    key: Binary64,
    low: u64,
    high: u64,
    r1: u64,
    r2: u64,
)
    requires
        crossing(g, key, low, high, r1),
        crossing(g, key, low, high, r2),
        forall|x: u64| low <= x <= high ==> !(#[trigger] g(x)).same_number(key),
    ensures
        r1 == r2,
{
    if g(low).at_most(key) {
        if r1 < r2 {
            assert(g(r2).same_number(key));
        } else if r2 < r1 {
            assert(g(r1).same_number(key));
        }
    }
}

/// An index that is the search's for every function that describes `f` is
/// a crossing for each of them that never decreases.
proof fn lemma_described_crossing<F: Fn(u64) -> Binary64>(
    f: &F,
    key: Binary64,
    low: u64,
    high: u64,
    r: u64,
)
    requires
        forall|g: spec_fn(u64) -> Binary64| #[trigger]
            describes(f, g) ==> r == search_index(g, key, low, high),
    ensures
        forall|g: spec_fn(u64) -> Binary64| #[trigger]
            describes(f, g) && low <= high && nondecreasing(g, low, high) && numeric(g, low, high)
                && !key.nan() ==> crossing(g, key, low, high, r),
{
    assert forall|g: spec_fn(u64) -> Binary64| #[trigger]
        describes(f, g) && low <= high && nondecreasing(g, low, high) && numeric(g, low, high)
            && !key.nan() implies crossing(g, key, low, high, r) by {
        lemma_search_finds_crossing(g, key, low, high);
    }
}

/// Searches `low..=high` for the index at which `f` crosses `key`.
///
/// For a function that never decreases over the range this is the boundary
/// between the indices whose value is at most `key` and those whose value
/// is at least `key`. For any other function the result is still the one
/// index that `search_index` names.
pub fn binary_search<F: Fn(u64) -> Binary64>(f: &F, key: Binary64, low: u64, high: u64) -> (r: u64)
    requires
        total(f),
    ensures
        forall|g: spec_fn(u64) -> Binary64| #[trigger]
            describes(f, g) ==> r == search_index(g, key, low, high),
        forall|g: spec_fn(u64) -> Binary64| #[trigger]
            describes(f, g) && low <= high && nondecreasing(g, low, high) && numeric(g, low, high)
                && !key.nan() ==> crossing(g, key, low, high, r),
        low <= r + 1,
        r <= high || r <= low,
{
    let mut lo: u64 = low;
    let mut hi: u64 = high;
    while lo < hi
        invariant
            total(f),
            low <= lo,
            hi <= high,
            lo == low || lo <= high,
            forall|g: spec_fn(u64) -> Binary64| #[trigger]
                describes(f, g) ==> search_index(g, key, lo, hi) == search_index(
                    g,
                    key,
                    low,
                    high,
                ),
        decreases span(lo, hi),
    {
        let mid: u64 = lo + (hi - lo) / 2;
        let midval = f(mid);
        if midval.total_lt(key) {
            lo = mid + 1;
        } else if midval.total_eq(key) {
            proof {
                lemma_described_crossing(f, key, low, high, mid);
            }
            return mid;
        } else if mid == 0 {
            proof {
                lemma_described_crossing(f, key, low, high, 0);
            }
            return 0;
        } else {
            hi = mid - 1;
        }
    }
    let r = if f(lo).le(key) {
        lo
    } else if lo == 0 {
        0
    } else {
        lo - 1
    };
    proof {
        lemma_described_crossing(f, key, low, high, r);
    }
    r
}

} // verus!
