use binomtest::{binary_search, Binary64};

fn value(x: f64) -> Binary64 {
    Binary64::from_bits(x.to_bits())
}

fn search(table: &[f64], key: f64, low: u64, high: u64) -> u64 {
    binary_search(&|x: u64| value(table[x as usize]), value(key), low, high)
}

#[test]
fn exact_match_is_returned() {
    let table = [1., 2., 3., 4., 5., 6., 7.];
    assert_eq!(search(&table, 4., 0, 6), 3);
    assert_eq!(search(&table, 2., 0, 6), 1);
    assert_eq!(search(&table, 6., 0, 6), 5);
    assert_eq!(search(&table, 1., 0, 6), 0);
    assert_eq!(search(&table, 7., 0, 6), 6);
}

#[test]
fn key_between_two_values() {
    let table = [1., 2., 3., 4., 5., 6., 7.];
    assert_eq!(search(&table, 4.5, 0, 6), 3);
    assert_eq!(search(&table, 1.5, 0, 6), 0);
    assert_eq!(search(&table, 6.5, 0, 6), 5);
    assert_eq!(search(&table, 2.5, 2, 5), 1);
    assert_eq!(search(&table, 5.5, 2, 5), 4);
}

#[test]
fn key_above_every_value() {
    let table = [1., 2., 3., 4., 5., 6., 7.];
    assert_eq!(search(&table, 9., 0, 6), 6);
    assert_eq!(search(&table, 9., 2, 4), 4);
}

#[test]
fn key_below_every_value() {
    let table = [1., 2., 3., 4., 5., 6., 7.];
    assert_eq!(search(&table, 0.5, 0, 6), 0);
    assert_eq!(search(&table, 0.5, 3, 6), 2);
    assert_eq!(search(&table, 0.5, 1, 1), 0);
    assert_eq!(search(&table, 0.5, 0, 0), 0);
}

#[test]
fn single_index() {
    let table = [1., 2., 3.];
    assert_eq!(search(&table, 2., 1, 1), 1);
    assert_eq!(search(&table, 5., 1, 1), 1);
    assert_eq!(search(&table, 1.5, 1, 1), 0);
    assert_eq!(search(&table, 2.5, 2, 2), 1);
}

#[test]
fn bounds_the_wrong_way_round() {
    let table = [1., 2., 3., 4.];
    assert_eq!(search(&table, 3.5, 2, 1), 2);
    assert_eq!(search(&table, 2.5, 2, 1), 1);
    assert_eq!(search(&table, 0.5, 0, 0), 0);
    assert_eq!(search(&table, 0.5, 3, 0), 2);
}

#[test]
fn midpoint_zero_stops_the_search() {
    let table = [5., 6.];
    assert_eq!(search(&table, 1., 0, 1), 0);
}

#[test]
fn falling_function_is_searched_negated() {
    let table = [0.4, 0.3, 0.2, 0.1, 0.05];
    let negated = |x: u64| value(table[x as usize]).neg();
    assert_eq!(binary_search(&negated, value(0.25).neg(), 0, 4), 1);
    assert_eq!(binary_search(&negated, value(0.2).neg(), 0, 4), 2);
    assert_eq!(binary_search(&negated, value(0.01).neg(), 0, 4), 4);
    assert_eq!(binary_search(&negated, value(0.5).neg(), 1, 4), 0);
}

#[test]
fn zeros_of_both_signs() {
    let table = [-0.0, 0.0, 0.0];
    // In the total order negative zero comes first ...
    assert_eq!(search(&table, 0.0, 0, 1), 1);
    assert_eq!(search(&table, -0.0, 0, 1), 0);
    // ... and in the closing comparison the two are equal.
    assert_eq!(search(&table, -0.0, 1, 1), 1);
}

#[test]
fn nan_is_ordered_in_the_search_and_fails_the_closing_comparison() {
    let table = [1., 2., f64::NAN];
    assert_eq!(search(&table, f64::NAN, 0, 2), 1);
    assert_eq!(search(&table, f64::NAN, 2, 2), 1);
    assert_eq!(search(&table, 3., 2, 2), 1);
    assert_eq!(search(&table, f64::NAN, 0, 0), 0);
}

#[test]
fn search_is_well_defined_without_order() {
    let table = [3., 1., 2., 0., 5.];
    // The midpoint holds the key.
    assert_eq!(search(&table, 2., 0, 4), 2);
    // 2 > 1 sends the search down, 3 > 1 at index zero ends it.
    assert_eq!(search(&table, 1., 0, 4), 0);
    // 2 < 4 and 0 < 4 send it up to the last index, whose 5 exceeds the key.
    assert_eq!(search(&table, 4., 0, 4), 3);
    // 1 < 1.5 at the midpoint of 1..=2, then the 2 at index 2 exceeds the key.
    assert_eq!(search(&table, 1.5, 1, 2), 1);
}

#[test]
fn wide_range() {
    let f = |x: u64| value(x as f64);
    assert_eq!(binary_search(&f, value(1e15), 0, u64::MAX), 1_000_000_000_000_000);
    assert_eq!(binary_search(&f, value(0.5), 0, u64::MAX), 0);
    assert_eq!(binary_search(&f, value(-1.), 0, u64::MAX), 0);
    assert_eq!(binary_search(&f, value(f64::INFINITY), 0, u64::MAX), u64::MAX);
}

#[test]
fn rising_function_is_split_at_the_key() {
    let table = [0.5, 1., 1., 2., 3.5, 3.5, 3.5, 8., 9., 9.5, 12.];
    for low in 0..table.len() {
        for high in low..table.len() {
            for key in [0., 0.5, 0.7, 1., 2., 3., 3.5, 4., 9., 9.5, 12., 20.] {
                let r = search(&table, key, low as u64, high as u64) as usize;
                if table[low] <= key {
                    assert!(low <= r && r <= high);
                    assert!(table[low..=r].iter().all(|v| *v <= key));
                    assert!(table[r + 1..=high].iter().all(|v| key <= *v));
                } else {
                    assert_eq!(r, low.saturating_sub(1));
                    assert!(table[low..=high].iter().all(|v| key < *v));
                }
            }
        }
    }
}

#[test]
fn result_stays_next_to_the_range() {
    let table = [4., 1., 7., 0., 0., 9., 2., 2., 5.];
    for low in 0..table.len() as u64 {
        for high in 0..table.len() as u64 {
            for key in [-1., 0., 1., 2., 3., 5., 8., 10.] {
                let r = search(&table, key, low, high);
                assert!(low <= r + 1);
                assert!(r <= high || r <= low);
            }
        }
    }
}
