use binomtest::{alt_to_str, Alternative, TestError};

#[test]
fn alternatives_by_name() {
    assert_eq!(alt_to_str(&Alternative::TwoSided), "two-sided");
    assert_eq!(alt_to_str(&Alternative::Less), "less");
    assert_eq!(alt_to_str(&Alternative::Greater), "greater");
}

#[test]
fn errors_in_words() {
    assert_eq!(TestError::InvalidTrials.message(), "Number of trials n must be > 0");
    assert_eq!(
        TestError::InvalidSuccessCount.message(),
        "Number of successes k must be <= n and > 0"
    );
    assert_eq!(
        TestError::InvalidProbability.message(),
        "Probability p must be in [0, 1]"
    );
}

#[test]
fn alternatives_compare_and_copy() {
    let a = Alternative::Less;
    let b = a;
    assert_eq!(a, b);
    assert_ne!(a, Alternative::Greater);
    assert_eq!(format!("{:?}", Alternative::TwoSided), "TwoSided");
}
