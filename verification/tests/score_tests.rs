use city_match::score::Score;

#[test]
fn whole_has_no_fraction() {
    assert_eq!(Score::whole(5), Score { units: 5, numerator: 0, denominator: 1 });
}

#[test]
fn ratio_splits_units_and_fraction() {
    assert_eq!(Score::ratio(500, 6), Score { units: 83, numerator: 2, denominator: 6 });
    assert_eq!(Score::ratio(9999, 100), Score { units: 99, numerator: 99, denominator: 100 });
    assert_eq!(Score::ratio(0, 7), Score { units: 0, numerator: 0, denominator: 7 });
}

#[test]
fn less_than_compares_across_denominators() {
    let third = Score::ratio(500, 6);
    let more = Score::ratio(8334, 100);
    assert!(third.less_than(&more));
    assert!(!more.less_than(&third));
    assert!(!third.less_than(&third));
}

#[test]
fn less_than_goes_by_units_first() {
    let low = Score { units: 3, numerator: 9, denominator: 10 };
    let high = Score { units: 4, numerator: 0, denominator: 1 };
    assert!(low.less_than(&high));
    assert!(!high.less_than(&low));
}

#[test]
fn same_as_ignores_the_denominator() {
    let half = Score { units: 0, numerator: 1, denominator: 2 };
    let two_quarters = Score { units: 0, numerator: 2, denominator: 4 };
    assert!(half.same_as(&two_quarters));
    assert!(!half.less_than(&two_quarters));
    assert!(!two_quarters.less_than(&half));
    assert!(!half.same_as(&Score::whole(1)));
}

#[test]
fn large_fractions_compare_without_overflow() {
    let big = u64::MAX;
    let a = Score { units: 1, numerator: big - 2, denominator: big };
    let b = Score { units: 1, numerator: big - 1, denominator: big };
    assert!(a.less_than(&b));
    assert!(!b.less_than(&a));
    assert!(!a.same_as(&b));
}
