use natural_breaks::ranges::{Breaks, DataRange, RangeStyle, Ranges};

#[test]
fn breaks_to_ranges() {
    let b = Breaks(vec![563528., 1739050., 4136542., 7116266., 38733295.]);
    let r = Ranges::from(b);
    assert_eq!(
        r,
        Ranges(vec![
            DataRange::new(563528.0, 1739050.0, RangeStyle::Exclusive),
            DataRange::new(1739050.0, 4136542.0, RangeStyle::Exclusive),
            DataRange::new(4136542.0, 7116266.0, RangeStyle::Exclusive),
            DataRange::new(7116266.0, 38733295.0, RangeStyle::Inclusive),
        ])
    );
    assert!(!r.0[1].contains(563528.0));
    assert!(r.0[1].contains(1739050.0));
    assert!(r.0[3].contains(38733295.0));
}

#[test]
fn ranges_to_breaks() {
    let r = Ranges(vec![
        DataRange::new(563528.0, 1739050.0, RangeStyle::Exclusive),
        DataRange::new(1739050.0, 4136542.0, RangeStyle::Exclusive),
        DataRange::new(4136542.0, 7116266.0, RangeStyle::Exclusive),
        DataRange::new(7116266.0, 38733295.0, RangeStyle::Inclusive),
    ]);
    let b = Breaks::from(r);
    assert_eq!(
        b,
        Breaks(vec![563528., 1739050., 4136542., 7116266., 38733295.])
    );
}

#[test]
fn contains_on_integers() {
    let ex = DataRange::new(2i64, 5, RangeStyle::Exclusive);
    assert!(!ex.contains(1));
    assert!(ex.contains(2));
    assert!(ex.contains(4));
    assert!(!ex.contains(5));
    let inc = DataRange::new(2i64, 5, RangeStyle::Inclusive);
    assert!(inc.contains(5));
    assert!(!inc.contains(6));
}

#[test]
fn round_trip_both_ways() {
    let b = Breaks(vec![1i64, 3, 3, 8]);
    let r = Ranges::from_breaks(&b);
    assert_eq!(r.0.len(), 3);
    assert_eq!(Breaks::from_ranges(&r), b);
    let back = Ranges::from(Breaks::from(Ranges(vec![
        DataRange::new(0i64, 4, RangeStyle::Exclusive),
        DataRange::new(4, 9, RangeStyle::Inclusive),
    ])));
    assert_eq!(
        back,
        Ranges(vec![
            DataRange::new(0i64, 4, RangeStyle::Exclusive),
            DataRange::new(4, 9, RangeStyle::Inclusive),
        ])
    );
}

#[test]
fn short_breaks_give_no_ranges() {
    assert_eq!(Ranges::from(Breaks::<i64>(vec![])).0.len(), 0);
    assert_eq!(Ranges::from(Breaks(vec![7i64])).0.len(), 0);
    let one = Ranges::from(Breaks(vec![7i64, 9]));
    assert_eq!(one, Ranges(vec![DataRange::new(7i64, 9, RangeStyle::Inclusive)]));
    assert_eq!(Breaks::from(Ranges::<i64>(vec![])), Breaks(vec![]));
}

#[test]
fn iterate_breaks_and_ranges() {
    let b = Breaks(vec![1i64, 4, 9]);
    let values: Vec<i64> = b.clone().into_iter().collect();
    assert_eq!(values, vec![1, 4, 9]);
    let styles: Vec<RangeStyle> = Ranges::from(b).into_iter().map(|r| r.style).collect();
    assert_eq!(styles, vec![RangeStyle::Exclusive, RangeStyle::Inclusive]);
}

#[test]
fn every_value_in_exactly_one_range() {
    let r = Ranges::from(Breaks(vec![1i64, 3, 3, 8]));
    for x in 1..=8 {
        assert_eq!(r.0.iter().filter(|d| d.contains(x)).count(), 1);
    }
    assert!(r.0.iter().all(|d| !d.contains(0)));
    assert!(r.0.iter().all(|d| !d.contains(9)));
}
