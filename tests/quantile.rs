use natural_breaks::quantile::{get_quantile, get_quartile};
use natural_breaks::ranges::Breaks;

const ALL_STATES_S1701_SORTED_F64: [f64; 52] = [
    563528.0, 599030.0, 673041.0, 713725.0, 738814.0, 854648.0, 944955.0, 1018586.0, 1042682.0,
    1304100.0, 1316495.0, 1379078.0, 1739050.0, 1753946.0, 1877629.0, 2053305.0, 2826818.0,
    2877843.0, 2929117.0, 3037199.0, 3058938.0, 3157996.0, 3167190.0, 3460446.0, 3841763.0,
    4136542.0, 4326675.0, 4515876.0, 4781688.0, 5003235.0, 5515416.0, 5637904.0, 5675557.0,
    5898360.0, 5953025.0, 6517430.0, 6656385.0, 6656430.0, 7116266.0, 7470152.0, 8279357.0,
    8712974.0, 9772151.0, 10199239.0, 10332523.0, 11362386.0, 12373209.0, 12387178.0,
    18932499.0, 21048884.0, 28361423.0, 38733295.0,
];

#[test]
fn test_quantile() {
    let ans = get_quantile(&ALL_STATES_S1701_SORTED_F64, 7);
    assert!(ans.is_some());
    assert_eq!(
        ans.unwrap(),
        Breaks(vec![
            563528.0, 1018586.0, 1877629.0, 3167190.0, 5003235.0, 6656430.0, 10332523.0,
            38733295.0
        ])
    )
}

#[test]
fn test_quartile() {
    let ans = get_quartile(&ALL_STATES_S1701_SORTED_F64);
    assert!(ans.is_some());
    assert_eq!(
        ans.unwrap(),
        Breaks(vec![563528., 1739050., 4136542., 7116266., 38733295.])
    )
}

#[test]
fn quantile_too_many_classes() {
    assert!(get_quantile(&[1.0], 2).is_none());
    assert!(get_quartile(&[1i64, 2, 3]).is_none());
}

#[test]
fn quantile_as_many_classes_as_values() {
    assert_eq!(get_quantile(&[1.0, 2.0], 2), Some(Breaks(vec![1.0, 1.0, 2.0])));
    assert_eq!(get_quantile(&[4i64, 5, 9, 10], 4), Some(Breaks(vec![4, 4, 5, 9, 10])));
}

#[test]
fn quantile_single_class() {
    assert_eq!(get_quantile(&[3i64, 8, 11], 1), Some(Breaks(vec![3, 11])));
}
