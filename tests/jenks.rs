use natural_breaks::combinatorics::nCr;
use natural_breaks::jenks::get_combinations;

#[test]
fn two_classes_of_four() {
    let nums: Vec<i64> = vec![4, 5, 9, 10];
    let parts = get_combinations(&nums, 2);
    let expected: Vec<Vec<Vec<i64>>> = vec![
        vec![vec![4], vec![5, 9, 10]],
        vec![vec![4, 5], vec![9, 10]],
        vec![vec![4, 5, 9], vec![10]],
    ];
    let got: Vec<Vec<Vec<i64>>> = parts
        .iter()
        .map(|p| p.iter().map(|s| s.to_vec()).collect())
        .collect();
    assert_eq!(got, expected);
}

#[test]
fn one_class_is_everything() {
    let nums: Vec<i64> = vec![1, 2, 3];
    let parts = get_combinations(&nums, 1);
    assert_eq!(parts.len(), 1);
    assert_eq!(parts[0], vec![&nums[..]]);
}

#[test]
fn as_many_classes_as_values() {
    let nums: Vec<i64> = vec![4, 5, 9, 10];
    let parts = get_combinations(&nums, 4);
    assert_eq!(parts.len(), 1);
    let expected: Vec<&[i64]> = vec![&[4], &[5], &[9], &[10]];
    assert_eq!(parts[0], expected);
}

#[test]
fn partitions_rebuild_the_data() {
    let nums: Vec<i64> = vec![1, 3, 3, 7, 12, 15, 20];
    for k in 1..=nums.len() {
        let parts = get_combinations(&nums, k);
        assert_eq!(parts.len() as i64, nCr(nums.len() as i64 - 1, k as i64 - 1));
        for p in &parts {
            assert_eq!(p.len(), k);
            assert!(p.iter().all(|s| !s.is_empty()));
            let joined: Vec<i64> = p.iter().flat_map(|s| s.iter().copied()).collect();
            assert_eq!(joined, nums);
        }
    }
}

#[test]
fn three_classes_in_order() {
    let nums: Vec<i64> = vec![1, 2, 3, 4];
    let parts = get_combinations(&nums, 3);
    let lens: Vec<Vec<usize>> = parts.iter().map(|p| p.iter().map(|s| s.len()).collect()).collect();
    assert_eq!(lens, vec![vec![1, 1, 2], vec![1, 2, 1], vec![2, 1, 1]]);
}
