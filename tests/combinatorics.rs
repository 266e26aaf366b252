use natural_breaks::combinatorics::{factorial, nCr, naive_nCr};

#[test]
fn test_factorial() {
    assert_eq!(factorial(3), 6);
    assert_eq!(factorial(5), 120);
    assert_eq!(factorial(7), 5040);
}

#[test]
fn test_nCr() {
    assert_eq!(naive_nCr(6, 2), 15);
}

#[test]
fn test_efficient_nCr() {
    assert_eq!(nCr(6, 2), 15);
    assert_eq!(nCr(25, 3), 2300);
    assert_eq!(nCr(18, 4), 3060);
}

#[test]
fn factorial_edges() {
    assert_eq!(factorial(0), 1);
    assert_eq!(factorial(1), 1);
    assert_eq!(factorial(-3), 1);
    assert_eq!(factorial(20), 2432902008176640000);
}

#[test]
fn choose_is_symmetric() {
    for n in 0..=30i64 {
        for r in 0..=n {
            assert_eq!(nCr(n, r), nCr(n, n - r));
        }
    }
    assert_eq!(nCr(25, 22), 2300);
    assert_eq!(nCr(18, 14), 3060);
}

#[test]
fn choose_matches_factorial_ratio() {
    for n in 0..=20i64 {
        for r in 0..=n {
            assert_eq!(nCr(n, r), naive_nCr(n, r));
        }
    }
    assert_eq!(naive_nCr(20, 10), 184756);
}

#[test]
fn choose_edges() {
    assert_eq!(nCr(0, 0), 1);
    assert_eq!(nCr(7, 0), 1);
    assert_eq!(nCr(7, 7), 1);
    assert_eq!(nCr(7, 1), 7);
    assert_eq!(nCr(60, 30), 118264581564861424);
}

#[test]
fn test_main() {
    assert_eq!(nCr(1, 1), 1);
}
