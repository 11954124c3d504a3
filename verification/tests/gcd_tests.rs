use gcd::engine::{gcd, gcd_list};

#[test]
fn test_gcd() {
    assert_eq!(gcd(14, 15), 1);

    assert_eq!(gcd(2 * 3 * 5 * 11 * 17, 3 * 7 * 11 * 13 * 19), 3 * 11);
}

#[test]
fn test_gcd_commutes() {
    let pairs: Vec<(u64, u64)> = vec![(14, 15), (12, 18), (1, 1), (5610, 57057), (u64::MAX, 3)];
    for (a, b) in pairs {
        assert_eq!(gcd(a, b), gcd(b, a));
    }
}

#[test]
fn test_gcd_divides_both_and_is_greatest() {
    let g = gcd(36, 60);
    assert_eq!(g, 12);
    assert_eq!(36 % g, 0);
    assert_eq!(60 % g, 0);
    for d in (g + 1)..=36 {
        assert!(!(36 % d == 0 && 60 % d == 0));
    }
}

#[test]
fn test_gcd_of_equal_operands() {
    assert_eq!(gcd(1, 1), 1);
    assert_eq!(gcd(7, 7), 7);
    assert_eq!(gcd(5610, 5610), 5610);
    assert_eq!(gcd(u64::MAX, u64::MAX), u64::MAX);
}

#[test]
fn test_gcd_of_factored_pair() {
    assert_eq!(gcd(5610, 57057), 33);
}

#[test]
fn test_fold_left_to_right() {
    assert_eq!(gcd_list(&vec![6, 10, 15]), 1);
    assert_eq!(gcd_list(&vec![12, 18, 24]), 6);
    assert_eq!(gcd_list(&vec![5610, 57057]), 33);
}

#[test]
fn test_fold_order_independent() {
    let expected = gcd_list(&vec![6, 10, 15]);
    assert_eq!(gcd_list(&vec![6, 15, 10]), expected);
    assert_eq!(gcd_list(&vec![10, 6, 15]), expected);
    assert_eq!(gcd_list(&vec![10, 15, 6]), expected);
    assert_eq!(gcd_list(&vec![15, 6, 10]), expected);
    assert_eq!(gcd_list(&vec![15, 10, 6]), expected);
    assert_eq!(gcd_list(&vec![24, 36, 60]), gcd_list(&vec![60, 24, 36]));
}

#[test]
fn test_fold_of_single_number() {
    assert_eq!(gcd_list(&vec![7]), 7);
    assert_eq!(gcd_list(&vec![0]), 0);
}
