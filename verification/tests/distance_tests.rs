//! The exact order on `units + diagonals * sqrt(2)` distances.

use flowfield::distance::dist_cmp_lt;
use flowfield::Distance;

fn d(units: u64, diagonals: u64) -> Distance {
    Distance { units, diagonals }
}

#[test]
fn componentwise_comparisons() {
    assert!(dist_cmp_lt(&d(0, 0), &d(1, 0)));
    assert!(dist_cmp_lt(&d(0, 0), &d(0, 1)));
    assert!(dist_cmp_lt(&d(2, 3), &d(2, 4)));
    assert!(dist_cmp_lt(&d(2, 3), &d(3, 3)));
    assert!(!dist_cmp_lt(&d(2, 3), &d(2, 3)));
    assert!(!dist_cmp_lt(&d(5, 1), &d(4, 1)));
}

#[test]
fn mixed_comparisons_are_exact() {
    // 2*sqrt(2) = 2.828... < 3
    assert!(dist_cmp_lt(&d(0, 2), &d(3, 0)));
    assert!(!dist_cmp_lt(&d(3, 0), &d(0, 2)));
    // 1 + sqrt(2) = 2.414... > 2
    assert!(dist_cmp_lt(&d(2, 0), &d(1, 1)));
    assert!(!dist_cmp_lt(&d(1, 1), &d(2, 0)));
    // 7 < 5*sqrt(2) = 7.071...
    assert!(dist_cmp_lt(&d(7, 0), &d(0, 5)));
    // 99 > 70*sqrt(2) = 98.994...
    assert!(dist_cmp_lt(&d(0, 70), &d(99, 0)));
    // 169*sqrt(2) = 239.002... > 239: a tight rational approximation
    assert!(dist_cmp_lt(&d(239, 0), &d(0, 169)));
    assert!(!dist_cmp_lt(&d(0, 169), &d(239, 0)));
}

#[test]
fn large_components_compare_without_overflow() {
    let big: u64 = 1 << 62;
    assert!(dist_cmp_lt(&d(big, 0), &d(0, big)));
    assert!(!dist_cmp_lt(&d(0, big), &d(big, 0)));
    assert!(dist_cmp_lt(&d(big - 1, 7), &d(big, 7)));
}
