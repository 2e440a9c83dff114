use representation_theory::decomposition::{block_sequence, dimensions_add_up};
use representation_theory::tensor::{binomial, checked_binomial};

#[test]
fn binomial_values() {
    assert_eq!(binomial(5, 2), 10);
    assert_eq!(binomial(4, 0), 1);
    assert_eq!(binomial(4, 4), 1);
    assert_eq!(binomial(10, 7), 120);
    assert_eq!(binomial(0, 0), 1);
    assert_eq!(binomial(52, 5), 2598960);
}

#[test]
fn binomial_of_too_many_is_zero() {
    assert_eq!(binomial(3, 5), 0);
    assert_eq!(binomial(0, 1), 0);
}

#[test]
fn binomial_is_symmetric() {
    for n in 0..20 {
        for k in 0..=n {
            assert_eq!(binomial(n, k), binomial(n, n - k));
        }
    }
}

#[test]
fn binomial_satisfies_pascal() {
    for n in 1..25 {
        for k in 1..n {
            assert_eq!(binomial(n, k), binomial(n - 1, k - 1) + binomial(n - 1, k));
        }
    }
}

#[test]
fn symmetric_square_of_a_plane_has_dimension_three() {
    // Sym^2 of a 2-dimensional space: C(2 + 2 - 1, 2).
    assert_eq!(binomial(3, 2), 3);
}

#[test]
fn regular_representation_of_s3_adds_up() {
    // Regular representation of S3: trivial + sign + 2 * standard = 1 + 1 + 4 = 6.
    assert!(dimensions_add_up(&[1, 1, 2], &[1, 1, 2], 6));
    assert!(!dimensions_add_up(&[1, 1, 2], &[1, 1, 2], 5));
}

#[test]
fn dimensions_pair_up_as_far_as_both_go() {
    assert!(dimensions_add_up(&[2, 3], &[1], 2));
    assert!(dimensions_add_up(&[2], &[1, 5], 2));
    assert!(dimensions_add_up(&[], &[], 0));
    assert!(!dimensions_add_up(&[], &[], 1));
}

#[test]
fn dimensions_that_overflow_do_not_add_up() {
    assert!(!dimensions_add_up(&[usize::MAX, 2], &[2, 1], usize::MAX));
    assert!(!dimensions_add_up(&[usize::MAX, 1], &[1, 1], 0));
}

#[test]
fn block_sequence_repeats_each_irreducible() {
    assert_eq!(block_sequence(&[1, 0, 2]), vec![0, 2, 2]);
    assert_eq!(block_sequence(&[0, 0]), Vec::<usize>::new());
    assert_eq!(block_sequence(&[3]), vec![0, 0, 0]);
    assert_eq!(block_sequence(&[]), Vec::<usize>::new());
}

#[test]
fn checked_binomial_agrees_when_it_fits() {
    assert_eq!(checked_binomial(5, 2), Some(10));
    assert_eq!(checked_binomial(3, 5), Some(0));
    assert_eq!(checked_binomial(60, 30), Some(118264581564861424));
}

#[test]
fn checked_binomial_reports_overflow() {
    assert_eq!(checked_binomial(200, 100), None);
    assert_eq!(checked_binomial(usize::MAX, 2), None);
}
