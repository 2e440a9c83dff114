use representation_theory::murnaghan_nakayama::checked_symmetric_group_character;
use representation_theory::young::{factorial, symmetric_group_character, YoungDiagram, YoungTableau};

#[test]
fn empty_diagram() {
    let d = YoungDiagram::new(vec![]);
    assert_eq!(d.n(), 0);
    assert_eq!(d.num_rows(), 0);
    assert_eq!(d.conjugate().rows, Vec::<usize>::new());
    assert_eq!(d.hook_product(), 1);
    assert_eq!(d.dimension(), 1);
}

#[test]
fn num_rows_counts_rows() {
    assert_eq!(YoungDiagram::new(vec![4, 2, 2, 1]).num_rows(), 4);
}

#[test]
fn conjugate_of_a_row_is_a_column() {
    assert_eq!(YoungDiagram::new(vec![4]).conjugate().rows, vec![1, 1, 1, 1]);
    assert_eq!(YoungDiagram::new(vec![1, 1, 1]).conjugate().rows, vec![3]);
    assert_eq!(YoungDiagram::new(vec![5, 3, 3, 1]).conjugate().rows, vec![4, 3, 3, 1, 1]);
}

#[test]
fn conjugate_twice_gives_back_the_diagram() {
    for p in YoungDiagram::partitions(6) {
        assert_eq!(p.conjugate().conjugate(), p);
        assert_eq!(p.conjugate().n(), p.n());
    }
}

#[test]
fn hook_lengths_of_3_2_1() {
    let d = YoungDiagram::new(vec![3, 2, 1]);
    assert_eq!(d.hook_length(0, 0), 5);
    assert_eq!(d.hook_length(0, 1), 3);
    assert_eq!(d.hook_length(0, 2), 1);
    assert_eq!(d.hook_length(1, 0), 3);
    assert_eq!(d.hook_length(1, 1), 1);
    assert_eq!(d.hook_length(2, 0), 1);
}

#[test]
fn dimensions_of_s4_irreducibles() {
    let dims: Vec<usize> = YoungDiagram::partitions(4).iter().map(|p| p.dimension()).collect();
    assert_eq!(dims, vec![1, 3, 2, 3, 1]);
}

#[test]
fn squares_of_dimensions_sum_to_n_factorial() {
    for n in 0..7 {
        let total: usize = YoungDiagram::partitions(n).iter().map(|p| p.dimension() * p.dimension()).sum();
        assert_eq!(total, factorial(n));
    }
}

#[test]
fn partitions_of_4_in_order() {
    let rows: Vec<Vec<usize>> = YoungDiagram::partitions(4).into_iter().map(|p| p.rows).collect();
    assert_eq!(rows, vec![vec![4], vec![3, 1], vec![2, 2], vec![2, 1, 1], vec![1, 1, 1, 1]]);
}

#[test]
fn partitions_of_0_is_the_empty_partition() {
    let parts = YoungDiagram::partitions(0);
    assert_eq!(parts.len(), 1);
    assert!(parts[0].rows.is_empty());
}

#[test]
fn partition_counts() {
    let counts: Vec<usize> = (1..9).map(|n| YoungDiagram::partitions(n).len()).collect();
    assert_eq!(counts, vec![1, 2, 3, 5, 7, 11, 15, 22]);
}

#[test]
fn factorial_values() {
    assert_eq!(factorial(0), 1);
    assert_eq!(factorial(1), 1);
    assert_eq!(factorial(5), 120);
    assert_eq!(factorial(10), 3628800);
}

#[test]
fn standard_tableaux_of_2_1_are_listed() {
    let d = YoungDiagram::new(vec![2, 1]);
    let entries: Vec<Vec<Vec<usize>>> =
        YoungTableau::standard_tableaux(&d).into_iter().map(|t| t.entries).collect();
    assert_eq!(entries, vec![vec![vec![1, 2], vec![3]], vec![vec![1, 3], vec![2]]]);
}

#[test]
fn number_of_standard_tableaux_is_the_dimension() {
    for n in 1..6 {
        for p in YoungDiagram::partitions(n) {
            let st = YoungTableau::standard_tableaux(&p);
            assert_eq!(st.len(), p.dimension());
            for t in &st {
                assert!(t.is_standard());
                assert_eq!(t.diagram, p);
            }
        }
    }
}

#[test]
fn standard_tableaux_of_empty_shape() {
    let st = YoungTableau::standard_tableaux(&YoungDiagram::new(vec![]));
    assert_eq!(st.len(), 1);
    assert!(st[0].entries.is_empty());
}

#[test]
fn column_violation_is_not_standard() {
    let d = YoungDiagram::new(vec![2, 2]);
    assert!(YoungTableau::new(d.clone(), vec![vec![1, 2], vec![3, 4]]).is_standard());
    assert!(YoungTableau::new(d.clone(), vec![vec![1, 3], vec![2, 4]]).is_standard());
    assert!(!YoungTableau::new(d, vec![vec![1, 4], vec![2, 3]]).is_standard());
}

#[test]
fn repeated_or_out_of_range_entries_are_not_standard() {
    let d = YoungDiagram::new(vec![2, 1]);
    assert!(!YoungTableau::new(d.clone(), vec![vec![1, 1], vec![3]]).is_standard());
    assert!(!YoungTableau::new(d.clone(), vec![vec![0, 2], vec![3]]).is_standard());
    assert!(!YoungTableau::new(d, vec![vec![1, 2], vec![4]]).is_standard());
}

#[test]
fn characters_of_s4() {
    // Rows: partitions [4], [3,1], [2,2], [2,1,1], [1,1,1,1];
    // columns: cycle types [1,1,1,1], [2,1,1], [2,2], [3,1], [4].
    let classes: Vec<Vec<usize>> = vec![vec![1, 1, 1, 1], vec![2, 1, 1], vec![2, 2], vec![3, 1], vec![4]];
    let expected: Vec<Vec<i64>> = vec![
        vec![1, 1, 1, 1, 1],
        vec![3, 1, -1, 0, -1],
        vec![2, 0, 2, -1, 0],
        vec![3, -1, -1, 0, 1],
        vec![1, -1, 1, 1, -1],
    ];
    let parts = YoungDiagram::partitions(4);
    for (p, row) in parts.iter().zip(&expected) {
        let chars: Vec<i64> = classes.iter().map(|c| symmetric_group_character(&p.rows, c)).collect();
        assert_eq!(&chars, row);
    }
}

#[test]
fn character_at_identity_is_the_dimension() {
    for n in 1..7 {
        let ones = vec![1usize; n];
        for p in YoungDiagram::partitions(n) {
            assert_eq!(symmetric_group_character(&p.rows, &ones), p.dimension() as i64);
        }
    }
}

#[test]
fn character_of_mismatched_sizes_is_zero() {
    assert_eq!(symmetric_group_character(&[3], &[2]), 0);
    assert_eq!(symmetric_group_character(&[2, 1], &[1, 1, 1, 1]), 0);
}

#[test]
fn character_of_the_empty_partition() {
    assert_eq!(symmetric_group_character(&[], &[]), 1);
}

#[test]
fn character_of_s5_standard_on_a_five_cycle() {
    assert_eq!(symmetric_group_character(&[4, 1], &[5]), -1);
    assert_eq!(symmetric_group_character(&[3, 2], &[5]), 0);
    assert_eq!(symmetric_group_character(&[3, 1, 1], &[5]), 1);
}

#[test]
fn partitions_are_listed_once_each() {
    for n in 0..9 {
        let rows: Vec<Vec<usize>> = YoungDiagram::partitions(n).into_iter().map(|p| p.rows).collect();
        for a in 0..rows.len() {
            for b in (a + 1)..rows.len() {
                assert_ne!(rows[a], rows[b]);
            }
            assert_eq!(rows[a].iter().sum::<usize>(), n);
        }
    }
}

/// The cell holding `v`, in row-major order.
fn position(entries: &[Vec<usize>], v: usize) -> (usize, usize) {
    for (i, row) in entries.iter().enumerate() {
        for (j, &x) in row.iter().enumerate() {
            if x == v {
                return (i, j);
            }
        }
    }
    panic!("value {} is missing", v);
}

#[test]
fn standard_tableaux_come_in_order_of_where_values_sit() {
    let d = YoungDiagram::new(vec![3, 2]);
    let st = YoungTableau::standard_tableaux(&d);
    assert_eq!(st.len(), 5);
    for k in 1..st.len() {
        let before: Vec<(usize, usize)> = (1..=5).map(|v| position(&st[k - 1].entries, v)).collect();
        let after: Vec<(usize, usize)> = (1..=5).map(|v| position(&st[k].entries, v)).collect();
        assert!(before < after);
    }
    assert_eq!(st[0].entries, vec![vec![1, 2, 3], vec![4, 5]]);
    assert_eq!(st[4].entries, vec![vec![1, 3, 5], vec![2, 4]]);
}

#[test]
fn trivial_and_sign_characters_on_every_cycle_type_of_5() {
    for mu in YoungDiagram::partitions(5) {
        let cycles = mu.rows.len() as i64;
        assert_eq!(symmetric_group_character(&[5], &mu.rows), 1);
        let sign = if (5 - cycles) % 2 == 0 { 1 } else { -1 };
        assert_eq!(symmetric_group_character(&[1, 1, 1, 1, 1], &mu.rows), sign);
    }
}

#[test]
fn characters_of_2_2_need_the_vertical_domino() {
    // Both dominoes of [2, 2] are border strips: the horizontal one leaves [2], the vertical
    // one (leg 1) leaves [1, 1].
    assert_eq!(symmetric_group_character(&[2, 2], &[2, 2]), 2);
    assert_eq!(symmetric_group_character(&[2, 2], &[2, 1, 1]), 0);
}

#[test]
fn character_at_identity_counts_standard_tableaux() {
    for n in 1..7 {
        let ones = vec![1usize; n];
        for p in YoungDiagram::partitions(n) {
            let count = YoungTableau::standard_tableaux(&p).len() as i64;
            assert_eq!(symmetric_group_character(&p.rows, &ones), count);
        }
    }
}

#[test]
fn fewer_rows_of_entries_than_the_diagram_is_not_standard() {
    let t = YoungTableau { diagram: YoungDiagram::new(vec![2]), entries: vec![] };
    assert!(!t.is_standard());
    let t = YoungTableau { diagram: YoungDiagram::new(vec![1, 1]), entries: vec![vec![1, 2]] };
    assert!(!t.is_standard());
}

#[test]
fn checked_character_agrees_with_the_rule() {
    assert_eq!(checked_symmetric_group_character(&[2, 1], &[3]), Some(-1));
    assert_eq!(checked_symmetric_group_character(&[2, 1], &[1, 1, 1]), Some(2));
    assert_eq!(checked_symmetric_group_character(&[2, 2], &[2, 2]), Some(2));
    assert_eq!(checked_symmetric_group_character(&[3], &[2, 1]), Some(1));
    assert_eq!(checked_symmetric_group_character(&[], &[]), Some(1));
    for p in YoungDiagram::partitions(5) {
        for c in YoungDiagram::partitions(5) {
            assert_eq!(
                checked_symmetric_group_character(&p.rows, &c.rows),
                Some(symmetric_group_character(&p.rows, &c.rows))
            );
        }
    }
}

#[test]
fn checked_character_of_different_sizes_is_zero() {
    assert_eq!(checked_symmetric_group_character(&[2], &[1]), Some(0));
    assert_eq!(checked_symmetric_group_character(&[], &[1]), Some(0));
}

#[test]
fn checked_character_refuses_sizes_beyond_usize() {
    assert_eq!(checked_symmetric_group_character(&[usize::MAX, 1], &[1]), None);
    assert_eq!(checked_symmetric_group_character(&[1], &[usize::MAX, 2]), None);
}
