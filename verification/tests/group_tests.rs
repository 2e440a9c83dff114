use representation_theory::group::{FiniteGroup, GroupDefect, GroupOps};

#[test]
fn cyclic_labels_are_g_and_the_index() {
    let g = FiniteGroup::cyclic(12);
    assert_eq!(g.elements[0], "g0");
    assert_eq!(g.elements[7], "g7");
    assert_eq!(g.elements[10], "g10");
    assert_eq!(g.elements[11], "g11");
}

#[test]
fn cyclic_multiplication_adds_mod_n() {
    let g = FiniteGroup::cyclic(5);
    assert_eq!(g.multiply(3, 4), 2);
    assert_eq!(g.multiply(0, 4), 4);
    assert_eq!(g.multiply(2, 3), 0);
    assert_eq!(g.table.len(), 5);
    for row in &g.table {
        assert_eq!(row.len(), 5);
    }
}

#[test]
fn cyclic_of_order_zero_is_empty() {
    let g = FiniteGroup::cyclic(0);
    assert_eq!(g.order(), 0);
    assert!(g.table.is_empty());
    assert!(g.conjugacy_classes().is_empty());
}

#[test]
fn trivial_group_has_one_class() {
    let g = FiniteGroup::cyclic(1);
    assert_eq!(g.identity(), 0);
    assert_eq!(g.inverse(0), 0);
    assert_eq!(g.conjugacy_classes(), vec![vec![0]]);
}

#[test]
fn s3_labels_and_products() {
    let s3 = FiniteGroup::s3();
    let labels: Vec<&str> = s3.elements.iter().map(|s| s.as_str()).collect();
    assert_eq!(labels, vec!["e", "(12)", "(13)", "(23)", "(123)", "(132)"]);
    assert_eq!(s3.multiply(1, 2), 4);
    assert_eq!(s3.multiply(4, 4), 5);
    assert_eq!(s3.multiply(4, 5), 0);
}

#[test]
fn s3_inverses() {
    let s3 = FiniteGroup::s3();
    assert_eq!(s3.inverse(0), 0);
    assert_eq!(s3.inverse(1), 1);
    assert_eq!(s3.inverse(2), 2);
    assert_eq!(s3.inverse(3), 3);
    assert_eq!(s3.inverse(4), 5);
    assert_eq!(s3.inverse(5), 4);
}

#[test]
fn s3_conjugacy_classes_in_order() {
    let s3 = FiniteGroup::s3();
    assert_eq!(s3.conjugacy_classes(), vec![vec![0], vec![1, 2, 3], vec![4, 5]]);
}

#[test]
fn klein_four_every_element_is_its_own_inverse() {
    let k4 = FiniteGroup::klein_four();
    let labels: Vec<&str> = k4.elements.iter().map(|s| s.as_str()).collect();
    assert_eq!(labels, vec!["e", "a", "b", "ab"]);
    for i in 0..4 {
        assert_eq!(k4.inverse(i), i);
        assert_eq!(k4.multiply(i, i), 0);
    }
    assert_eq!(k4.multiply(1, 2), 3);
    assert_eq!(k4.conjugacy_classes(), vec![vec![0], vec![1], vec![2], vec![3]]);
}

#[test]
fn abelian_groups_have_singleton_classes() {
    let z6 = FiniteGroup::cyclic(6);
    let classes = z6.conjugacy_classes();
    assert_eq!(classes.len(), 6);
    for (i, c) in classes.iter().enumerate() {
        assert_eq!(c, &vec![i]);
    }
}

#[test]
fn classes_partition_the_group() {
    let s3 = FiniteGroup::s3();
    let mut all: Vec<usize> = s3.conjugacy_classes().into_iter().flatten().collect();
    all.sort();
    assert_eq!(all, vec![0, 1, 2, 3, 4, 5]);
}

#[test]
fn new_keeps_elements_and_table() {
    let g = FiniteGroup::new(vec!["x".to_string(), "y".to_string()], vec![vec![0, 1], vec![1, 0]]);
    assert_eq!(g.order(), 2);
    assert_eq!(g.elements, vec!["x".to_string(), "y".to_string()]);
    assert_eq!(g.identity(), 0);
    assert_eq!(g.inverse(1), 1);
}

#[test]
fn identity_need_not_be_index_zero() {
    // Z/2 with the identity listed second.
    let g = FiniteGroup::new(vec!["a".to_string(), "e".to_string()], vec![vec![1, 0], vec![0, 1]]);
    assert_eq!(g.identity(), 1);
    assert_eq!(g.inverse(0), 0);
    assert_eq!(g.inverse(1), 1);
}

#[test]
fn group_ops_agrees_with_inherent_methods() {
    fn via_trait<G: GroupOps>(g: &G) -> (usize, usize, usize, usize, Vec<Vec<usize>>) {
        (g.order(), g.multiply(1, 2), g.identity(), g.inverse(4), g.conjugacy_classes())
    }
    let s3 = FiniteGroup::s3();
    let (order, product, identity, inverse, classes) = via_trait(&s3);
    assert_eq!(order, 6);
    assert_eq!(product, 4);
    assert_eq!(identity, 0);
    assert_eq!(inverse, 5);
    assert_eq!(classes, s3.conjugacy_classes());
}

#[test]
fn built_in_groups_pass_the_structure_check() {
    assert_eq!(FiniteGroup::s3().check_structure(), Ok(()));
    assert_eq!(FiniteGroup::klein_four().check_structure(), Ok(()));
    assert_eq!(FiniteGroup::cyclic(7).check_structure(), Ok(()));
}

#[test]
fn structure_check_reports_a_malformed_table() {
    let short_row = FiniteGroup::new(vec!["e".to_string(), "a".to_string()], vec![vec![0, 1], vec![1]]);
    assert_eq!(short_row.check_structure(), Err(GroupDefect::MalformedTable));
    let out_of_range = FiniteGroup::new(vec!["e".to_string(), "a".to_string()], vec![vec![0, 1], vec![1, 2]]);
    assert_eq!(out_of_range.check_structure(), Err(GroupDefect::MalformedTable));
}

#[test]
fn structure_check_reports_a_missing_identity() {
    let g = FiniteGroup::new(vec!["x".to_string(), "y".to_string()], vec![vec![1, 1], vec![1, 1]]);
    assert_eq!(g.check_structure(), Err(GroupDefect::NoIdentity));
}

#[test]
fn structure_check_reports_the_first_element_without_inverse() {
    // Multiplication table of {1, 0} under multiplication: 0 has no inverse.
    let g = FiniteGroup::new(vec!["1".to_string(), "0".to_string()], vec![vec![0, 1], vec![1, 1]]);
    assert_eq!(g.check_structure(), Err(GroupDefect::NoInverse(1)));
}

#[test]
fn class_sizes_and_representatives_of_s3() {
    let (sizes, reps) = FiniteGroup::s3().class_sizes_and_representatives();
    assert_eq!(sizes, vec![1, 3, 2]);
    assert_eq!(reps, vec![0, 1, 4]);
}

#[test]
fn class_sizes_of_an_abelian_group_are_one() {
    let (sizes, reps) = FiniteGroup::cyclic(5).class_sizes_and_representatives();
    assert_eq!(sizes, vec![1; 5]);
    assert_eq!(reps, vec![0, 1, 2, 3, 4]);
}

#[test]
fn label_index_finds_labels() {
    let s3 = FiniteGroup::s3();
    assert_eq!(s3.label_index(&"e".to_string()), Some(0));
    assert_eq!(s3.label_index(&"(123)".to_string()), Some(4));
    assert_eq!(s3.label_index(&"(1234)".to_string()), None);
    let z3 = FiniteGroup::cyclic(3);
    assert_eq!(z3.label_index(&"g2".to_string()), Some(2));
}

#[test]
fn label_index_takes_the_first_of_repeated_labels() {
    let g = FiniteGroup::new(vec!["a".to_string(), "a".to_string()], vec![vec![0, 1], vec![1, 0]]);
    assert_eq!(g.label_index(&"a".to_string()), Some(0));
}
