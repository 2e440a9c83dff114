use representation_theory::group::FiniteGroup;
use representation_theory::induced::SubgroupEmbedding;

#[test]
fn embedding_order_is_its_length() {
    let e = SubgroupEmbedding::new(vec![0, 1]);
    assert_eq!(e.order(), 2);
    assert_eq!(e.embedding, vec![0, 1]);
    assert_eq!(SubgroupEmbedding::new(vec![]).order(), 0);
}

#[test]
fn position_finds_the_first_occurrence() {
    let e = SubgroupEmbedding::new(vec![0, 4, 5, 4]);
    assert_eq!(e.position(0), Some(0));
    assert_eq!(e.position(4), Some(1));
    assert_eq!(e.position(5), Some(2));
    assert_eq!(e.position(1), None);
}

#[test]
fn conjugate_positions_in_s3_over_a_transposition_subgroup() {
    let s3 = FiniteGroup::s3();
    let e = SubgroupEmbedding::new(vec![0, 1]);
    let hits = e.conjugate_positions(&s3);
    assert_eq!(hits.len(), 6);
    // Every conjugate of the identity is the identity, subgroup index 0.
    assert_eq!(hits[0], vec![0, 0, 0, 0, 0, 0]);
    // (12) is conjugated to itself only by e and (12).
    assert_eq!(hits[1], vec![1, 1]);
    assert_eq!(hits[2], vec![1, 1]);
    assert_eq!(hits[3], vec![1, 1]);
    // No 3-cycle is conjugate into {e, (12)}.
    assert!(hits[4].is_empty());
    assert!(hits[5].is_empty());
}

#[test]
fn induced_trivial_character_at_identity_is_the_index() {
    // Ind from {e, (12)} of the trivial character: |hits| / |H| at each element.
    let s3 = FiniteGroup::s3();
    let e = SubgroupEmbedding::new(vec![0, 1]);
    let hits = e.conjugate_positions(&s3);
    let values: Vec<usize> = hits.iter().map(|h| h.len() / e.order()).collect();
    assert_eq!(values, vec![3, 1, 1, 1, 0, 0]);
}

#[test]
fn conjugate_positions_in_an_abelian_group() {
    let z4 = FiniteGroup::cyclic(4);
    let e = SubgroupEmbedding::new(vec![0, 2]);
    let hits = e.conjugate_positions(&z4);
    assert_eq!(hits[0], vec![0, 0, 0, 0]);
    assert_eq!(hits[2], vec![1, 1, 1, 1]);
    assert!(hits[1].is_empty());
    assert!(hits[3].is_empty());
}

#[test]
fn induced_blocks_of_the_identity_are_diagonal() {
    let s3 = FiniteGroup::s3();
    let e = SubgroupEmbedding::new(vec![0, 1]);
    // Left cosets of {e, (12)}: {e, (12)}, {(13), (132)}, {(23), (123)}.
    let reps = [0usize, 2, 3];
    let blocks = e.induced_blocks(&s3, &reps);
    assert_eq!(blocks.len(), 6);
    assert_eq!(blocks[0], vec![Some((0, 0)), Some((1, 0)), Some((2, 0))]);
    // (12) fixes the first coset and swaps the other two.
    assert_eq!(blocks[1], vec![Some((0, 1)), Some((2, 1)), Some((1, 1))]);
    for row in &blocks {
        assert_eq!(row.len(), 3);
        assert!(row.iter().all(|b| b.is_some()));
    }
}

#[test]
fn induced_blocks_without_representatives() {
    let s3 = FiniteGroup::s3();
    let e = SubgroupEmbedding::new(vec![0, 1]);
    let blocks = e.induced_blocks(&s3, &[]);
    assert_eq!(blocks.len(), 6);
    assert!(blocks.iter().all(|row| row.is_empty()));
}

#[test]
fn induced_blocks_missing_the_subgroup() {
    // With the subgroup {e, (12)} but a single representative, a 3-cycle moves it off its coset.
    let s3 = FiniteGroup::s3();
    let e = SubgroupEmbedding::new(vec![0, 1]);
    let blocks = e.induced_blocks(&s3, &[0]);
    assert_eq!(blocks[4], vec![None]);
    assert_eq!(blocks[1], vec![Some((0, 1))]);
}

#[test]
fn label_conjugate_positions_match_labels() {
    let s3 = FiniteGroup::s3();
    // The subgroup {e, (12)} as a group of its own, with the same labels.
    let sub = FiniteGroup::new(vec!["e".to_string(), "(12)".to_string()], vec![vec![0, 1], vec![1, 0]]);
    let hits = representation_theory::induced::label_conjugate_positions(&sub, &s3);
    assert_eq!(hits.len(), 6);
    assert_eq!(hits[0], vec![0, 0, 0, 0, 0, 0]);
    assert_eq!(hits[1], vec![1, 1]);
    assert!(hits[4].is_empty());
}

#[test]
fn label_conjugate_positions_with_foreign_labels() {
    let s3 = FiniteGroup::s3();
    let z2 = FiniteGroup::cyclic(2);
    let hits = representation_theory::induced::label_conjugate_positions(&z2, &s3);
    assert!(hits.iter().all(|h| h.is_empty()));
}
