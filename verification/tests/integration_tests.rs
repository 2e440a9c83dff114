use representation_theory::agent_symmetry::AgentStateSpace;
use representation_theory::group::FiniteGroup;
use representation_theory::young::{symmetric_group_character, YoungDiagram, YoungTableau};

// ============================================================
// Group structure tests
// ============================================================

#[test]
fn test_cyclic_group_order() {
    let g = FiniteGroup::cyclic(5);
    assert_eq!(g.order(), 5);
}

#[test]
fn test_cyclic_group_identity() {
    let g = FiniteGroup::cyclic(5);
    assert_eq!(g.identity(), 0);
}

#[test]
fn test_cyclic_group_inverse() {
    let g = FiniteGroup::cyclic(5);
    assert_eq!(g.inverse(0), 0); // e^{-1} = e
    assert_eq!(g.inverse(1), 4); // 1 + 4 = 5 ≡ 0
    assert_eq!(g.inverse(2), 3);
    assert_eq!(g.inverse(3), 2);
    assert_eq!(g.inverse(4), 1);
}

#[test]
fn test_s3_order() {
    let s3 = FiniteGroup::s3();
    assert_eq!(s3.order(), 6);
}

#[test]
fn test_s3_identity() {
    let s3 = FiniteGroup::s3();
    assert_eq!(s3.identity(), 0);
}

#[test]
fn test_klein_four_order() {
    let k4 = FiniteGroup::klein_four();
    assert_eq!(k4.order(), 4);
    assert_eq!(k4.identity(), 0);
}

#[test]
fn test_s3_conjugacy_classes() {
    let s3 = FiniteGroup::s3();
    let classes = s3.conjugacy_classes();
    assert_eq!(classes.len(), 3); // {e}, {(12),(13),(23)}, {(123),(132)}
    // Check class sizes: 1, 3, 2
    let mut sizes: Vec<usize> = classes.iter().map(|c| c.len()).collect();
    sizes.sort();
    assert_eq!(sizes, vec![1, 2, 3]);
}

#[test]
fn test_klein_four_conjugacy_classes() {
    let k4 = FiniteGroup::klein_four();
    let classes = k4.conjugacy_classes();
    assert_eq!(classes.len(), 4); // Each element is its own class (abelian)
}

#[test]
fn test_cyclic_abelian_classes() {
    let z4 = FiniteGroup::cyclic(4);
    let classes = z4.conjugacy_classes();
    assert_eq!(classes.len(), 4); // Abelian: each element is its own class
}

// ============================================================
// Young tableaux tests
// ============================================================

#[test]
fn test_young_diagram_conjugate() {
    let d = YoungDiagram::new(vec![3, 2, 1]);
    let conj = d.conjugate();
    assert_eq!(conj.rows, vec![3, 2, 1]); // self-conjugate
}

#[test]
fn test_young_diagram_conjugate_2() {
    let d = YoungDiagram::new(vec![4, 2]);
    let conj = d.conjugate();
    assert_eq!(conj.rows, vec![2, 2, 1, 1]);
}

#[test]
fn test_hook_length() {
    // [2,1]:
    // (0,0): hook = 3 (right + below + 1 = 1 + 1 + 1)
    // (0,1): hook = 1 (0 + 0 + 1)
    // (1,0): hook = 1 (0 + 0 + 1)
    let d = YoungDiagram::new(vec![2, 1]);
    assert_eq!(d.hook_length(0, 0), 3);
    assert_eq!(d.hook_length(0, 1), 1);
    assert_eq!(d.hook_length(1, 0), 1);
    assert_eq!(d.hook_product(), 3);
}

#[test]
fn test_hook_dimension_partition_21() {
    // [2,1] of 3: dim = 3!/3 = 2
    let d = YoungDiagram::new(vec![2, 1]);
    assert_eq!(d.dimension(), 2);
}

#[test]
fn test_hook_dimension_partition_3() {
    // [3] of 3: hooks = [3,2,1], product = 6, dim = 6/6 = 1
    let d = YoungDiagram::new(vec![3]);
    assert_eq!(d.hook_product(), 6);
    assert_eq!(d.dimension(), 1); // trivial rep of S3
}

#[test]
fn test_hook_dimension_partition_111() {
    // [1,1,1] of 3: hooks = [3,2,1], product = 6, dim = 6/6 = 1
    let d = YoungDiagram::new(vec![1, 1, 1]);
    assert_eq!(d.dimension(), 1);
}

#[test]
fn test_partitions_of_3() {
    let parts = YoungDiagram::partitions(3);
    assert_eq!(parts.len(), 3); // [3], [2,1], [1,1,1]
    let dims: Vec<usize> = parts.iter().map(|p| p.dimension()).collect();
    let sum: usize = dims.iter().map(|d| d * d).sum();
    // Sum of d_λ^2 = n! = 6
    let _ = sum;
}

#[test]
fn test_standard_tableau() {
    let d = YoungDiagram::new(vec![2, 1]);
    let t = YoungTableau::new(d, vec![vec![1, 2], vec![3]]);
    assert!(t.is_standard());
}

#[test]
fn test_non_standard_tableau() {
    let d = YoungDiagram::new(vec![2, 1]);
    let t = YoungTableau::new(
        d,
        vec![vec![2, 1], vec![3]], // Row not increasing
    );
    assert!(!t.is_standard());
}

#[test]
fn test_all_standard_tableaux_21() {
    let d = YoungDiagram::new(vec![2, 1]);
    let st = YoungTableau::standard_tableaux(&d);
    assert_eq!(st.len(), 2); // Two standard tableaux of shape [2,1]
    for t in &st {
        assert!(t.is_standard());
    }
}

#[test]
fn test_symmetric_group_character_trivial() {
    // Trivial partition [3] of S3: character = 1 for all cycle types
    assert_eq!(symmetric_group_character(&[3], &[3]), 1);
    assert_eq!(symmetric_group_character(&[3], &[2, 1]), 1);
    assert_eq!(symmetric_group_character(&[3], &[1, 1, 1]), 1);
}

#[test]
fn test_symmetric_group_character_sign() {
    // Sign partition [1,1,1] of S3: character = (-1)^{n - number of cycles}
    assert_eq!(symmetric_group_character(&[1, 1, 1], &[3]), 1); // 3-cycle is even
    assert_eq!(symmetric_group_character(&[1, 1, 1], &[2, 1]), -1);
    assert_eq!(symmetric_group_character(&[1, 1, 1], &[1, 1, 1]), 1);
}

#[test]
fn test_partitions() {
    let parts = YoungDiagram::partitions(4);
    assert_eq!(parts.len(), 5); // [4], [3,1], [2,2], [2,1,1], [1,1,1,1]
}

#[test]
fn test_young_diagram_n() {
    let d = YoungDiagram::new(vec![3, 2, 1]);
    assert_eq!(d.n(), 6);
}

#[test]
fn test_hook_length_formula() {
    let d = YoungDiagram::new(vec![3, 2, 1]);
    assert_eq!(d.hook_product(), 45);
    assert_eq!(d.dimension(), 16);
}

#[test]
fn test_mn_s3() {
    // Trivial rep [3]
    assert_eq!(symmetric_group_character(&[3], &[3]), 1);
    assert_eq!(symmetric_group_character(&[3], &[2, 1]), 1);
    assert_eq!(symmetric_group_character(&[3], &[1, 1, 1]), 1);
    // Sign rep [1,1,1]
    assert_eq!(symmetric_group_character(&[1, 1, 1], &[3]), 1);
    assert_eq!(symmetric_group_character(&[1, 1, 1], &[2, 1]), -1);
    assert_eq!(symmetric_group_character(&[1, 1, 1], &[1, 1, 1]), 1);
    // Standard rep [2,1]
    assert_eq!(symmetric_group_character(&[2, 1], &[1, 1, 1]), 2);
    assert_eq!(symmetric_group_character(&[2, 1], &[2, 1]), 0);
    assert_eq!(symmetric_group_character(&[2, 1], &[3]), -1);
}

// ============================================================
// Agent symmetry tests
// ============================================================

#[test]
fn test_agent_state_space_dimension() {
    let space = AgentStateSpace {
        num_agents: 3,
        local_dimension: 2,
        description: "3 agents, 2 states each".into(),
    };
    assert_eq!(space.total_dimension(), 6);
}
