use representation_theory::agent_symmetry::{
    invariant_components, symmetry_analysis, AgentStateSpace, InvariantComponent, SubspaceKind,
};
use representation_theory::group::FiniteGroup;

fn space(num_agents: usize, local_dimension: usize) -> AgentStateSpace {
    AgentStateSpace { num_agents, local_dimension, description: "agents".to_string() }
}

#[test]
fn total_dimension_multiplies() {
    assert_eq!(space(4, 5).total_dimension(), 20);
    assert_eq!(space(0, 7).total_dimension(), 0);
}

#[test]
fn s3_acts_naturally_on_three_agents() {
    let s3 = FiniteGroup::s3();
    let table = space(3, 1).permutation_action(&s3);
    assert_eq!(
        table,
        vec![vec![0, 1, 2], vec![1, 0, 2], vec![2, 1, 0], vec![0, 2, 1], vec![2, 0, 1], vec![1, 2, 0]]
    );
    // Agents fixed by each element: the traces of the permutation matrices.
    let fixed: Vec<usize> = table.iter().map(|p| (0..3).filter(|&i| p[i] == i).count()).collect();
    assert_eq!(fixed, vec![3, 1, 1, 1, 0, 0]);
}

#[test]
fn s3_action_multiplies_as_the_table_does() {
    // e_i goes to e_{p[g][i]}, so the matrix of g * h is the matrix of g times that of h exactly
    // when p[g * h] is p[g] after p[h].
    let s3 = FiniteGroup::s3();
    let p = space(3, 1).permutation_action(&s3);
    for g in 0..6 {
        for h in 0..6 {
            let gh = s3.multiply(g, h);
            for i in 0..3 {
                assert_eq!(p[gh][i], p[g][p[h][i]]);
            }
        }
    }
}

#[test]
fn agents_beyond_the_points_named_stay() {
    let s3 = FiniteGroup::s3();
    let table = space(4, 1).permutation_action(&s3);
    assert_eq!(table[1], vec![1, 0, 2, 3]);
    assert_eq!(table[4], vec![2, 0, 1, 3]);
}

#[test]
fn labels_that_are_not_cycles_fix_every_agent() {
    let z3 = FiniteGroup::cyclic(3);
    for perm in space(3, 1).permutation_action(&z3) {
        assert_eq!(perm, vec![0, 1, 2]);
    }
    let k4 = FiniteGroup::klein_four();
    for perm in space(2, 1).permutation_action(&k4) {
        assert_eq!(perm, vec![0, 1]);
    }
}

#[test]
fn products_of_disjoint_cycles_act_on_each_cycle() {
    let labels = vec!["e".to_string(), "(12)(34)".to_string(), "(1)(3)".to_string(), "(11)".to_string()];
    let g = FiniteGroup::new(labels, vec![vec![0, 1, 2, 3], vec![1, 0, 3, 2], vec![2, 3, 0, 1], vec![3, 2, 1, 0]]);
    let table = space(4, 1).permutation_action(&g);
    assert_eq!(table[1], vec![1, 0, 3, 2]);
    assert_eq!(table[2], vec![0, 1, 2, 3]);
    // A point written twice is not cycle notation: every agent stays.
    assert_eq!(table[3], vec![0, 1, 2, 3]);
}

#[test]
fn symmetry_analysis_of_s3_on_three_agents() {
    let s3 = FiniteGroup::s3();
    let st = space(3, 1);
    let analysis = symmetry_analysis(&st, &s3, vec![3, 0, 0], &[1, 1, 2]);
    assert_eq!(analysis.symmetric_dimension, 3);
    assert!(analysis.has_nontrivial_symmetry);
    assert_eq!(analysis.multiplicities, vec![3, 0, 0]);
    assert_eq!(analysis.state_space.num_agents, 3);
    assert_eq!(analysis.state_space.description, "agents");
}

#[test]
fn symmetry_analysis_of_the_trivial_group() {
    let g = FiniteGroup::cyclic(1);
    let analysis = symmetry_analysis(&space(2, 2), &g, vec![2], &[1]);
    assert_eq!(analysis.symmetric_dimension, 2);
    assert!(!analysis.has_nontrivial_symmetry);
}

#[test]
fn symmetry_analysis_with_no_irreducibles() {
    let analysis = symmetry_analysis(&space(2, 2), &FiniteGroup::s3(), vec![], &[]);
    assert_eq!(analysis.symmetric_dimension, 0);
    let analysis = symmetry_analysis(&space(2, 2), &FiniteGroup::s3(), vec![4], &[]);
    assert_eq!(analysis.symmetric_dimension, 0);
}

#[test]
fn invariant_components_of_trivial_sign_standard() {
    let cs = invariant_components(&[1, 1, 1], &[1, 1, 2]);
    assert_eq!(cs.len(), 3);
    assert_eq!(
        cs[0],
        InvariantComponent {
            index: 0,
            multiplicity: 1,
            irrep_dimension: 1,
            dimension: 1,
            kind: SubspaceKind::Symmetric
        }
    );
    assert_eq!(cs[1].kind, SubspaceKind::OneDimensional);
    assert_eq!(cs[2].kind, SubspaceKind::HigherDimensional);
    let total: usize = cs.iter().map(|c| c.dimension).sum();
    assert_eq!(total, 4);
}

#[test]
fn invariant_components_skip_absent_irreducibles() {
    let cs = invariant_components(&[0, 2, 3], &[1, 1, 2]);
    assert_eq!(cs.len(), 2);
    assert_eq!(cs[0].index, 1);
    assert_eq!(cs[0].dimension, 2);
    assert_eq!(cs[1].index, 2);
    assert_eq!(cs[1].multiplicity, 3);
    assert_eq!(cs[1].dimension, 6);
}

#[test]
fn a_first_irreducible_of_higher_dimension_is_not_symmetric() {
    let cs = invariant_components(&[1], &[3]);
    assert_eq!(cs[0].kind, SubspaceKind::HigherDimensional);
    assert_eq!(cs[0].dimension, 3);
}
