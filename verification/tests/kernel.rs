use prc::kernel::{
    classify_rho_p, detect_failure_mode, expression_condition, incident_edges, FailureMode,
    RhoPClass, RhoPUndefined,
};
use prc::node_field::node_field_shape;
use prc::topology::{
    fixture_f1_pair, fixture_f2_chain3, fixture_f3_closed_relational_3, fixture_f5_branch,
    fixture_f7_diamond, DeclaredRelations, TopologyLabel,
};

/// Number of components of a field given by its component rows.
fn components_of(field: &[Vec<f64>]) -> usize {
    let lengths: Vec<usize> = field.iter().map(|c| c.len()).collect();
    node_field_shape(&lengths).expect("admissible field").0
}

#[test]
fn g6_rho_p_pair_undefined() {
    let rel = fixture_f1_pair();
    let k = components_of(&[vec![1.0, 2.0]]);
    assert_eq!(classify_rho_p(&rel, k), RhoPClass::Undefined(RhoPUndefined::NoPropagationCapacity));
}

#[test]
fn g6_rho_p_chain3_k1_determined() {
    // k = 1, C_X = 1: ceiling 1.0, Determined.
    let rel = fixture_f2_chain3();
    let k = components_of(&[vec![1.0, 2.0, 3.0]]);
    assert_eq!(classify_rho_p(&rel, k), RhoPClass::Determined);
}

#[test]
fn g6_rho_p_3lct_k1_ceiling_bounded() {
    // k = 1, C_X = 3: ceiling 1/3, CeilingBounded.
    let rel = fixture_f3_closed_relational_3();
    let k = components_of(&[vec![1.0, 2.0, 3.0]]);
    assert_eq!(classify_rho_p(&rel, k), RhoPClass::CeilingBounded);
}

#[test]
fn g6_rho_p_3lct_k3_determined() {
    // k = 3, C_X = 3: ceiling 1.0, Determined.
    let rel = fixture_f3_closed_relational_3();
    let k = components_of(&[vec![1.0, 2.0, 3.0], vec![4.0, 1.0, 2.0], vec![3.0, 5.0, 1.0]]);
    assert_eq!(classify_rho_p(&rel, k), RhoPClass::Determined);
}

#[test]
fn fm1_differentiation_collapse() {
    // Field (5, 5, 5) on the chain: Δ = (0, 0), so rank(Im Δ) = 0.
    let rel = fixture_f2_chain3();
    assert_eq!(detect_failure_mode(0, &rel), Some(FailureMode::DifferentiationCollapse));
}

#[test]
fn fm2_relational_isolation() {
    // Field (1, 2) on the pair: Δ = (1), rank 1; adj_plus[e0] and adj_minus[e0] are empty.
    let rel = fixture_f1_pair();
    assert_eq!(detect_failure_mode(1, &rel), Some(FailureMode::RelationalIsolation));
}

#[test]
fn rho_p_3lct_ceiling_bounded_below_three_components() {
    let rel = fixture_f3_closed_relational_3();
    assert_eq!(classify_rho_p(&rel, 1), RhoPClass::CeilingBounded);
    assert_eq!(classify_rho_p(&rel, 2), RhoPClass::CeilingBounded);
    assert_eq!(classify_rho_p(&rel, 3), RhoPClass::Determined);
    assert_eq!(classify_rho_p(&rel, 4), RhoPClass::Determined);
}

#[test]
fn rho_p_no_components_undefined() {
    assert_eq!(
        classify_rho_p(&fixture_f2_chain3(), 0),
        RhoPClass::Undefined(RhoPUndefined::NoDeclaredComponents)
    );
    // Missing capacity is reported first.
    assert_eq!(
        classify_rho_p(&fixture_f1_pair(), 0),
        RhoPClass::Undefined(RhoPUndefined::NoPropagationCapacity)
    );
}

#[test]
fn failure_mode_isolation_cases() {
    // Collapse is reported before isolation.
    assert_eq!(detect_failure_mode(0, &fixture_f1_pair()), Some(FailureMode::DifferentiationCollapse));
    assert_eq!(detect_failure_mode(1, &fixture_f2_chain3()), None);
    // Two disjoint edges are both isolated.
    let disjoint = DeclaredRelations::from_edges(4, vec![(0, 1), (2, 3)], TopologyLabel::Custom("disjoint".to_string()));
    assert_eq!(detect_failure_mode(2, &disjoint), Some(FailureMode::RelationalIsolation));
    // Convergent pair A→C, B→C: nothing leaves C, nothing enters A or B.
    let converge = DeclaredRelations::from_edges(3, vec![(0, 2), (1, 2)], TopologyLabel::Custom("v".to_string()));
    assert_eq!(detect_failure_mode(1, &converge), Some(FailureMode::RelationalIsolation));
}

#[test]
fn expression_condition_combines() {
    assert_eq!(expression_condition(1, true), (true, 1, true));
    assert_eq!(expression_condition(1, false), (false, 1, false));
    assert_eq!(expression_condition(0, true), (false, 0, true));
}

#[test]
fn incident_edges_per_locus() {
    assert_eq!(incident_edges(&fixture_f2_chain3()), vec![vec![0], vec![0, 1], vec![1]]);
    assert_eq!(incident_edges(&fixture_f5_branch()), vec![vec![0], vec![0, 1, 2], vec![1], vec![2]]);
    assert_eq!(incident_edges(&fixture_f7_diamond()), vec![vec![0, 1], vec![0, 2], vec![1, 3], vec![2, 3]]);
    let self_loop = DeclaredRelations::from_edges(1, vec![(0, 0)], TopologyLabel::Custom("loop".to_string()));
    assert_eq!(incident_edges(&self_loop), vec![vec![0, 0]]);
}

#[test]
fn isolation_leaves_rho_p_undefined() {
    let disjoint = DeclaredRelations::from_edges(4, vec![(0, 1), (2, 3)], TopologyLabel::Custom("disjoint".to_string()));
    for rel in [fixture_f1_pair(), disjoint] {
        assert_eq!(detect_failure_mode(1, &rel), Some(FailureMode::RelationalIsolation));
        assert_eq!(rel.propagation_capacity(), 0);
        for k in 0..4 {
            assert_eq!(classify_rho_p(&rel, k), RhoPClass::Undefined(RhoPUndefined::NoPropagationCapacity));
        }
    }
}
