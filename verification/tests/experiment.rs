use prc::experiment::{
    closure_removal_plan, declared_values_k1, declared_values_k2, direction_gate,
    intervention_atlas_plan, k_matrix_plan, ProcessDirection,
};
use prc::topology::{
    fixture_f10_closure_removed, fixture_f3_closed_relational_3,
    fixture_f8_closed_relational_3_intervention, fixture_f9_chain3_intervention,
};

#[test]
fn g8_single_step_admitted() {
    assert_eq!(direction_gate(&ProcessDirection::SingleStep), Ok(()));
}

#[test]
fn g8_multi_step_blocked() {
    let err = direction_gate(&ProcessDirection::MultiStep { direction_basis: "test_direction".to_string() })
        .unwrap_err();
    assert!(err.contains("G8 ProcessDirection gate"));
    assert!(err.contains("direction_basis='test_direction' is present"));
    assert!(err.contains("Σ(Δ(x_r)) does not imply x_{r+1}."));
}

#[test]
fn declared_fields_k1_correct_values() {
    assert_eq!(declared_values_k1(2), vec![1, 2]);
    assert_eq!(declared_values_k1(3), vec![1, 2, 3]);
    assert_eq!(declared_values_k1(4), vec![1, 2, 3, 4]);
}

#[test]
fn declared_fields_k2_correct_values() {
    assert_eq!(declared_values_k2(2), (vec![1, 2], vec![2, 1]));
    assert_eq!(declared_values_k2(3), (vec![1, 2, 3], vec![2, 3, 1]));
    assert_eq!(declared_values_k2(4), (vec![1, 2, 3, 4], vec![2, 3, 4, 1]));
}

#[test]
fn k_matrix_plan_counts_and_order() {
    let plan = k_matrix_plan(3);
    assert_eq!(plan.len(), 6);
    assert_eq!(plan, vec![(1, 0), (1, 1), (1, 2), (2, 0), (2, 1), (2, 2)]);
}

#[test]
fn closure_removal_plan_pairs() {
    let plan = closure_removal_plan(&fixture_f3_closed_relational_3(), &fixture_f10_closure_removed(), 3);
    assert_eq!(plan.len(), 6);
    assert_eq!(plan[3], (2, 0));
}

#[test]
fn intervention_atlas_counts_and_order() {
    let plan = intervention_atlas_plan(
        &fixture_f8_closed_relational_3_intervention(),
        &fixture_f9_chain3_intervention(),
        3,
        4,
        3,
    );
    assert_eq!(plan.len(), 3 * 4 * 3);
    assert_eq!(plan[0], (0, 0, 0));
    assert_eq!(plan[1], (0, 0, 1));
    assert_eq!(plan[3], (0, 1, 0));
    assert_eq!(plan[12], (1, 0, 0));
    assert_eq!(plan[35], (2, 3, 2));
}

/// The declared ρ_base sweep has three values.
const RHO_BASE_SWEEP_LEN: usize = 3;

#[test]
fn g14_sweep_k_matrix_record_count() {
    let plan = k_matrix_plan(RHO_BASE_SWEEP_LEN);
    assert_eq!(plan.len(), 2 * RHO_BASE_SWEEP_LEN);
}

#[test]
fn g15_k_in_record_equals_n_components() {
    let plan = k_matrix_plan(RHO_BASE_SWEEP_LEN);
    let k1_components = 1;
    let (c0, c1) = declared_values_k2(3);
    let k2_components = [c0, c1].len();
    for entry in plan.iter().take(RHO_BASE_SWEEP_LEN) {
        assert_eq!(entry.0, k1_components);
    }
    for entry in plan.iter().skip(RHO_BASE_SWEEP_LEN) {
        assert_eq!(entry.0, k2_components);
    }
}

#[test]
fn intervention_atlas_record_count() {
    let nodes = [0usize, 1, 2];
    let deltas = [0.1f64, 0.5, 1.0, 2.0];
    let rho_base = [0.1f64, 0.3, 0.5];
    let plan = intervention_atlas_plan(
        &fixture_f8_closed_relational_3_intervention(),
        &fixture_f9_chain3_intervention(),
        nodes.len(),
        deltas.len(),
        rho_base.len(),
    );
    assert_eq!(plan.len(), 3 * 4 * 3);
}

#[test]
fn closure_removal_sweep_record_count() {
    let plan = closure_removal_plan(
        &fixture_f3_closed_relational_3(),
        &fixture_f10_closure_removed(),
        RHO_BASE_SWEEP_LEN,
    );
    assert_eq!(plan.len(), 2 * RHO_BASE_SWEEP_LEN);
}
