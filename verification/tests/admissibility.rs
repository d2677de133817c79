use prc::admissibility::{
    detect_circulation_cancellation, pre_check, summarize_record, AdmissibilityFinding, EvaluationReadings,
    FailureMode,
};
use prc::kernel::RhoPClass;
use prc::node_field::ObservationClass;
use prc::topology::{
    fixture_f10_closure_removed, fixture_f2_chain3, fixture_f3_closed_relational_3,
    DeclaredRelations, TopologyLabel,
};

#[test]
fn g5_failure_mode_never_circulation_cancellation() {
    let fm1 = FailureMode::FM1NonFiniteInput;
    let fm2 = FailureMode::FM2NoEdges;
    assert_ne!(fm1, fm2);
}

#[test]
fn g12_f10_is_topological_change() {
    let rel_full = fixture_f3_closed_relational_3();
    let rel_removed = fixture_f10_closure_removed();
    assert_eq!(rel_full.propagation_capacity(), 3, "3LCT C_X must be 3");
    assert_eq!(rel_removed.propagation_capacity(), 1, "after removal C_X must be 1");
    assert_eq!(rel_full.n_edges(), 3);
    assert_eq!(rel_removed.n_edges(), 2);
}

#[test]
fn fm2_no_edges() {
    let rel = DeclaredRelations::from_edges(2, vec![], TopologyLabel::Pair);
    let field = [1.0f64, 2.0];
    let all_finite = field.iter().all(|v| v.is_finite());
    assert_eq!(pre_check(&rel, all_finite), Some(FailureMode::FM2NoEdges));
    // FM2 takes precedence over a non-finite field.
    assert_eq!(pre_check(&rel, false), Some(FailureMode::FM2NoEdges));
}

#[test]
fn fm1_nonfinite_input() {
    let rel = fixture_f2_chain3();
    let field = [1.0f64, f64::NAN, 2.0];
    let all_finite = field.iter().all(|v| v.is_finite());
    assert_eq!(pre_check(&rel, all_finite), Some(FailureMode::FM1NonFiniteInput));
    assert_eq!(pre_check(&rel, true), None);
}

#[test]
fn circulation_cancellation_needs_both_readings() {
    assert_eq!(
        detect_circulation_cancellation(true, true),
        Some(AdmissibilityFinding::CirculationCancellation)
    );
    assert_eq!(detect_circulation_cancellation(true, false), None);
    assert_eq!(detect_circulation_cancellation(false, true), None);
    assert_eq!(detect_circulation_cancellation(false, false), None);
}

#[test]
fn cycle_detected_does_not_prevent_evaluation() {
    let rel = fixture_f3_closed_relational_3();
    assert!(rel.has_undirected_cycle().has_cycle);
    assert_eq!(pre_check(&rel, true), None);
}

#[test]
fn record_on_failure_keeps_k_and_leaves_evaluation_empty() {
    // FM1 on the chain with a two-component field: k is the component count, not the node count.
    let rel = fixture_f2_chain3();
    let r = summarize_record(&rel, 2, ObservationClass::SimulatedInput, false, None);
    assert_eq!(r.k, 2);
    assert_eq!(r.n_nodes, 3);
    assert_eq!(r.n_edges, 2);
    assert_eq!(r.cx, 1);
    assert_eq!(r.topology_label, TopologyLabel::Chain3);
    assert!(!r.cycle_detected);
    assert_eq!(r.failure_mode, Some(FailureMode::FM1NonFiniteInput));
    assert_eq!(r.admissibility_finding, None);
    assert_eq!(r.rank_delta, None);
    assert_eq!(r.rank_sigma, None);
    assert_eq!(r.rho_p, None);
    assert_eq!(r.expression_condition, None);
    // FM2: no edges.
    let empty = DeclaredRelations::from_edges(2, vec![], TopologyLabel::Pair);
    let r = summarize_record(&empty, 1, ObservationClass::PhysicalMeasurement, true, None);
    assert_eq!(r.k, 1);
    assert_eq!(r.failure_mode, Some(FailureMode::FM2NoEdges));
    assert_eq!(r.observation_class, ObservationClass::PhysicalMeasurement);
}

#[test]
fn record_after_evaluation() {
    let readings = EvaluationReadings {
        rank_delta: 1,
        rank_sigma: 1,
        has_nonzero_antisym: true,
        delta_nonzero: true,
        sigma_all_zero: false,
    };
    let r = summarize_record(&fixture_f2_chain3(), 1, ObservationClass::SimulatedInput, true, Some(readings));
    assert_eq!(r.failure_mode, None);
    assert_eq!(r.admissibility_finding, None);
    assert_eq!(r.rank_delta, Some(1));
    assert_eq!(r.rank_sigma, Some(1));
    assert_eq!(r.rho_p, Some(RhoPClass::Determined));
    assert_eq!(r.expression_condition, Some(true));
    // The closed topology with Σ cancelled: a finding, not a failure; the cycle is only reported.
    let cancelled = EvaluationReadings {
        rank_delta: 1,
        rank_sigma: 0,
        has_nonzero_antisym: true,
        delta_nonzero: true,
        sigma_all_zero: true,
    };
    let r = summarize_record(&fixture_f3_closed_relational_3(), 1, ObservationClass::SimulatedInput, true, Some(cancelled));
    assert!(r.cycle_detected);
    assert_eq!(r.failure_mode, None);
    assert_eq!(r.admissibility_finding, Some(AdmissibilityFinding::CirculationCancellation));
    assert_eq!(r.rho_p, Some(RhoPClass::CeilingBounded));
    assert_eq!(r.expression_condition, Some(false));
    assert_eq!(r.cx, 3);
}
