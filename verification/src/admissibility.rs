//! Admissibility of a single Primary evaluation.
//!
//! Two strictly separate outcomes: an operator-level failure (FM1, FM2),
//! decided before evaluation, and an admissibility finding
//! (circulation cancellation), produced only by an evaluation. A
//! circulation cancellation is never a failure mode and never a prohibition
//! on a topology.

use vstd::prelude::*;
use crate::cycle::has_undirected_cycle_spec;
use crate::kernel::{classify_rho_p, expression_condition, rho_p_class_spec, RhoPClass};
use crate::node_field::ObservationClass;
use crate::topology::{capacity, copy_label, DeclaredRelations, TopologyLabel};

verus! {

/// Operator-level failure modes decided before evaluation.
#[derive(Clone, Copy, Debug, PartialEq, Eq, Structural)]
pub enum FailureMode {
    /// The node field holds a non-finite value.
    FM1NonFiniteInput,
    /// No declared edges: nothing to evaluate.
    FM2NoEdges,
}

/// Finding produced by an evaluation, never inferred from topology.
#[derive(Clone, Copy, Debug, PartialEq, Eq, Structural)]
pub enum AdmissibilityFinding {
    /// Σ vanishes on every edge although Δ does not.
    CirculationCancellation,
}

/// The pre-evaluation failure for a declaration with `n_edges` edges and a
/// field whose values are all finite exactly when `all_finite`.
pub open spec fn pre_check_spec(n_edges: int, all_finite: bool) -> Option<FailureMode> {
    if n_edges == 0 {
        Some(FailureMode::FM2NoEdges)
    } else if !all_finite {
        Some(FailureMode::FM1NonFiniteInput)
    } else {
        None
    }
}

/// Pre-evaluation check: FM2 when there are no edges, otherwise FM1 when
/// the field holds a non-finite value (its finiteness is read by the caller).
pub fn pre_check(rel: &DeclaredRelations, all_finite: bool) -> (r: Option<FailureMode>)
    ensures
        r == pre_check_spec(rel.edges@.len() as int, all_finite),
{
    if rel.n_edges() == 0 {
        return Some(FailureMode::FM2NoEdges);
    }
    if !all_finite {
        return Some(FailureMode::FM1NonFiniteInput);
    }
    None
}

/// Circulation cancellation: Δ is nonzero somewhere (above tolerance) while
/// Σ is zero everywhere (within tolerance); both readings come from the
/// evaluation.
pub fn detect_circulation_cancellation(delta_nonzero: bool, sigma_all_zero: bool) -> (r: Option<
    AdmissibilityFinding,
>)
    ensures
        r == (if delta_nonzero && sigma_all_zero {
            Some(AdmissibilityFinding::CirculationCancellation)
        } else {
            None
        }),
{
    if delta_nonzero && sigma_all_zero {
        Some(AdmissibilityFinding::CirculationCancellation)
    } else {
        None
    }
}

/// The integer readings of a completed evaluation, taken by the caller
/// from the real-valued Δ, Σ and antisymmetric fields.
#[derive(Clone, Copy, Debug, PartialEq, Eq, Structural)]
pub struct EvaluationReadings {
    /// rank(Im Δ).
    pub rank_delta: usize,
    /// rank(Im Σ).
    pub rank_sigma: usize,
    /// The antisymmetric term is nonzero on at least one edge.
    pub has_nonzero_antisym: bool,
    /// Δ is nonzero somewhere (above tolerance).
    pub delta_nonzero: bool,
    /// Σ is zero everywhere (within tolerance).
    pub sigma_all_zero: bool,
}

/// The integer part of the record of one evaluation. The failure mode and
/// the admissibility finding are separate fields and never merged; `k` is
/// the number of components of the evaluated field.
#[derive(Clone, Debug)]
pub struct RecordSummary {
    pub topology_label: TopologyLabel,
    pub n_nodes: usize,
    pub n_edges: usize,
    pub cx: usize,
    pub k: usize,
    pub observation_class: ObservationClass,
    /// Detection only, never a rejection.
    pub cycle_detected: bool,
    /// FM1 or FM2; `None` when the evaluation ran.
    pub failure_mode: Option<FailureMode>,
    /// Produced only by an evaluation.
    pub admissibility_finding: Option<AdmissibilityFinding>,
    pub rank_delta: Option<usize>,
    pub rank_sigma: Option<usize>,
    pub rho_p: Option<RhoPClass>,
    pub expression_condition: Option<bool>,
}

/// The circulation-cancellation finding for the given readings.
pub open spec fn finding_spec(ev: EvaluationReadings) -> Option<AdmissibilityFinding> {
    if ev.delta_nonzero && ev.sigma_all_zero {
        Some(AdmissibilityFinding::CirculationCancellation)
    } else {
        None
    }
}

/// Builds the record of one evaluation: declare, detect cycles (report
/// only), pre-check, and, when the pre-check passes, record the readings
/// of the evaluation the caller ran. `eval` is present exactly when the
/// pre-check passes.
pub fn summarize_record(
    rel: &DeclaredRelations,
    n_components: usize,
    obs: ObservationClass,
    all_finite: bool,
    eval: Option<EvaluationReadings>,
) -> (r: RecordSummary)
    requires
        rel.wf(),
        (pre_check_spec(rel.edges@.len() as int, all_finite) is None) == (eval is Some),
    ensures
        r.topology_label == rel.label,
        r.n_nodes == rel.n_nodes,
        r.n_edges == rel.edges@.len(),
        r.cx == capacity(rel.edges@),
        r.k == n_components,
        r.observation_class == obs,
        r.cycle_detected == has_undirected_cycle_spec(rel.edges@),
        r.failure_mode == pre_check_spec(rel.edges@.len() as int, all_finite),
        r.failure_mode is Some ==> {
            &&& r.admissibility_finding is None
            &&& r.rank_delta is None
            &&& r.rank_sigma is None
            &&& r.rho_p is None
            &&& r.expression_condition is None
        },
        r.failure_mode is None ==> {
            let ev = eval->Some_0;
            &&& r.admissibility_finding == finding_spec(ev)
            &&& r.rank_delta == Some(ev.rank_delta)
            &&& r.rank_sigma == Some(ev.rank_sigma)
            &&& r.rho_p == Some(rho_p_class_spec(capacity(rel.edges@) as int, n_components as int))
            &&& r.expression_condition == Some(ev.rank_sigma > 0 && ev.has_nonzero_antisym)
        },
{
    let cycle = rel.has_undirected_cycle();
    let n_edges = rel.n_edges();
    let cx = rel.propagation_capacity();
    let topology_label = copy_label(&rel.label);
    let failure_mode = pre_check(rel, all_finite);
    match eval {
        Some(ev) if failure_mode.is_none() => {
            let (expressed, _, _) = expression_condition(ev.rank_sigma, ev.has_nonzero_antisym);
            RecordSummary {
                topology_label,
                n_nodes: rel.n_nodes,
                n_edges,
                cx,
                k: n_components,
                observation_class: obs,
                cycle_detected: cycle.has_cycle,
                failure_mode: None,
                admissibility_finding: detect_circulation_cancellation(ev.delta_nonzero, ev.sigma_all_zero),
                rank_delta: Some(ev.rank_delta),
                rank_sigma: Some(ev.rank_sigma),
                rho_p: Some(classify_rho_p(rel, n_components)),
                expression_condition: Some(expressed),
            }
        },
        _ => RecordSummary {
            topology_label,
            n_nodes: rel.n_nodes,
            n_edges,
            cx,
            k: n_components,
            observation_class: obs,
            cycle_detected: cycle.has_cycle,
            failure_mode,
            admissibility_finding: None,
            rank_delta: None,
            rank_sigma: None,
            rho_p: None,
            expression_condition: None,
        },
    }
}

/// Cycle detection never prevents evaluation: the pre-check reads only the
/// number of edges and the finiteness of the field, so every declaration
/// with at least one edge and a finite field is evaluated (its record,
/// built by `summarize_record`, carries no failure mode), whatever cycles
/// it has.
pub proof fn law_cycle_never_blocks_evaluation(rel: DeclaredRelations)
    requires
        rel.wf(),
        rel.edges@.len() > 0,
    ensures
        pre_check_spec(rel.edges@.len() as int, true) is None,
{
}

/// A declaration without edges fails with FM2 whatever the field; one
/// with at least one edge fails with FM1 exactly when its field is not all
/// finite, and is evaluated otherwise.
pub proof fn law_pre_check_outcomes(n_edges: int, all_finite: bool)
    requires
        n_edges >= 0,
    ensures
        n_edges == 0 ==> pre_check_spec(n_edges, all_finite) == Some(FailureMode::FM2NoEdges),
        n_edges > 0 && !all_finite ==> pre_check_spec(n_edges, all_finite) == Some(
            FailureMode::FM1NonFiniteInput,
        ),
        n_edges > 0 && all_finite ==> pre_check_spec(n_edges, all_finite) is None,
{
}

/// A circulation cancellation is found exactly when Δ is nonzero somewhere
/// and Σ vanishes everywhere; any other readings give no finding.
pub proof fn law_circulation_cancellation_finding(ev: EvaluationReadings)
    ensures
        (finding_spec(ev) == Some(AdmissibilityFinding::CirculationCancellation)) <==> (ev.delta_nonzero
            && ev.sigma_all_zero),
        (finding_spec(ev) is None) <==> !(ev.delta_nonzero && ev.sigma_all_zero),
{
}

} // verus!
