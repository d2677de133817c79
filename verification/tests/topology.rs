use prc::topology::{
    fixture_f10_closure_removed, fixture_f1_pair, fixture_f2_chain3,
    fixture_f3_closed_relational_3, fixture_f4_chain4, fixture_f5_branch, fixture_f6_convergent,
    fixture_f7_diamond, fixture_f8_closed_relational_3_intervention,
    fixture_f9_chain3_intervention, DeclaredRelations, EdgeProvenance, TopologyLabel,
};

#[test]
fn g2_edge_provenance_three_variants_only() {
    let c = EdgeProvenance::Continuation;
    let k = EdgeProvenance::Coupling;
    let p = EdgeProvenance::Persistence;
    assert_ne!(c, k);
    assert_ne!(c, p);
    assert_ne!(k, p);
}

#[test]
fn g4_cycle_detection_only_does_not_reject() {
    let rel = fixture_f3_closed_relational_3();
    let report = rel.has_undirected_cycle();
    assert!(report.has_cycle, "3LCT must report cycle detected");
}

#[test]
fn cx_pair() {
    assert_eq!(fixture_f1_pair().propagation_capacity(), 0);
}

#[test]
fn cx_chain3() {
    assert_eq!(fixture_f2_chain3().propagation_capacity(), 1);
}

#[test]
fn cx_closed_relational_3() {
    assert_eq!(fixture_f3_closed_relational_3().propagation_capacity(), 3);
}

#[test]
fn cx_chain4() {
    assert_eq!(fixture_f4_chain4().propagation_capacity(), 2);
}

#[test]
fn cx_branch() {
    assert_eq!(fixture_f5_branch().propagation_capacity(), 1);
}

#[test]
fn cx_convergent() {
    assert_eq!(fixture_f6_convergent().propagation_capacity(), 2);
}

#[test]
fn cx_diamond() {
    assert_eq!(fixture_f7_diamond().propagation_capacity(), 2);
}

#[test]
fn f10_closure_removed_is_chain() {
    let full = fixture_f3_closed_relational_3();
    let removed = fixture_f10_closure_removed();
    assert_eq!(full.propagation_capacity(), 3);
    assert_eq!(removed.propagation_capacity(), 1);
}

#[test]
fn no_undirected_cycle_in_chain() {
    let report = fixture_f2_chain3().has_undirected_cycle();
    assert!(!report.has_cycle);
}

#[test]
fn no_reverse_method_on_declared_relations() {
    // The declared relations offer no reversal; this documents the constraint.
    let rel = fixture_f2_chain3();
    let _ = rel;
}

// ── Further cases ──────────────────────────────────────────────────────────

#[test]
fn adjacency_of_branch() {
    let rel = fixture_f5_branch();
    assert_eq!(rel.n_edges(), 3);
    assert_eq!(rel.out, vec![vec![0], vec![1, 2], vec![], vec![]]);
    assert_eq!(rel.inc, vec![vec![], vec![0], vec![1], vec![2]]);
    assert_eq!(rel.adj_plus, vec![vec![1, 2], vec![], vec![]]);
    assert_eq!(rel.adj_minus, vec![vec![], vec![0], vec![0]]);
}

#[test]
fn adjacency_of_closed_relational_3() {
    let rel = fixture_f3_closed_relational_3();
    assert_eq!(rel.adj_plus, vec![vec![1], vec![2], vec![0]]);
    assert_eq!(rel.adj_minus, vec![vec![2], vec![0], vec![1]]);
}

#[test]
fn cycle_reports_for_fixtures() {
    assert!(!fixture_f1_pair().has_undirected_cycle().has_cycle);
    assert!(!fixture_f4_chain4().has_undirected_cycle().has_cycle);
    assert!(!fixture_f5_branch().has_undirected_cycle().has_cycle);
    assert!(!fixture_f6_convergent().has_undirected_cycle().has_cycle);
    // A→B, A→C, B→D, C→D closes an undirected cycle A–B–D–C–A.
    assert!(fixture_f7_diamond().has_undirected_cycle().has_cycle);
    assert!(fixture_f8_closed_relational_3_intervention().has_undirected_cycle().has_cycle);
    assert!(!fixture_f9_chain3_intervention().has_undirected_cycle().has_cycle);
    assert!(!fixture_f10_closure_removed().has_undirected_cycle().has_cycle);
}

#[test]
fn cycle_report_notes() {
    let with = fixture_f3_closed_relational_3().has_undirected_cycle();
    assert_eq!(
        with.note,
        "Undirected cycle detected. Reported for admissibility classification. \
         Evaluation proceeds — see admissibility_finding in ExperimentRecord."
    );
    let without = fixture_f2_chain3().has_undirected_cycle();
    assert_eq!(without.note, "No undirected cycle detected.");
}

#[test]
fn parallel_edges_and_self_loops_are_cycles() {
    let parallel = DeclaredRelations::from_edges(2, vec![(0, 1), (1, 0)], TopologyLabel::Pair);
    assert!(parallel.has_undirected_cycle().has_cycle);
    let self_loop = DeclaredRelations::from_edges(1, vec![(0, 0)], TopologyLabel::Custom("loop".to_string()));
    assert!(self_loop.has_undirected_cycle().has_cycle);
    assert_eq!(self_loop.propagation_capacity(), 1);
}

#[test]
fn cycle_in_a_later_component() {
    // Component {0,1} is a tree; component {2,3,4} closes a triangle.
    let rel = DeclaredRelations::from_edges(
        5,
        vec![(0, 1), (2, 3), (3, 4), (4, 2)],
        TopologyLabel::Custom("two parts".to_string()),
    );
    assert!(rel.has_undirected_cycle().has_cycle);
    let forest = DeclaredRelations::from_edges(
        6,
        vec![(0, 1), (2, 3), (3, 4), (5, 3)],
        TopologyLabel::Custom("forest".to_string()),
    );
    assert!(!forest.has_undirected_cycle().has_cycle);
}

#[test]
fn empty_declaration() {
    let rel = DeclaredRelations::from_edges(2, vec![], TopologyLabel::Pair);
    assert_eq!(rel.n_edges(), 0);
    assert_eq!(rel.propagation_capacity(), 0);
    assert!(!rel.has_undirected_cycle().has_cycle);
}

#[test]
fn persistence_is_not_admissible_spatially() {
    assert!(!DeclaredRelations::is_admissible(2, &vec![(0, 1)], &vec![EdgeProvenance::Persistence]));
    assert!(DeclaredRelations::is_admissible(2, &vec![(0, 1)], &vec![EdgeProvenance::Coupling]));
    assert!(!DeclaredRelations::is_admissible(2, &vec![(0, 2)], &vec![EdgeProvenance::Coupling]));
    assert!(!DeclaredRelations::is_admissible(2, &vec![(0, 1)], &vec![]));
}

#[test]
fn coupling_provenance_kept() {
    let rel = DeclaredRelations::new(
        3,
        vec![(0, 1), (1, 2)],
        vec![EdgeProvenance::Coupling, EdgeProvenance::Continuation],
        TopologyLabel::Chain3,
    );
    assert_eq!(rel.provenance, vec![EdgeProvenance::Coupling, EdgeProvenance::Continuation]);
    assert_eq!(rel.propagation_capacity(), 1);
}

#[test]
fn labels_compare_by_variant_and_text() {
    assert_eq!(TopologyLabel::Chain3, TopologyLabel::Chain3);
    assert_ne!(TopologyLabel::Chain3, TopologyLabel::ClosedRelational3);
    assert_eq!(TopologyLabel::Custom("a".to_string()), TopologyLabel::Custom("a".to_string()));
    assert_ne!(TopologyLabel::Custom("a".to_string()), TopologyLabel::Custom("b".to_string()));
    assert_eq!(fixture_f8_closed_relational_3_intervention().label, TopologyLabel::ClosedRelational3);
}

#[test]
fn intervention_fixtures_share_topologies() {
    assert_eq!(fixture_f8_closed_relational_3_intervention().edges, fixture_f3_closed_relational_3().edges);
    assert_eq!(fixture_f9_chain3_intervention().edges, fixture_f2_chain3().edges);
    assert_eq!(fixture_f10_closure_removed().edges, vec![(0, 1), (1, 2)]);
}

#[test]
fn cycle_unchanged_by_reorder_and_flip() {
    let a = DeclaredRelations::from_edges(3, vec![(0, 1), (1, 2), (2, 0)], TopologyLabel::ClosedRelational3);
    let b = DeclaredRelations::from_edges(3, vec![(0, 2), (1, 0), (1, 2)], TopologyLabel::Custom("x".to_string()));
    assert!(a.has_undirected_cycle().has_cycle);
    assert!(b.has_undirected_cycle().has_cycle);
    let c = DeclaredRelations::from_edges(3, vec![(1, 2), (0, 1)], TopologyLabel::Chain3);
    let d = DeclaredRelations::from_edges(3, vec![(1, 0), (2, 1)], TopologyLabel::Chain3);
    assert!(!c.has_undirected_cycle().has_cycle);
    assert!(!d.has_undirected_cycle().has_cycle);
}

#[test]
fn added_edge_keeps_cycle_and_capacity_never_rises_on_removal() {
    let more = DeclaredRelations::from_edges(4, vec![(0, 1), (1, 2), (2, 0), (2, 3)], TopologyLabel::Custom("tail".to_string()));
    assert!(more.has_undirected_cycle().has_cycle);
    assert!(fixture_f10_closure_removed().propagation_capacity() <= fixture_f3_closed_relational_3().propagation_capacity());
    let reordered = DeclaredRelations::from_edges(3, vec![(2, 0), (0, 1), (1, 2)], TopologyLabel::ClosedRelational3);
    assert_eq!(reordered.propagation_capacity(), fixture_f3_closed_relational_3().propagation_capacity());
}
