//! Integer-valued decisions of the Primary kernel E_primary = Σ(Δ(x)):
//! the ρ_P classification, the operator-level failure modes, the
//! expression condition, and the loci incident to each edge over which ρ
//! takes its maximum. The floating-point operators that feed these
//! decisions (Δ, ρ, Σ, the antisymmetric term and the SVD rank) are
//! computed by the application crate.

use vstd::prelude::*;
use crate::topology::{
    DeclaredRelations, capacity, count_propagating, edges_entering, edges_leaving, lemma_edges_entering_members,
    lemma_edges_leaving_members, propagates, receives,
};

verus! {

/// Why ρ_P is undefined.
#[derive(Clone, Copy, Debug, PartialEq, Eq, Structural)]
pub enum RhoPUndefined {
    NoPropagationCapacity,
    NoDeclaredComponents,
}

/// ρ_P classification: `CeilingBounded` when the declaration ceiling
/// k / C_X lies below 1, `Determined` otherwise.
#[derive(Clone, Copy, Debug, PartialEq, Eq, Structural)]
pub enum RhoPClass {
    Determined,
    CeilingBounded,
    Undefined(RhoPUndefined),
}

/// The classification for propagation capacity `cx` and `k` components.
pub open spec fn rho_p_class_spec(cx: int, k: int) -> RhoPClass {
    if cx == 0 {
        RhoPClass::Undefined(RhoPUndefined::NoPropagationCapacity)
    } else if k == 0 {
        RhoPClass::Undefined(RhoPUndefined::NoDeclaredComponents)
    } else if k < cx {
        RhoPClass::CeilingBounded
    } else {
        RhoPClass::Determined
    }
}

/// Classifies ρ_P for a field of `n_components` components over `rel`.
/// The ceiling k / C_X is below 1 exactly when k < C_X.
pub fn classify_rho_p(rel: &DeclaredRelations, n_components: usize) -> (r: RhoPClass)
    requires
        rel.wf(),
    ensures
        r == rho_p_class_spec(capacity(rel.edges@) as int, n_components as int),
{
    let c_x = rel.propagation_capacity();
    if c_x == 0 {
        return RhoPClass::Undefined(RhoPUndefined::NoPropagationCapacity);
    }
    if n_components == 0 {
        return RhoPClass::Undefined(RhoPUndefined::NoDeclaredComponents);
    }
    if n_components < c_x {
        RhoPClass::CeilingBounded
    } else {
        RhoPClass::Determined
    }
}

/// Operator-level failure modes.
#[derive(Clone, Copy, Debug, PartialEq, Eq, Structural)]
pub enum FailureMode {
    /// rank(Im Δ) = 0.
    DifferentiationCollapse,
    /// Every edge is isolated: nothing leaves its target, nothing enters its source.
    RelationalIsolation,
}

/// Every declared edge is isolated.
pub open spec fn all_isolated(edges: Seq<(usize, usize)>) -> bool {
    forall|e: int| 0 <= e < edges.len() ==> !#[trigger] propagates(edges, e) && !receives(edges, e)
}

/// The failure mode for a Δ field of rank `rank_delta` over `rel`.
pub open spec fn failure_mode_spec(rank_delta: int, edges: Seq<(usize, usize)>) -> Option<FailureMode> {
    if rank_delta == 0 {
        Some(FailureMode::DifferentiationCollapse)
    } else if all_isolated(edges) {
        Some(FailureMode::RelationalIsolation)
    } else {
        None
    }
}

/// FM1 when rank(Im Δ) = 0 (the rank is computed from Δ by the caller),
/// otherwise FM2 when every edge is isolated, otherwise none.
pub fn detect_failure_mode(rank_delta: usize, rel: &DeclaredRelations) -> (r: Option<FailureMode>)
    requires
        rel.wf(),
    ensures
        r == failure_mode_spec(rank_delta as int, rel.edges@),
{
    if rank_delta == 0 {
        return Some(FailureMode::DifferentiationCollapse);
    }
    let m = rel.adj_plus.len();
    let mut all_isolated_so_far = true;
    let mut e: usize = 0;
    while e < m
        invariant
            rel.wf(),
            m == rel.edges@.len(),
            e <= m,
            all_isolated_so_far == forall|f: int|
                0 <= f < e ==> !#[trigger] propagates(rel.edges@, f) && !receives(rel.edges@, f),
        decreases m - e,
    {
        proof {
            let ed = rel.edges@;
            lemma_edges_leaving_members(ed, ed[e as int].1 as int);
            lemma_edges_entering_members(ed, ed[e as int].0 as int);
            let succ = edges_leaving(ed, ed[e as int].1 as int);
            let pred = edges_entering(ed, ed[e as int].0 as int);
            if propagates(ed, e as int) {
                let f = choose|f: int| 0 <= f < ed.len() && ed[f].0 == ed[e as int].1;
                assert(succ.contains(f as usize));
            }
            if succ.len() > 0 {
                assert(ed[succ[0] as int].0 == ed[e as int].1);
            }
            if receives(ed, e as int) {
                let f = choose|f: int| 0 <= f < ed.len() && ed[f].1 == ed[e as int].0;
                assert(pred.contains(f as usize));
            }
            if pred.len() > 0 {
                assert(ed[pred[0] as int].1 == ed[e as int].0);
            }
        }
        let isolated = rel.adj_plus[e].len() == 0 && rel.adj_minus[e].len() == 0;
        assert(isolated == (!propagates(rel.edges@, e as int) && !receives(rel.edges@, e as int)));
        let ghost before = all_isolated_so_far;
        all_isolated_so_far = all_isolated_so_far && isolated;
        proof {
            let ed = rel.edges@;
            if all_isolated_so_far {
                assert forall|f: int| 0 <= f < e + 1 implies !#[trigger] propagates(ed, f) && !receives(ed, f) by {
                    if f < e {
                        assert(before);
                    }
                }
            } else if !before {
                let f = choose|f: int| !(0 <= f < e ==> !#[trigger] propagates(ed, f) && !receives(ed, f));
                assert(!(0 <= f < e + 1 ==> !propagates(ed, f) && !receives(ed, f)));
            } else {
                assert(!(0 <= e < e + 1 ==> !propagates(ed, e as int) && !receives(ed, e as int)));
            }
        }
        e = e + 1;
    }
    if all_isolated_so_far {
        return Some(FailureMode::RelationalIsolation);
    }
    None
}

/// Expression condition: rank(Im Σ) > 0 and the antisymmetric term is
/// nonzero on at least one edge. Returns (expressed, rank, nonzero term).
pub fn expression_condition(rank_sigma: usize, has_nonzero_antisym: bool) -> (r: (bool, usize, bool))
    ensures
        r == (rank_sigma > 0 && has_nonzero_antisym, rank_sigma, has_nonzero_antisym),
{
    (rank_sigma > 0 && has_nonzero_antisym, rank_sigma, has_nonzero_antisym)
}

/// Indices of the edges incident to `v` in declaration order; a self-loop
/// is listed twice.
pub open spec fn edges_touching(edges: Seq<(usize, usize)>, v: int) -> Seq<usize>
    decreases edges.len(),
{
    if edges.len() == 0 {
        Seq::empty()
    } else {
        let last = (edges.len() - 1) as int;
        let rest = edges_touching(edges.drop_last(), v);
        let with_source = if edges[last].0 == v {
            rest.push(last as usize)
        } else {
            rest
        };
        if edges[last].1 == v {
            with_source.push(last as usize)
        } else {
            with_source
        }
    }
}

/// For each locus, the edges incident to it: the set over which
/// χ[s] = max |Δ| is taken when ρ is evaluated at the source of an edge.
pub fn incident_edges(rel: &DeclaredRelations) -> (r: Vec<Vec<usize>>)
    requires
        rel.wf(),
    ensures
        r@.len() == rel.n_nodes,
        forall|v: int| 0 <= v < rel.n_nodes ==> #[trigger] r@[v]@ == edges_touching(rel.edges@, v),
{
    let n = rel.n_nodes;
    let m = rel.edges.len();
    let mut node_incident: Vec<Vec<usize>> = Vec::new();
    for i in 0..n
        invariant
            node_incident@.len() == i,
            forall|v: int| 0 <= v < i ==> #[trigger] node_incident@[v]@ == Seq::<usize>::empty(),
    {
        node_incident.push(Vec::new());
    }
    for e in 0..m
        invariant
            rel.wf(),
            m == rel.edges@.len(),
            n == rel.n_nodes,
            node_incident@.len() == n,
            forall|v: int|
                0 <= v < n ==> #[trigger] node_incident@[v]@ == edges_touching(
                    rel.edges@.take(e as int),
                    v,
                ),
    {
        let (s, t) = rel.edges[e];
        proof {
            assert(rel.edges@.take(e + 1).drop_last() =~= rel.edges@.take(e as int));
        }
        node_incident[s].push(e);
        node_incident[t].push(e);
    }
    proof {
        assert(rel.edges@.take(m as int) =~= rel.edges@);
    }
    node_incident
}

/// No edge among the first `k` propagates, so none is counted.
proof fn lemma_no_propagation_no_count(edges: Seq<(usize, usize)>, k: int)
    requires
        0 <= k <= edges.len(),
        forall|e: int| 0 <= e < edges.len() ==> !#[trigger] propagates(edges, e),
    ensures
        count_propagating(edges, k) == 0,
    decreases k,
{
    if k > 0 {
        lemma_no_propagation_no_count(edges, k - 1);
    }
}

/// When every edge is isolated (failure mode RelationalIsolation), the
/// propagation capacity is zero, so ρ_P is undefined for want of
/// propagation capacity whatever the number of components.
pub proof fn law_isolation_leaves_rho_p_undefined(rel: DeclaredRelations, rank_delta: int, k: int)
    requires
        rel.wf(),
        failure_mode_spec(rank_delta, rel.edges@) == Some(FailureMode::RelationalIsolation),
    ensures
        capacity(rel.edges@) == 0,
        rho_p_class_spec(capacity(rel.edges@) as int, k) == RhoPClass::Undefined(
            RhoPUndefined::NoPropagationCapacity,
        ),
{
    assert forall|e: int| 0 <= e < rel.edges@.len() implies !#[trigger] propagates(rel.edges@, e) by {
        assert(all_isolated(rel.edges@));
    }
    lemma_no_propagation_no_count(rel.edges@, rel.edges@.len() as int);
}

/// ρ_P is undefined without propagation capacity, then undefined without
/// components; otherwise it is ceiling-bounded exactly when the ceiling
/// k / C_X lies below 1, that is when k < C_X, and determined exactly when
/// k >= C_X.
pub proof fn law_rho_p_class_by_ceiling(cx: int, k: int)
    requires
        cx >= 0,
        k >= 0,
    ensures
        cx == 0 ==> rho_p_class_spec(cx, k) == RhoPClass::Undefined(RhoPUndefined::NoPropagationCapacity),
        cx > 0 && k == 0 ==> rho_p_class_spec(cx, k) == RhoPClass::Undefined(
            RhoPUndefined::NoDeclaredComponents,
        ),
        cx > 0 && k > 0 ==> (rho_p_class_spec(cx, k) == RhoPClass::CeilingBounded <==> k < cx),
        cx > 0 && k > 0 ==> (rho_p_class_spec(cx, k) == RhoPClass::Determined <==> cx <= k),
{
}

/// rank(Im Δ) = 0 is a differentiation collapse whatever the edges. With a
/// nonzero rank, the failure is relational isolation exactly when no edge
/// is followed by an edge leaving its target and none is preceded by an
/// edge entering its source; otherwise there is no failure.
pub proof fn law_failure_modes(rank_delta: int, edges: Seq<(usize, usize)>)
    requires
        rank_delta >= 0,
    ensures
        rank_delta == 0 ==> failure_mode_spec(rank_delta, edges) == Some(FailureMode::DifferentiationCollapse),
        rank_delta > 0 ==> (failure_mode_spec(rank_delta, edges) == Some(FailureMode::RelationalIsolation)
            <==> (forall|e: int, f: int|
            0 <= e < edges.len() && 0 <= f < edges.len() ==> #[trigger] edges[f].0 != #[trigger] edges[e].1
                && edges[f].1 != edges[e].0)),
        rank_delta > 0 ==> (failure_mode_spec(rank_delta, edges) is None <==> (exists|e: int, f: int|
            0 <= e < edges.len() && 0 <= f < edges.len() && (#[trigger] edges[f].0 == #[trigger] edges[e].1
                || edges[f].1 == edges[e].0))),
{
    if rank_delta > 0 {
        let direct = forall|e: int, f: int|
            0 <= e < edges.len() && 0 <= f < edges.len() ==> #[trigger] edges[f].0 != #[trigger] edges[e].1
                && edges[f].1 != edges[e].0;
        if direct {
            assert forall|e: int| 0 <= e < edges.len() implies !#[trigger] propagates(edges, e) && !receives(edges, e) by {
                if propagates(edges, e) {
                    let f = choose|f: int| 0 <= f < edges.len() && edges[f].0 == edges[e].1;
                    assert(edges[f].0 != edges[e].1);
                }
                if receives(edges, e) {
                    let f = choose|f: int| 0 <= f < edges.len() && edges[f].1 == edges[e].0;
                    assert(edges[f].1 != edges[e].0);
                }
            }
            assert(all_isolated(edges));
        } else {
            let (e, f) = choose|e: int, f: int|
                !(0 <= e < edges.len() && 0 <= f < edges.len() ==> #[trigger] edges[f].0 != #[trigger] edges[e].1
                    && edges[f].1 != edges[e].0);
            if edges[f].0 == edges[e].1 {
                assert(propagates(edges, e));
            } else {
                assert(receives(edges, e));
            }
            assert(!all_isolated(edges));
        }
    }
}

/// Edge `e` is listed for locus `v` once for each of its endpoints that is
/// `v` (an edge is incident to both its source and its target, a self-loop
/// twice), nothing else is listed, and the list ascends.
pub proof fn law_incident_edges_are_the_endpoint_edges(edges: Seq<(usize, usize)>, v: int)
    requires
        edges.len() <= usize::MAX,
    ensures
        forall|e: int|
            0 <= e < edges.len() ==> #[trigger] edges_touching(edges, v).to_multiset().count(e as usize) == (if edges[e].0
                == v {
                1nat
            } else {
                0nat
            }) + (if edges[e].1 == v {
                1nat
            } else {
                0nat
            }),
        forall|i: int|
            0 <= i < edges_touching(edges, v).len() ==> {
                let x = #[trigger] edges_touching(edges, v)[i];
                x < edges.len() && (edges[x as int].0 == v || edges[x as int].1 == v)
            },
        forall|i: int, j: int|
            0 <= i <= j < edges_touching(edges, v).len() ==> #[trigger] edges_touching(edges, v)[i]
                <= #[trigger] edges_touching(edges, v)[j],
    decreases edges.len(),
{
    broadcast use vstd::seq_lib::group_to_multiset_ensures;

    if edges.len() > 0 {
        let last = (edges.len() - 1) as int;
        let init = edges.drop_last();
        law_incident_edges_are_the_endpoint_edges(init, v);
        let rest = edges_touching(init, v);
        let mid = if edges[last].0 == v {
            rest.push(last as usize)
        } else {
            rest
        };
        let s = edges_touching(edges, v);
        assert(s == if edges[last].1 == v {
            mid.push(last as usize)
        } else {
            mid
        });
        assert forall|i: int| 0 <= i < rest.len() implies #[trigger] rest[i] < last by {}
        assert(!rest.contains(last as usize));
        assert(rest.to_multiset().count(last as usize) == 0);
        assert forall|i: int| 0 <= i < mid.len() implies {
            let x = #[trigger] mid[i];
            x < edges.len() && (edges[x as int].0 == v || edges[x as int].1 == v) && x <= last
        } by {
            if i < rest.len() {
                assert(mid[i] == rest[i]);
            }
        }
        assert forall|i: int, j: int| 0 <= i <= j < mid.len() implies #[trigger] mid[i] <= #[trigger] mid[j] by {
            if j < rest.len() {
                assert(mid[i] == rest[i] && mid[j] == rest[j]);
            } else if i < rest.len() {
                assert(mid[i] == rest[i]);
            }
        }
        assert forall|e: int| 0 <= e < edges.len() implies #[trigger] s.to_multiset().count(e as usize) == (if edges[e].0
            == v {
            1nat
        } else {
            0nat
        }) + (if edges[e].1 == v {
            1nat
        } else {
            0nat
        }) by {
            if e < last {
                assert(init[e] == edges[e]);
                assert(rest.to_multiset().count(e as usize) == (if init[e].0 == v {
                    1nat
                } else {
                    0nat
                }) + (if init[e].1 == v {
                    1nat
                } else {
                    0nat
                }));
            }
        }
        assert forall|i: int| 0 <= i < s.len() implies {
            let x = #[trigger] s[i];
            x < edges.len() && (edges[x as int].0 == v || edges[x as int].1 == v)
        } by {
            if i < mid.len() {
                assert(s[i] == mid[i]);
            }
        }
        assert forall|i: int, j: int| 0 <= i <= j < s.len() implies #[trigger] s[i] <= #[trigger] s[j] by {
            if j < mid.len() {
                assert(s[i] == mid[i] && s[j] == mid[j]);
            } else if i < mid.len() {
                assert(s[i] == mid[i]);
            }
        }
    } else {
        assert(edges_touching(edges, v).to_multiset() =~= vstd::multiset::Multiset::empty());
    }
}

} // verus!
