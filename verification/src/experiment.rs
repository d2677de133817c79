//! Single-step gate, Origin-declared input fields, and the plans of the
//! declared sweeps: which (k, ρ_base) and (locus, disturbance, ρ_base)
//! combinations are evaluated, in which order, and how many.
//!
//! Each plan entry names positions in the declared slices; the caller runs
//! one evaluation per entry, in plan order.

use vstd::prelude::*;
use crate::topology::{DeclaredRelations, same_label};
use vstd::arithmetic::div_mod::lemma_fundamental_div_mod_converse;

verus! {

/// Process direction of an evaluation.
#[derive(Clone, Debug)]
pub enum ProcessDirection {
    /// A single declared step: admitted.
    SingleStep,
    /// Multi-step evaluation: refused until its Origin declaration exists.
    MultiStep { direction_basis: String },
}

/// Refusal text of the process-direction gate for a given basis.
pub open spec fn gate_refusal(basis: Seq<char>) -> Seq<char> {
    "G8 ProcessDirection gate: MultiStep evaluation is not admitted without explicit Origin declaration of sequential observation sequence and relational evolution direction. Σ(Δ(x_r)) does not imply x_{r+1}. direction_basis='"@
        + basis
        + "' is present but the required Origin declaration structure has not been defined through V0.9. Declare the sequential observation sequence through M before invoking MultiStep."@
}

/// The process-direction gate: a single step is admitted, a multi-step
/// evaluation is refused with a message naming its basis.
pub fn direction_gate(direction: &ProcessDirection) -> (r: Result<(), String>)
    ensures
        match direction {
            ProcessDirection::SingleStep => r is Ok,
            ProcessDirection::MultiStep { direction_basis } => r is Err && r->Err_0@ == gate_refusal(
                direction_basis@,
            ),
        },
{
    match direction {
        ProcessDirection::SingleStep => Ok(()),
        ProcessDirection::MultiStep { direction_basis } => {
            let mut msg = String::from_str(
                "G8 ProcessDirection gate: MultiStep evaluation is not admitted without explicit Origin declaration of sequential observation sequence and relational evolution direction. Σ(Δ(x_r)) does not imply x_{r+1}. direction_basis='",
            );
            msg.append(direction_basis.as_str());
            msg.append(
                "' is present but the required Origin declaration structure has not been defined through V0.9. Declare the sequential observation sequence through M before invoking MultiStep.",
            );
            Err(msg)
        },
    }
}

/// Node counts for which Origin declared input fields.
pub open spec fn declared_node_count(n: int) -> bool {
    2 <= n <= 4
}

/// Declared k = 1 field for `n` loci: the ascending sequence 1, 2, …, n.
pub fn declared_values_k1(n: usize) -> (r: Vec<u64>)
    requires
        declared_node_count(n as int),
    ensures
        r@.len() == n,
        forall|i: int| 0 <= i < n ==> #[trigger] r@[i] == i + 1,
{
    let r: Vec<u64> = match n {
        2 => vec![1, 2],
        3 => vec![1, 2, 3],
        _ => vec![1, 2, 3, 4],
    };
    assert(r@.len() == n);
    r
}

/// Declared k = 2 field for `n` loci: component 0 ascends 1, …, n and
/// component 1 is its cyclic rotation 2, …, n, 1.
pub fn declared_values_k2(n: usize) -> (r: (Vec<u64>, Vec<u64>))
    requires
        declared_node_count(n as int),
    ensures
        r.0@.len() == n,
        r.1@.len() == n,
        forall|i: int| 0 <= i < n ==> #[trigger] r.0@[i] == i + 1,
        forall|i: int| 0 <= i < n ==> #[trigger] r.1@[i] == (i + 1) % (n as int) + 1,
{
    let r: (Vec<u64>, Vec<u64>) = match n {
        2 => (vec![1, 2], vec![2, 1]),
        3 => (vec![1, 2, 3], vec![2, 3, 1]),
        _ => (vec![1, 2, 3, 4], vec![2, 3, 4, 1]),
    };
    assert(r.0@.len() == n);
    r
}

/// k-matrix plan over a ρ_base sweep of `n_rho` values: the k = 1 block
/// (ρ positions in order) followed by the k = 2 block. There are exactly
/// 2 × `n_rho` entries, and each entry's k is that of its block.
pub fn k_matrix_plan(n_rho: usize) -> (r: Vec<(usize, usize)>)
    requires
        n_rho > 0,
        2 * n_rho <= usize::MAX,
    ensures
        r@.len() == 2 * n_rho,
        forall|i: int| 0 <= i < n_rho ==> #[trigger] r@[i] == (1usize, i as usize),
        forall|i: int| 0 <= i < n_rho ==> #[trigger] r@[n_rho + i] == (2usize, i as usize),
{
    let mut plan: Vec<(usize, usize)> = Vec::new();
    for rb in 0..n_rho
        invariant
            plan@.len() == rb,
            forall|i: int| 0 <= i < rb ==> #[trigger] plan@[i] == (1usize, i as usize),
    {
        plan.push((1, rb));
    }
    for rb in 0..n_rho
        invariant
            plan@.len() == n_rho + rb,
            forall|i: int| 0 <= i < n_rho ==> #[trigger] plan@[i] == (1usize, i as usize),
            forall|i: int| 0 <= i < rb ==> #[trigger] plan@[n_rho + i] == (2usize, i as usize),
    {
        plan.push((2, rb));
    }
    plan
}

/// Closure-removal plan: the closed and the open three-locus topologies are
/// evaluated as a pair for each entry of the k-matrix plan.
pub fn closure_removal_plan(
    rel_closed: &DeclaredRelations,
    rel_open: &DeclaredRelations,
    n_rho: usize,
) -> (r: Vec<(usize, usize)>)
    requires
        rel_closed.n_nodes == 3,
        rel_open.n_nodes == 3,
        n_rho > 0,
        2 * n_rho <= usize::MAX,
    ensures
        r@.len() == 2 * n_rho,
        forall|i: int| 0 <= i < n_rho ==> #[trigger] r@[i] == (1usize, i as usize),
        forall|i: int| 0 <= i < n_rho ==> #[trigger] r@[n_rho + i] == (2usize, i as usize),
{
    k_matrix_plan(n_rho)
}

/// The atlas entry at position `i` of a plan over `nd` disturbances and
/// `nr` ρ_base values: (locus position, disturbance position, ρ position).
pub open spec fn atlas_entry(i: int, nd: int, nr: int) -> (usize, usize, usize) {
    ((i / (nd * nr)) as usize, ((i / nr) % nd) as usize, (i % nr) as usize)
}

/// Intervention-atlas plan: every (locus, disturbance, ρ_base) triple,
/// loci outermost and ρ_base innermost, so there are exactly
/// `nn` × `nd` × `nr` comparisons. The primary and control topologies must
/// carry different labels.
pub fn intervention_atlas_plan(
    rel_primary: &DeclaredRelations,
    rel_control: &DeclaredRelations,
    nn: usize,
    nd: usize,
    nr: usize,
) -> (r: Vec<(usize, usize, usize)>)
    requires
        !same_label(rel_primary.label, rel_control.label),
        nn > 0,
        nd > 0,
        nr > 0,
        nn * nd * nr <= usize::MAX,
    ensures
        r@.len() == nn * nd * nr,
        forall|i: int| 0 <= i < r@.len() ==> #[trigger] r@[i] == atlas_entry(i, nd as int, nr as int),
{
    let mut plan: Vec<(usize, usize, usize)> = Vec::new();
    let ghost ndr = nd * nr;
    assert(0 * ndr == 0) by (nonlinear_arith);
    for a in 0..nn
        invariant
            nd > 0,
            nr > 0,
            ndr == nd * nr,
            nn * nd * nr <= usize::MAX,
            plan@.len() == a * ndr,
            forall|i: int| 0 <= i < plan@.len() ==> #[trigger] plan@[i] == atlas_entry(i, nd as int, nr as int),
    {
        assert(a * ndr + 0 * nr == a * ndr) by (nonlinear_arith);
        for b in 0..nd
            invariant
                0 <= a < nn,
                nd > 0,
                nr > 0,
                ndr == nd * nr,
                nn * nd * nr <= usize::MAX,
                plan@.len() == a * ndr + b * nr,
                forall|i: int| 0 <= i < plan@.len() ==> #[trigger] plan@[i] == atlas_entry(i, nd as int, nr as int),
        {
            for c in 0..nr
                invariant
                    0 <= a < nn,
                    0 <= b < nd,
                    nd > 0,
                    nr > 0,
                    ndr == nd * nr,
                    nn * nd * nr <= usize::MAX,
                    plan@.len() == a * ndr + b * nr + c,
                    forall|i: int| 0 <= i < plan@.len() ==> #[trigger] plan@[i] == atlas_entry(i, nd as int, nr as int),
            {
                let ghost idx = plan@.len() as int;
                proof {
                    assert(a * ndr + b * nr + c < nn * nd * nr) by (nonlinear_arith)
                        requires
                            a < nn,
                            b < nd,
                            c < nr,
                            ndr == nd * nr,
                    ;
                    // idx / nr == a * nd + b and idx % nr == c
                    assert(idx == (a * nd + b) * nr + c) by (nonlinear_arith)
                        requires
                            idx == a * ndr + b * nr + c,
                            ndr == nd * nr,
                    ;
                    lemma_fundamental_div_mod_converse(idx, nr as int, a * nd + b, c as int);
                    lemma_fundamental_div_mod_converse(a * nd + b, nd as int, a as int, b as int);
                    // idx / (nd * nr) == a
                    assert(idx == a * ndr + (b * nr + c)) by (nonlinear_arith)
                        requires
                            idx == a * ndr + b * nr + c,
                    ;
                    assert(b * nr + c < ndr) by (nonlinear_arith)
                        requires
                            b < nd,
                            c < nr,
                            ndr == nd * nr,
                    ;
                    lemma_fundamental_div_mod_converse(idx, ndr, a as int, b * nr + c);
                }
                plan.push((a, b, c));
                proof {
                    assert(plan@[idx] == atlas_entry(idx, nd as int, nr as int));
                }
            }
            proof {
                assert(a * ndr + b * nr + nr == a * ndr + (b + 1) * nr) by (nonlinear_arith);
            }
        }
        proof {
            assert(a * ndr + nd * nr == (a + 1) * ndr) by (nonlinear_arith)
                requires
                    ndr == nd * nr,
            ;
        }
    }
    assert(nn * ndr == nn * nd * nr) by (nonlinear_arith)
        requires
            ndr == nd * nr,
    ;
    plan
}

/// The plan position of locus `a`, disturbance `b` and ρ_base `c` is
/// a·nd·nr + b·nr + c, and the atlas entry there names exactly (a, b, c):
/// loci outermost, ρ_base innermost.
pub proof fn law_atlas_entry_positions(nd: int, nr: int, a: int, b: int, c: int)
    requires
        0 < nd <= usize::MAX,
        0 < nr <= usize::MAX,
        0 <= a <= usize::MAX,
        0 <= b < nd,
        0 <= c < nr,
    ensures
        atlas_entry(a * (nd * nr) + b * nr + c, nd, nr) == (a as usize, b as usize, c as usize),
{
    let i = a * (nd * nr) + b * nr + c;
    assert(i == (a * nd + b) * nr + c) by (nonlinear_arith)
        requires
            i == a * (nd * nr) + b * nr + c,
    ;
    lemma_fundamental_div_mod_converse(i, nr, a * nd + b, c);
    assert(a * nd + b == b + a * nd);
    lemma_fundamental_div_mod_converse(a * nd + b, nd, a, b);
    assert(b * nr + c < nd * nr) by (nonlinear_arith)
        requires
            0 <= b < nd,
            0 <= c < nr,
    ;
    assert(0 <= b * nr + c) by (nonlinear_arith)
        requires
            0 <= b,
            0 <= c,
            nr > 0,
    ;
    assert(nd * nr > 0) by (nonlinear_arith)
        requires
            nd > 0,
            nr > 0,
    ;
    assert(i == a * (nd * nr) + (b * nr + c));
    lemma_fundamental_div_mod_converse(i, nd * nr, a, b * nr + c);
}

/// The refusal of a multi-step evaluation names the G8 gate and quotes its
/// basis: refusals for different bases differ.
pub proof fn law_gate_refusal_names_gate_and_basis(b1: Seq<char>, b2: Seq<char>)
    ensures
        gate_refusal(b1).take(24) == "G8 ProcessDirection gate"@,
        gate_refusal(b1) == gate_refusal(b2) ==> b1 == b2,
{
    let p = "G8 ProcessDirection gate: MultiStep evaluation is not admitted without explicit Origin declaration of sequential observation sequence and relational evolution direction. Σ(Δ(x_r)) does not imply x_{r+1}. direction_basis='"@;
    let q = "' is present but the required Origin declaration structure has not been defined through V0.9. Declare the sequential observation sequence through M before invoking MultiStep."@;
    reveal_strlit("G8 ProcessDirection gate: MultiStep evaluation is not admitted without explicit Origin declaration of sequential observation sequence and relational evolution direction. Σ(Δ(x_r)) does not imply x_{r+1}. direction_basis='");
    reveal_strlit("G8 ProcessDirection gate");
    assert(gate_refusal(b1).take(24) =~= "G8 ProcessDirection gate"@);
    if gate_refusal(b1) == gate_refusal(b2) {
        let g1 = gate_refusal(b1);
        let g2 = gate_refusal(b2);
        assert(g1.len() == g2.len());
        assert(b1.len() == b2.len());
        assert forall|k: int| 0 <= k < b1.len() implies b1[k] == b2[k] by {
            assert(g1[p.len() + k] == b1[k]);
            assert(g2[p.len() + k] == b2[k]);
        }
        assert(b1 =~= b2);
    }
}

} // verus!
