//! Declared loci, directed edges with their provenance, the adjacency
//! structure derived from them, propagation capacity C_X, undirected-cycle
//! detection, and the ten canonical fixtures.
//!
//! Cycle detection reports structure only: it never rejects a declaration.
//! `Persistence` is refused as a spatial edge provenance.

use vstd::prelude::*;


verus! {

/// Canonical three-variant provenance of a declared edge.
#[derive(Clone, Copy, Debug, PartialEq, Eq, Structural)]
pub enum EdgeProvenance {
    /// Within-family spatial continuation (open boundary, no wraparound).
    Continuation,
    /// Cross-family spatial coupling.
    Coupling,
    /// Relational-evolutionary edge between process steps; never spatial.
    Persistence,
}

/// Named topology label used to identify fixtures and records.
#[derive(Clone, Debug)]
pub enum TopologyLabel {
    Pair,
    Chain3,
    ClosedRelational3,
    Chain4,
    Branch,
    Convergent,
    Diamond,
    Custom(String),
}

/// Two labels are the same when they are the same variant and, for
/// `Custom`, carry the same text.
pub open spec fn same_label(a: TopologyLabel, b: TopologyLabel) -> bool {
    match (a, b) {
        (TopologyLabel::Pair, TopologyLabel::Pair) => true,
        (TopologyLabel::Chain3, TopologyLabel::Chain3) => true,
        (TopologyLabel::ClosedRelational3, TopologyLabel::ClosedRelational3) => true,
        (TopologyLabel::Chain4, TopologyLabel::Chain4) => true,
        (TopologyLabel::Branch, TopologyLabel::Branch) => true,
        (TopologyLabel::Convergent, TopologyLabel::Convergent) => true,
        (TopologyLabel::Diamond, TopologyLabel::Diamond) => true,
        (TopologyLabel::Custom(x), TopologyLabel::Custom(y)) => x@ == y@,
        _ => false,
    }
}

impl PartialEq for TopologyLabel {
    fn eq(&self, other: &Self) -> (r: bool) {
        match (self, other) {
            (TopologyLabel::Pair, TopologyLabel::Pair) => true,
            (TopologyLabel::Chain3, TopologyLabel::Chain3) => true,
            (TopologyLabel::ClosedRelational3, TopologyLabel::ClosedRelational3) => true,
            (TopologyLabel::Chain4, TopologyLabel::Chain4) => true,
            (TopologyLabel::Branch, TopologyLabel::Branch) => true,
            (TopologyLabel::Convergent, TopologyLabel::Convergent) => true,
            (TopologyLabel::Diamond, TopologyLabel::Diamond) => true,
            (TopologyLabel::Custom(x), TopologyLabel::Custom(y)) => x.eq(y),
            _ => false,
        }
    }
}

impl vstd::std_specs::cmp::PartialEqSpecImpl for TopologyLabel {
    open spec fn obeys_eq_spec() -> bool {
        true
    }

    open spec fn eq_spec(&self, other: &TopologyLabel) -> bool {
        same_label(*self, *other)
    }
}

/// A copy of the label, equal to it.
pub fn copy_label(l: &TopologyLabel) -> (r: TopologyLabel)
    ensures
        r == *l,
{
    match l {
        TopologyLabel::Pair => TopologyLabel::Pair,
        TopologyLabel::Chain3 => TopologyLabel::Chain3,
        TopologyLabel::ClosedRelational3 => TopologyLabel::ClosedRelational3,
        TopologyLabel::Chain4 => TopologyLabel::Chain4,
        TopologyLabel::Branch => TopologyLabel::Branch,
        TopologyLabel::Convergent => TopologyLabel::Convergent,
        TopologyLabel::Diamond => TopologyLabel::Diamond,
        TopologyLabel::Custom(s) => TopologyLabel::Custom(s.clone()),
    }
}

/// Result of undirected-cycle detection. Detection only.
#[derive(Clone, Debug)]
pub struct CycleReport {
    pub has_cycle: bool,
    pub note: String,
}

/// Indices `e` (ascending) of the declared edges whose source is `v`.
pub open spec fn edges_leaving(edges: Seq<(usize, usize)>, v: int) -> Seq<usize>
    decreases edges.len(),
{
    if edges.len() == 0 {
        Seq::empty()
    } else {
        let last = (edges.len() - 1) as int;
        let rest = edges_leaving(edges.drop_last(), v);
        if edges[last].0 == v {
            rest.push(last as usize)
        } else {
            rest
        }
    }
}

/// Indices `e` (ascending) of the declared edges whose target is `v`.
pub open spec fn edges_entering(edges: Seq<(usize, usize)>, v: int) -> Seq<usize>
    decreases edges.len(),
{
    if edges.len() == 0 {
        Seq::empty()
    } else {
        let last = (edges.len() - 1) as int;
        let rest = edges_entering(edges.drop_last(), v);
        if edges[last].1 == v {
            rest.push(last as usize)
        } else {
            rest
        }
    }
}

/// A declaration is admitted by the spatial constructor when every edge has
/// exactly one provenance, none of them is `Persistence`, and every endpoint
/// names a declared locus.
pub open spec fn admissible_declaration(
    n_nodes: int,
    edges: Seq<(usize, usize)>,
    provenance: Seq<EdgeProvenance>,
) -> bool {
    &&& edges.len() == provenance.len()
    &&& forall|e: int| 0 <= e < provenance.len() ==> provenance[e] != EdgeProvenance::Persistence
    &&& forall|e: int| 0 <= e < edges.len() ==> (edges[e].0 < n_nodes && edges[e].1 < n_nodes)
}

/// Edge `e` propagates when some declared edge leaves its target.
pub open spec fn propagates(edges: Seq<(usize, usize)>, e: int) -> bool {
    exists|f: int| 0 <= f < edges.len() && edges[f].0 == edges[e].1
}

/// Number of edges among the first `k` that propagate.
pub open spec fn count_propagating(edges: Seq<(usize, usize)>, k: int) -> nat
    decreases k,
{
    if k <= 0 {
        0
    } else {
        count_propagating(edges, k - 1) + if propagates(edges, k - 1) {
            1nat
        } else {
            0nat
        }
    }
}

/// Propagation capacity C_X: the number of declared edges that propagate.
pub open spec fn capacity(edges: Seq<(usize, usize)>) -> nat {
    count_propagating(edges, edges.len() as int)
}

/// The spatial constructor refuses a declaration with a `Persistence` edge
/// at any position, with an endpoint outside the declared loci, or with a
/// provenance count different from the edge count; it admits every other
/// declaration.
pub proof fn law_spatial_admission(n_nodes: int, edges: Seq<(usize, usize)>, provenance: Seq<EdgeProvenance>)
    ensures
        forall|e: int|
            0 <= e < provenance.len() && #[trigger] provenance[e] == EdgeProvenance::Persistence
                ==> !admissible_declaration(n_nodes, edges, provenance),
        forall|e: int|
            0 <= e < edges.len() && (#[trigger] edges[e].0 >= n_nodes || edges[e].1 >= n_nodes)
                ==> !admissible_declaration(n_nodes, edges, provenance),
        edges.len() != provenance.len() ==> !admissible_declaration(n_nodes, edges, provenance),
        edges.len() == provenance.len() && (forall|e: int|
            0 <= e < provenance.len() ==> #[trigger] provenance[e] != EdgeProvenance::Persistence) && (forall|e: int|
            0 <= e < edges.len() ==> #[trigger] edges[e].0 < n_nodes && edges[e].1 < n_nodes)
            ==> admissible_declaration(n_nodes, edges, provenance),
{
}

/// C_X is the number of declared edges followed by some declared edge
/// leaving their target.
pub proof fn law_capacity_counts_followed_edges(edges: Seq<(usize, usize)>)
    ensures
        capacity(edges) == Set::new(
            |e: int| 0 <= e < edges.len() && exists|f: int| 0 <= f < edges.len() && edges[f].0 == edges[e].1,
        ).len(),
{
    lemma_count_is_set_len(edges, edges.len() as int);
    assert(propagating_set(edges, edges.len() as int) =~= Set::new(
        |e: int| 0 <= e < edges.len() && exists|f: int| 0 <= f < edges.len() && edges[f].0 == edges[e].1,
    ));
}

/// `f` sends each edge of `e1` to a distinct edge of `e2` with the same
/// source and target: the edges of `e1` are among those of `e2`.
pub open spec fn embeds_directed(e1: Seq<(usize, usize)>, e2: Seq<(usize, usize)>, f: spec_fn(int) -> int) -> bool {
    &&& forall|i: int| #![trigger f(i)] 0 <= i < e1.len() ==> 0 <= f(i) < e2.len() && e2[f(i)] == e1[i]
    &&& forall|i: int, j: int|
        #![trigger f(i), f(j)]
        0 <= i < e1.len() && 0 <= j < e1.len() && f(i) == f(j) ==> i == j
}

/// Indices among the first `k` of the edges that propagate.
pub open spec fn propagating_set(edges: Seq<(usize, usize)>, k: int) -> Set<int> {
    Set::new(|i: int| 0 <= i < k && propagates(edges, i))
}

/// The count of propagating edges is the size of their index set.
proof fn lemma_count_is_set_len(edges: Seq<(usize, usize)>, k: int)
    requires
        0 <= k <= edges.len(),
    ensures
        propagating_set(edges, k).finite(),
        propagating_set(edges, k).len() == count_propagating(edges, k),
    decreases k,
{
    if k == 0 {
        assert(propagating_set(edges, 0) =~= Set::<int>::empty());
    } else {
        lemma_count_is_set_len(edges, k - 1);
        if propagates(edges, k - 1) {
            assert(propagating_set(edges, k) =~= propagating_set(edges, k - 1).insert(k - 1));
        } else {
            assert(propagating_set(edges, k) =~= propagating_set(edges, k - 1));
        }
    }
}

/// Removing declared edges never raises the propagation capacity: when the
/// edges of `e1` are among those of `e2` (`f` picks for each a distinct
/// edge of `e2` with the same source and target), C_X(e1) <= C_X(e2).
pub proof fn law_capacity_never_rises_on_removal(
    e1: Seq<(usize, usize)>,
    e2: Seq<(usize, usize)>,
    f: spec_fn(int) -> int,
)
    requires
        embeds_directed(e1, e2, f),
    ensures
        capacity(e1) <= capacity(e2),
{
    let s1 = propagating_set(e1, e1.len() as int);
    let s2 = propagating_set(e2, e2.len() as int);
    lemma_count_is_set_len(e1, e1.len() as int);
    lemma_count_is_set_len(e2, e2.len() as int);
    assert forall|i: int| s1.contains(i) implies s2.contains(f(i)) by {
        let j = choose|j: int| 0 <= j < e1.len() && e1[j].0 == e1[i].1;
        assert(e2[f(j)].0 == e2[f(i)].1);
    }
    let img = s1.map(f);
    assert(img.subset_of(s2));
    assert(vstd::relations::injective_on(f, s1));
    vstd::set_lib::lemma_map_size(s1, img, f);
    vstd::set_lib::lemma_len_subset(img, s2);
}

/// Reordering the declared edges leaves the propagation capacity
/// unchanged: when each edge list embeds in the other, C_X is equal.
pub proof fn law_capacity_invariant_under_reorder(
    e1: Seq<(usize, usize)>,
    e2: Seq<(usize, usize)>,
    f: spec_fn(int) -> int,
    h: spec_fn(int) -> int,
)
    requires
        embeds_directed(e1, e2, f),
        embeds_directed(e2, e1, h),
    ensures
        capacity(e1) == capacity(e2),
{
    law_capacity_never_rises_on_removal(e1, e2, f);
    law_capacity_never_rises_on_removal(e2, e1, h);
}

/// Declared relational structure over `n_nodes` loci.
#[derive(Clone, Debug)]
pub struct DeclaredRelations {
    pub n_nodes: usize,
    /// Directed edges as (source, target); the index is the edge id.
    pub edges: Vec<(usize, usize)>,
    /// One provenance per edge.
    pub provenance: Vec<EdgeProvenance>,
    /// out[i]: edges leaving node i.
    pub out: Vec<Vec<usize>>,
    /// inc[i]: edges entering node i.
    pub inc: Vec<Vec<usize>>,
    /// adj_plus[e]: edges leaving the target of e.
    pub adj_plus: Vec<Vec<usize>>,
    /// adj_minus[e]: edges entering the source of e.
    pub adj_minus: Vec<Vec<usize>>,
    pub label: TopologyLabel,
}

impl DeclaredRelations {
    /// The adjacency fields agree with the declared edge list, and the
    /// declaration is admissible.
    pub open spec fn wf(&self) -> bool {
        &&& admissible_declaration(self.n_nodes as int, self.edges@, self.provenance@)
        &&& self.out@.len() == self.n_nodes
        &&& self.inc@.len() == self.n_nodes
        &&& self.adj_plus@.len() == self.edges@.len()
        &&& self.adj_minus@.len() == self.edges@.len()
        &&& forall|v: int|
            0 <= v < self.n_nodes ==> #[trigger] self.out@[v]@ == edges_leaving(self.edges@, v)
        &&& forall|v: int|
            0 <= v < self.n_nodes ==> #[trigger] self.inc@[v]@ == edges_entering(self.edges@, v)
        &&& forall|e: int|
            0 <= e < self.edges@.len() ==> #[trigger] self.adj_plus@[e]@ == edges_leaving(
                self.edges@,
                self.edges@[e].1 as int,
            )
        &&& forall|e: int|
            0 <= e < self.edges@.len() ==> #[trigger] self.adj_minus@[e]@ == edges_entering(
                self.edges@,
                self.edges@[e].0 as int,
            )
    }

    /// Builds the relations from an explicit edge list and provenance.
    /// The declaration must be admissible (`is_admissible` decides it):
    /// matching lengths, no `Persistence` edge, every endpoint declared.
    pub fn new(
        n_nodes: usize,
        edges: Vec<(usize, usize)>,
        provenance: Vec<EdgeProvenance>,
        label: TopologyLabel,
    ) -> (r: Self)
        requires
            admissible_declaration(n_nodes as int, edges@, provenance@),
        ensures
            r.wf(),
            r.n_nodes == n_nodes,
            r.edges@ == edges@,
            r.provenance@ == provenance@,
            r.label == label,
    {
        let n_edges = edges.len();
        let mut out: Vec<Vec<usize>> = Vec::new();
        let mut inc: Vec<Vec<usize>> = Vec::new();
        for i in 0..n_nodes
            invariant
                out@.len() == i,
                inc@.len() == i,
                forall|v: int| 0 <= v < i ==> #[trigger] out@[v]@ == Seq::<usize>::empty(),
                forall|v: int| 0 <= v < i ==> #[trigger] inc@[v]@ == Seq::<usize>::empty(),
        {
            out.push(Vec::new());
            inc.push(Vec::new());
        }
        for e in 0..n_edges
            invariant
                n_edges == edges@.len(),
                admissible_declaration(n_nodes as int, edges@, provenance@),
                out@.len() == n_nodes,
                inc@.len() == n_nodes,
                forall|v: int|
                    0 <= v < n_nodes ==> #[trigger] out@[v]@ == edges_leaving(
                        edges@.take(e as int),
                        v,
                    ),
                forall|v: int|
                    0 <= v < n_nodes ==> #[trigger] inc@[v]@ == edges_entering(
                        edges@.take(e as int),
                        v,
                    ),
        {
            let (s, t) = edges[e];
            proof {
                assert(edges@.take(e + 1).drop_last() =~= edges@.take(e as int));
            }
            out[s].push(e);
            inc[t].push(e);
        }
        proof {
            assert(edges@.take(n_edges as int) =~= edges@);
        }
        let mut adj_plus: Vec<Vec<usize>> = Vec::new();
        let mut adj_minus: Vec<Vec<usize>> = Vec::new();
        for e in 0..n_edges
            invariant
                n_edges == edges@.len(),
                admissible_declaration(n_nodes as int, edges@, provenance@),
                out@.len() == n_nodes,
                inc@.len() == n_nodes,
                forall|v: int| 0 <= v < n_nodes ==> #[trigger] out@[v]@ == edges_leaving(edges@, v),
                forall|v: int|
                    0 <= v < n_nodes ==> #[trigger] inc@[v]@ == edges_entering(edges@, v),
                adj_plus@.len() == e,
                adj_minus@.len() == e,
                forall|f: int|
                    0 <= f < e ==> #[trigger] adj_plus@[f]@ == edges_leaving(
                        edges@,
                        edges@[f].1 as int,
                    ),
                forall|f: int|
                    0 <= f < e ==> #[trigger] adj_minus@[f]@ == edges_entering(
                        edges@,
                        edges@[f].0 as int,
                    ),
        {
            let (s, t) = edges[e];
            let succ = out[t].clone();
            let pred = inc[s].clone();
            proof {
                assert(succ@ =~= out@[t as int]@);
                assert(pred@ =~= inc@[s as int]@);
            }
            adj_plus.push(succ);
            adj_minus.push(pred);
        }
        DeclaredRelations { n_nodes, edges, provenance, out, inc, adj_plus, adj_minus, label }
    }

    /// Decides whether `new` admits the declaration.
    pub fn is_admissible(
        n_nodes: usize,
        edges: &Vec<(usize, usize)>,
        provenance: &Vec<EdgeProvenance>,
    ) -> (r: bool)
        ensures
            r == admissible_declaration(n_nodes as int, edges@, provenance@),
    {
        if edges.len() != provenance.len() {
            return false;
        }
        for e in 0..provenance.len()
            invariant
                forall|f: int| 0 <= f < e ==> provenance@[f] != EdgeProvenance::Persistence,
        {
            if provenance[e] == EdgeProvenance::Persistence {
                return false;
            }
        }
        for e in 0..edges.len()
            invariant
                forall|f: int|
                    0 <= f < e ==> (edges@[f].0 < n_nodes && edges@[f].1 < n_nodes),
        {
            let (s, t) = edges[e];
            if s >= n_nodes || t >= n_nodes {
                return false;
            }
        }
        true
    }

    /// Every edge gets `Continuation` provenance.
    pub fn from_edges(n_nodes: usize, edges: Vec<(usize, usize)>, label: TopologyLabel) -> (r: Self)
        requires
            forall|e: int| 0 <= e < edges@.len() ==> (edges@[e].0 < n_nodes && edges@[e].1 < n_nodes),
        ensures
            r.wf(),
            r.n_nodes == n_nodes,
            r.edges@ == edges@,
            r.provenance@.len() == edges@.len(),
            forall|e: int| 0 <= e < edges@.len() ==> r.provenance@[e] == EdgeProvenance::Continuation,
            r.label == label,
    {
        let n = edges.len();
        let mut provenance: Vec<EdgeProvenance> = Vec::new();
        for i in 0..n
            invariant
                provenance@.len() == i,
                forall|e: int| 0 <= e < i ==> provenance@[e] == EdgeProvenance::Continuation,
        {
            provenance.push(EdgeProvenance::Continuation);
        }
        Self::new(n_nodes, edges, provenance, label)
    }

    pub fn n_edges(&self) -> (r: usize)
        ensures
            r == self.edges@.len(),
    {
        self.edges.len()
    }

    /// Propagation capacity C_X: count of edges e whose adj_plus[e] is non-empty.
    pub fn propagation_capacity(&self) -> (r: usize)
        requires
            self.wf(),
        ensures
            r == capacity(self.edges@),
    {
        let m = self.adj_plus.len();
        let mut count: usize = 0;
        for e in 0..m
            invariant
                self.wf(),
                m == self.edges@.len(),
                count == count_propagating(self.edges@, e as int),
                count <= e,
        {
            proof {
                lemma_edges_leaving_members(self.edges@, self.edges@[e as int].1 as int);
                let succ = edges_leaving(self.edges@, self.edges@[e as int].1 as int);
                if propagates(self.edges@, e as int) {
                    let f = choose|f: int|
                        0 <= f < self.edges@.len() && self.edges@[f].0 == self.edges@[e as int].1;
                    assert(succ.contains(f as usize));
                }
                if succ.len() > 0 {
                    assert(self.edges@[succ[0] as int].0 == self.edges@[e as int].1);
                }
            }
            if self.adj_plus[e].len() > 0 {
                count = count + 1;
            }
        }
        count
    }
}

/// Membership and ordering facts about `edges_leaving`.
pub proof fn lemma_edges_leaving_members(edges: Seq<(usize, usize)>, v: int)
    requires
        edges.len() <= usize::MAX,
    ensures
        forall|i: int|
            0 <= i < edges_leaving(edges, v).len() ==> {
                let f = #[trigger] edges_leaving(edges, v)[i];
                f < edges.len() && edges[f as int].0 == v
            },
        forall|f: int|
            0 <= f < edges.len() && edges[f].0 == v ==> #[trigger] edges_leaving(
                edges,
                v,
            ).contains(f as usize),
    decreases edges.len(),
{
    if edges.len() > 0 {
        lemma_edges_leaving_members(edges.drop_last(), v);
        let rest = edges_leaving(edges.drop_last(), v);
        let all = edges_leaving(edges, v);
        assert forall|i: int| 0 <= i < all.len() implies {
            let f = #[trigger] all[i];
            f < edges.len() && edges[f as int].0 == v
        } by {
            let last = edges.len() - 1;
            if edges[last].0 == v {
                assert(all == rest.push(last as usize));
            } else {
                assert(all == rest);
            }
            if i < rest.len() {
                assert(all[i] == rest[i]);
                assert(rest[i] < edges.drop_last().len());
                assert(edges.drop_last()[rest[i] as int] == edges[rest[i] as int]);
            }
        }
        assert forall|f: int| 0 <= f < edges.len() && edges[f].0 == v implies #[trigger] edges_leaving(
            edges,
            v,
        ).contains(f as usize) by {
            if f < edges.len() - 1 {
                assert(edges.drop_last()[f] == edges[f]);
                assert(rest.contains(f as usize));
                let k = choose|k: int| 0 <= k < rest.len() && rest[k] == f as usize;
                assert(edges_leaving(edges, v)[k] == f as usize);
            } else {
                assert(edges_leaving(edges, v)[rest.len() as int] == f as usize);
            }
        }
    }
}


/// `r` is the declaration of `edges` over `n` loci, every edge a
/// `Continuation`, under `label`.
pub open spec fn declares(
    r: DeclaredRelations,
    n: int,
    edges: Seq<(usize, usize)>,
    label: TopologyLabel,
) -> bool {
    &&& r.wf()
    &&& r.n_nodes == n
    &&& r.edges@ == edges
    &&& forall|e: int| 0 <= e < edges.len() ==> r.provenance@[e] == EdgeProvenance::Continuation
    &&& r.label == label
}

/// Edge `e` is fed: some declared edge enters its source.
pub open spec fn receives(edges: Seq<(usize, usize)>, e: int) -> bool {
    exists|f: int| 0 <= f < edges.len() && edges[f].1 == edges[e].0
}

/// Membership facts about `edges_entering`.
pub proof fn lemma_edges_entering_members(edges: Seq<(usize, usize)>, v: int)
    requires
        edges.len() <= usize::MAX,
    ensures
        forall|i: int|
            0 <= i < edges_entering(edges, v).len() ==> {
                let f = #[trigger] edges_entering(edges, v)[i];
                f < edges.len() && edges[f as int].1 == v
            },
        forall|f: int|
            0 <= f < edges.len() && edges[f].1 == v ==> #[trigger] edges_entering(
                edges,
                v,
            ).contains(f as usize),
    decreases edges.len(),
{
    if edges.len() > 0 {
        lemma_edges_entering_members(edges.drop_last(), v);
        let rest = edges_entering(edges.drop_last(), v);
        let all = edges_entering(edges, v);
        assert forall|i: int| 0 <= i < all.len() implies {
            let f = #[trigger] all[i];
            f < edges.len() && edges[f as int].1 == v
        } by {
            let last = edges.len() - 1;
            if edges[last].1 == v {
                assert(all == rest.push(last as usize));
            } else {
                assert(all == rest);
            }
            if i < rest.len() {
                assert(all[i] == rest[i]);
                assert(rest[i] < edges.drop_last().len());
                assert(edges.drop_last()[rest[i] as int] == edges[rest[i] as int]);
            }
        }
        assert forall|f: int| 0 <= f < edges.len() && edges[f].1 == v implies #[trigger] edges_entering(
            edges,
            v,
        ).contains(f as usize) by {
            if f < edges.len() - 1 {
                assert(edges.drop_last()[f] == edges[f]);
                assert(rest.contains(f as usize));
                let k = choose|k: int| 0 <= k < rest.len() && rest[k] == f as usize;
                assert(edges_entering(edges, v)[k] == f as usize);
            } else {
                assert(edges_entering(edges, v)[rest.len() as int] == f as usize);
            }
        }
    }
}

// Canonical fixtures.

/// F1 — PRC-2: A→B.
pub fn fixture_f1_pair() -> (r: DeclaredRelations)
    ensures
        declares(r, 2, seq![(0usize, 1usize)], TopologyLabel::Pair),
{
    let edges: Vec<(usize, usize)> = vec![(0, 1)];
    assert(edges@ =~= seq![(0usize, 1usize)]);
    DeclaredRelations::from_edges(2, edges, TopologyLabel::Pair)
}

/// F2 — PRC-3 open chain: A→B→C.
pub fn fixture_f2_chain3() -> (r: DeclaredRelations)
    ensures
        declares(r, 3, seq![(0usize, 1usize), (1usize, 2usize)], TopologyLabel::Chain3),
{
    DeclaredRelations::from_edges(3, vec![(0, 1), (1, 2)], TopologyLabel::Chain3)
}

/// F3 — three-locus closed relational topology (3LCT): A→B→C→A.
pub fn fixture_f3_closed_relational_3() -> (r: DeclaredRelations)
    ensures
        declares(
            r,
            3,
            seq![(0usize, 1usize), (1usize, 2usize), (2usize, 0usize)],
            TopologyLabel::ClosedRelational3,
        ),
{
    DeclaredRelations::from_edges(3, vec![(0, 1), (1, 2), (2, 0)], TopologyLabel::ClosedRelational3)
}

/// F4 — chain-4: A→B→C→D.
pub fn fixture_f4_chain4() -> (r: DeclaredRelations)
    ensures
        declares(
            r,
            4,
            seq![(0usize, 1usize), (1usize, 2usize), (2usize, 3usize)],
            TopologyLabel::Chain4,
        ),
{
    DeclaredRelations::from_edges(4, vec![(0, 1), (1, 2), (2, 3)], TopologyLabel::Chain4)
}

/// F5 — branch: A→B, B→C, B→D.
pub fn fixture_f5_branch() -> (r: DeclaredRelations)
    ensures
        declares(
            r,
            4,
            seq![(0usize, 1usize), (1usize, 2usize), (1usize, 3usize)],
            TopologyLabel::Branch,
        ),
{
    DeclaredRelations::from_edges(4, vec![(0, 1), (1, 2), (1, 3)], TopologyLabel::Branch)
}

/// F6 — convergent: A→C, B→C, C→D.
pub fn fixture_f6_convergent() -> (r: DeclaredRelations)
    ensures
        declares(
            r,
            4,
            seq![(0usize, 2usize), (1usize, 2usize), (2usize, 3usize)],
            TopologyLabel::Convergent,
        ),
{
    DeclaredRelations::from_edges(4, vec![(0, 2), (1, 2), (2, 3)], TopologyLabel::Convergent)
}

/// F7 — diamond: A→B, A→C, B→D, C→D.
pub fn fixture_f7_diamond() -> (r: DeclaredRelations)
    ensures
        declares(
            r,
            4,
            seq![(0usize, 1usize), (0usize, 2usize), (1usize, 3usize), (2usize, 3usize)],
            TopologyLabel::Diamond,
        ),
{
    DeclaredRelations::from_edges(
        4,
        vec![(0, 1), (0, 2), (1, 3), (2, 3)],
        TopologyLabel::Diamond,
    )
}

/// F8 — 3LCT, primary intervention arm (same topology as F3).
pub fn fixture_f8_closed_relational_3_intervention() -> (r: DeclaredRelations)
    ensures
        declares(
            r,
            3,
            seq![(0usize, 1usize), (1usize, 2usize), (2usize, 0usize)],
            TopologyLabel::ClosedRelational3,
        ),
{
    DeclaredRelations::from_edges(3, vec![(0, 1), (1, 2), (2, 0)], TopologyLabel::ClosedRelational3)
}

/// F9 — chain-3, matched control for F8 (same topology as F2).
pub fn fixture_f9_chain3_intervention() -> (r: DeclaredRelations)
    ensures
        declares(r, 3, seq![(0usize, 1usize), (1usize, 2usize)], TopologyLabel::Chain3),
{
    DeclaredRelations::from_edges(3, vec![(0, 1), (1, 2)], TopologyLabel::Chain3)
}

/// F10 — F3 with the closing edge C→A declared absent: the open chain
/// A→B→C. A binary declaration change, not a scalar weakening.
pub fn fixture_f10_closure_removed() -> (r: DeclaredRelations)
    ensures
        declares(r, 3, seq![(0usize, 1usize), (1usize, 2usize)], TopologyLabel::Chain3),
{
    DeclaredRelations::from_edges(3, vec![(0, 1), (1, 2)], TopologyLabel::Chain3)
}

} // verus!
