//! Provenance of declared observations, and the shape rules of a node field
//! (field[component][node]). The values themselves are real numbers held by
//! the application crate.

use vstd::prelude::*;

verus! {

/// Observation class attached to every node field.
#[derive(Clone, Copy, Debug, PartialEq, Eq, Structural)]
pub enum ObservationClass {
    /// Values supplied directly as simulation input.
    SimulatedInput,
    /// Output of a declared transducer applied to a prior observable.
    SimulatedTransducerOutput,
    /// Physical measurement through a declared mapping.
    PhysicalMeasurement,
}

/// A field with these component lengths is admissible: at least one
/// component, at least one node (k = 0 is rejected), all components of
/// equal length.
pub open spec fn admissible_shape(lengths: Seq<usize>) -> bool {
    &&& lengths.len() > 0
    &&& lengths[0] > 0
    &&& forall|c: int| 0 <= c < lengths.len() ==> #[trigger] lengths[c] == lengths[0]
}

/// Shape of a node field from the lengths of its components:
/// `Some((n_components, n_nodes))` when admissible, `None` otherwise.
pub fn node_field_shape(lengths: &Vec<usize>) -> (r: Option<(usize, usize)>)
    ensures
        r is Some <==> admissible_shape(lengths@),
        r is Some ==> r == Some((lengths@.len() as usize, lengths@[0])),
{
    if lengths.len() == 0 {
        return None;
    }
    let n_nodes = lengths[0];
    if n_nodes == 0 {
        return None;
    }
    for c in 0..lengths.len()
        invariant
            n_nodes == lengths@[0],
            forall|c2: int| 0 <= c2 < c ==> #[trigger] lengths@[c2] == n_nodes,
    {
        if lengths[c] != n_nodes {
            assert(!admissible_shape(lengths@));
            return None;
        }
    }
    Some((lengths.len(), n_nodes))
}

/// A field is refused when it has no component, when any component has no
/// node, or when two components differ in length; every other field is
/// admitted.
pub proof fn law_field_shape(lengths: Seq<usize>)
    ensures
        lengths.len() == 0 ==> !admissible_shape(lengths),
        forall|c: int| 0 <= c < lengths.len() && #[trigger] lengths[c] == 0 ==> !admissible_shape(lengths),
        forall|c: int, d: int|
            0 <= c < lengths.len() && 0 <= d < lengths.len() && #[trigger] lengths[c] != #[trigger] lengths[d]
                ==> !admissible_shape(lengths),
        lengths.len() > 0 && (forall|c: int| 0 <= c < lengths.len() ==> #[trigger] lengths[c] > 0) && (forall|
            c: int,
            d: int,
        | 0 <= c < lengths.len() && 0 <= d < lengths.len() ==> #[trigger] lengths[c] == #[trigger] lengths[d])
            ==> admissible_shape(lengths),
{
    assert forall|c: int| 0 <= c < lengths.len() && #[trigger] lengths[c] == 0 implies !admissible_shape(lengths) by {
        if admissible_shape(lengths) {
            assert(lengths[c] == lengths[0]);
        }
    }
    assert forall|c: int, d: int|
        0 <= c < lengths.len() && 0 <= d < lengths.len() && #[trigger] lengths[c] != #[trigger] lengths[d]
        implies !admissible_shape(lengths) by {
        if admissible_shape(lengths) {
            assert(lengths[c] == lengths[0]);
            assert(lengths[d] == lengths[0]);
        }
    }
    if lengths.len() > 0 && (forall|c: int| 0 <= c < lengths.len() ==> #[trigger] lengths[c] > 0) && (forall|
        c: int,
        d: int,
    | 0 <= c < lengths.len() && 0 <= d < lengths.len() ==> #[trigger] lengths[c] == #[trigger] lengths[d]) {
        assert(lengths[0] > 0);
        assert forall|c: int| 0 <= c < lengths.len() implies #[trigger] lengths[c] == lengths[0] by {
            assert(lengths[c] == lengths[0]);
        }
    }
}

} // verus!
