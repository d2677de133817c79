use prc::node_field::{node_field_shape, ObservationClass};

#[test]
fn observation_classes_distinct() {
    assert_ne!(ObservationClass::SimulatedInput, ObservationClass::PhysicalMeasurement);
    assert_ne!(ObservationClass::SimulatedInput, ObservationClass::SimulatedTransducerOutput);
}

#[test]
fn shape_of_admissible_fields() {
    assert_eq!(node_field_shape(&vec![3]), Some((1, 3)));
    assert_eq!(node_field_shape(&vec![3, 3, 3]), Some((3, 3)));
}

#[test]
fn k_zero_and_ragged_fields_rejected() {
    assert_eq!(node_field_shape(&vec![]), None);
    assert_eq!(node_field_shape(&vec![0]), None);
    assert_eq!(node_field_shape(&vec![3, 2]), None);
}
