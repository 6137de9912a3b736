use archon_node::workload::Cardinality;

#[test]
fn malformed_cardinality_is_refused_up_front() {
    assert!(Cardinality::Fixed(0).validate().is_err());
    assert!(Cardinality::Elastic { min: 0, target: 1, max: 2 }.validate().is_err());
    assert!(Cardinality::Elastic { min: 2, target: 1, max: 3 }.validate().is_err());
    assert!(Cardinality::Elastic { min: 1, target: 3, max: 2 }.validate().is_err());
    assert!(Cardinality::Fixed(1).validate().is_ok());
    assert!(Cardinality::Elastic { min: 1, target: 2, max: 3 }.validate().is_ok());
    assert!(Cardinality::PerMachine.validate().is_ok());
}
