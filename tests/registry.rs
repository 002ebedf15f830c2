use neat::error::NeatError;
use neat::innovation::{InnovationTable, Type};

#[test]
fn register_twice_fails_and_lookup_is_stable() {
    let mut table = InnovationTable::new();
    table.set_levels(vec![1, 2], vec![3]).unwrap();
    let id = table.add_innovation((2, 3, Type::Connector)).unwrap();
    assert_eq!(id, 0);
    assert_eq!(table.get_innovation((2, 3, Type::Connector)), Some(0));
    assert_eq!(table.add_innovation((2, 3, Type::Connector)), Err(NeatError::DuplicateFeature));
    assert_eq!(table.get_innovation((2, 3, Type::Connector)), Some(0));
    assert_eq!(table.innovations.len(), 1);
}

#[test]
fn ids_follow_insertion_order() {
    let mut table = InnovationTable::new();
    assert_eq!(table.add_innovation((0, 2, Type::Connector)), Ok(0));
    assert_eq!(table.add_innovation((0, 2, Type::Neuron)), Ok(1));
    assert_eq!(table.add_innovation((1, 2, Type::Connector)), Ok(2));
    assert_eq!(table.get_innovation((0, 2, Type::Neuron)), Some(1));
    assert_eq!(table.get_innovation((2, 0, Type::Connector)), None);
    assert_eq!(table.innovations[2].id, 2);
    assert_eq!(table.innovations[2].from, 1);
}

#[test]
fn levels_must_be_contiguous() {
    let mut table = InnovationTable::new();
    assert_eq!(table.set_levels(vec![2], vec![3]), Err(NeatError::NonContiguousLevels));
    assert_eq!(table.set_levels(vec![1], vec![3]), Err(NeatError::NonContiguousLevels));
    assert_eq!(table.set_levels(vec![1, 2], vec![3, 5]), Err(NeatError::NonContiguousLevels));
    assert_eq!(table.set_levels(vec![1, 2], vec![3, 4]), Ok(()));
    assert_eq!(table.neuron_counter, 4);
    assert_eq!(table.set_levels(vec![], vec![1]), Ok(()));
    assert_eq!(table.neuron_counter, 4);
}

#[test]
fn minted_nodes_follow_the_declared_levels() {
    let mut table = InnovationTable::new();
    table.set_levels(vec![1, 2], vec![3]).unwrap();
    assert_eq!(table.inc_neuron(), 4);
    assert_eq!(table.inc_neuron(), 5);
    assert_eq!(table.neuron_counter, 5);
}

#[test]
fn init_reports_bad_levels_and_duplicates() {
    assert!(matches!(
        InnovationTable::init((vec![1], vec![3]), vec![]),
        Err(NeatError::NonContiguousLevels)
    ));
    assert!(matches!(
        InnovationTable::init((vec![1], vec![2]), vec![(0, 2, Type::Connector), (0, 2, Type::Connector)]),
        Err(NeatError::DuplicateFeature)
    ));
    let table = InnovationTable::init((vec![1], vec![2]), vec![(0, 2, Type::Connector), (1, 2, Type::Connector)]).unwrap();
    assert_eq!(table.innovations.len(), 2);
    assert_eq!(table.neuron_counter, 2);
    assert_eq!(table.neuron_levels, (vec![1], vec![2]));
}

#[test]
fn registering_raises_the_node_counter() {
    let table = InnovationTable::init((vec![1], vec![2]), vec![(1, 3, Type::Connector), (3, 2, Type::Connector)]).unwrap();
    assert_eq!(table.neuron_counter, 3);
    let mut table = table;
    assert_eq!(table.add_innovation((7, 2, Type::Connector)), Ok(2));
    assert_eq!(table.neuron_counter, 7);
    assert_eq!(table.inc_neuron(), 8);
}
