use neat::error::NeatError;
use neat::genome::Genome;
use neat::innovation::{InnovationTable, Type};
use neat::mutation::{add_connector, add_node, add_random_connector, add_random_node, get_all_connections};
use neat::network::NeuralNetwork;

fn bias_only() -> (Genome<f64>, InnovationTable) {
    let table = InnovationTable::init((vec![1], vec![2]), vec![(0, 2, Type::Connector)]).unwrap();
    (Genome(vec![0], vec![0.5], vec![true]), table)
}

#[test]
fn legal_connections_skip_existing_edges() {
    let (genome, table) = bias_only();
    let net = NeuralNetwork::init(&genome, &table).unwrap();
    assert_eq!(get_all_connections(&net), vec![(1, 2)]);
}

#[test]
fn add_connector_registers_and_appends() {
    let (mut genome, mut table) = bias_only();
    add_connector(&mut genome, &mut table, (1, 2), 0.0);
    assert_eq!(table.get_innovation((1, 2, Type::Connector)), Some(1));
    assert_eq!(genome.0, vec![0, 1]);
    assert_eq!(genome.1, vec![0.5, 0.0]);
    assert_eq!(genome.2, vec![true, true]);
}

#[test]
fn add_connector_reuses_and_enables() {
    let (mut genome, mut table) = bias_only();
    table.add_innovation((1, 2, Type::Connector)).unwrap();
    genome.2[0] = false;
    add_connector(&mut genome, &mut table, (0, 2), 0.0);
    assert_eq!(genome.2, vec![true]);
    assert_eq!(genome.0, vec![0]);
    add_connector(&mut genome, &mut table, (1, 2), 0.0);
    assert_eq!(genome.0, vec![0, 1]);
    assert_eq!(table.innovations.len(), 2);
}

#[test]
fn split_node_sits_between_its_ends() {
    let (mut genome, mut table) = bias_only();
    let m = add_node(&mut genome, &mut table, (1, 2), 0.0);
    assert_eq!(m, 3);
    assert_eq!(genome.0, vec![0, 1, 2]);
    assert_eq!(table.get_innovation((1, 3, Type::Connector)), Some(1));
    assert_eq!(table.get_innovation((3, 2, Type::Connector)), Some(2));
    let net = NeuralNetwork::init(&genome, &table).unwrap();
    let layer = |id: usize| net.depth[net.neurons.iter().position(|n| n.id == id).unwrap()];
    assert!(layer(1) < layer(3));
    assert!(layer(3) < layer(2));
}

#[test]
fn random_connection_takes_the_only_legal_one() {
    let (mut genome, mut table) = bias_only();
    assert_eq!(add_random_connector(&mut genome, &mut table, 0.0), Ok(()));
    assert_eq!(table.get_innovation((1, 2, Type::Connector)), Some(1));
    assert_eq!(genome.0, vec![0, 1]);
    assert_eq!(add_random_connector(&mut genome, &mut table, 0.0), Err(NeatError::NoLegalMutationTarget));
    assert_eq!(genome.0, vec![0, 1]);
}

#[test]
fn random_split_mints_a_node() {
    let (mut genome, mut table) = bias_only();
    assert_eq!(add_random_node(&mut genome, &mut table, 0.0), Ok(3));
    assert_eq!(table.neuron_counter, 3);
    assert_eq!(genome.0.len(), 3);
    assert!(NeuralNetwork::init(&genome, &table).is_ok());
}

#[test]
fn mutation_reports_compile_errors() {
    let table = InnovationTable::init((vec![1], vec![2]), vec![(2, 1, Type::Connector)]).unwrap();
    let mut table = table;
    let mut genome = Genome(vec![0], vec![1.0], vec![true]);
    assert_eq!(add_random_connector(&mut genome, &mut table, 0.0), Err(NeatError::InvalidInputTopology));
}

#[test]
fn split_mints_an_unused_node_even_above_declared_ids() {
    let mut table = InnovationTable::init((vec![1], vec![2]), vec![(1, 3, Type::Connector), (3, 2, Type::Connector)]).unwrap();
    let mut genome = Genome(vec![0, 1], vec![1.0, 1.0], vec![true, true]);
    let m = add_node(&mut genome, &mut table, (1, 2), 0.0);
    assert_eq!(m, 4);
    assert_eq!(genome.0, vec![0, 1, 2, 3]);
    assert_eq!(genome.2, vec![true, true, true, true]);
    assert_eq!(table.get_innovation((1, 4, Type::Connector)), Some(2));
    assert_eq!(table.get_innovation((4, 2, Type::Connector)), Some(3));
    let net = NeuralNetwork::init(&genome, &table).unwrap();
    let layer = |id: usize| net.depth[net.neurons.iter().position(|n| n.id == id).unwrap()];
    assert!(layer(1) < layer(4) && layer(4) < layer(2));
}

#[test]
fn random_split_keeps_the_genome_compiling() {
    let mut table = InnovationTable::init((vec![1], vec![2]), vec![(1, 3, Type::Connector), (3, 2, Type::Connector)]).unwrap();
    let mut genome = Genome(vec![0, 1], vec![1.0, 1.0], vec![true, true]);
    for _ in 0..5 {
        let m = add_random_node(&mut genome, &mut table, 0.0).unwrap();
        assert_eq!(m, table.neuron_counter);
        assert!(NeuralNetwork::init(&genome, &table).is_ok());
    }
}
