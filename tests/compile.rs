use neat::error::NeatError;
use neat::genome::Genome;
use neat::innovation::{InnovationTable, Type};
use neat::network::NeuralNetwork;

/// Forward pass over the compiled waves, as the executor performs it.
fn evaluate(net: &NeuralNetwork<f64>, inputs: &[f64]) -> Vec<f64> {
    let mut values = vec![0.0; net.neurons.len()];
    for (i, n) in net.neurons.iter().enumerate() {
        if n.id == 0 {
            values[i] = 1.0;
        }
        if let Some(k) = net.neuron_levels.0.iter().position(|x| *x == n.id) {
            values[i] = inputs[k];
        }
    }
    for wave in &net.waves {
        for &e in wave {
            let s = net.sources[e];
            let t = net.targets[e];
            values[t] += values[s] * net.connectors[e].weight;
        }
    }
    net.neuron_levels
        .1
        .iter()
        .map(|o| values[net.neurons.iter().position(|n| n.id == *o).unwrap()])
        .collect()
}

fn one_in_one_out(features: Vec<(usize, usize, Type)>) -> InnovationTable {
    InnovationTable::init((vec![1], vec![2]), features).unwrap()
}

#[test]
fn bias_and_input_feed_the_output() {
    let table = one_in_one_out(vec![(0, 2, Type::Connector), (1, 2, Type::Connector)]);
    let genome = Genome(vec![0, 1], vec![1.0, 1.0], vec![true, true]);
    let net = NeuralNetwork::init(&genome, &table).unwrap();
    assert_eq!(net.waves.len(), 2);
    let mut first = net.waves[0].clone();
    first.sort();
    assert_eq!(first, vec![0, 1]);
    assert!(net.waves[1].is_empty());
    assert_eq!(evaluate(&net, &[5.0]), vec![6.0]);
}

#[test]
fn three_nodes_one_edge_by_hand() {
    let table = one_in_one_out(vec![(0, 2, Type::Connector)]);
    let genome = Genome(vec![0], vec![0.7], vec![true]);
    let net = NeuralNetwork::init(&genome, &table).unwrap();
    assert_eq!(net.neurons.len(), 3);
    assert_eq!(net.connectors.len(), 1);
    assert_eq!(evaluate(&net, &[0.0]), vec![1.0 * 0.7]);
}

#[test]
fn empty_genome_still_has_inputs_and_outputs() {
    let table = one_in_one_out(vec![]);
    let genome: Genome<f64> = Genome(vec![], vec![], vec![]);
    let net = NeuralNetwork::init(&genome, &table).unwrap();
    let mut ids: Vec<usize> = net.neurons.iter().map(|n| n.id).collect();
    ids.sort();
    assert_eq!(ids, vec![0, 1, 2]);
    assert_eq!(net.layers.len(), 1);
    assert_eq!(net.waves, vec![Vec::<usize>::new()]);
    assert_eq!(evaluate(&net, &[3.0]), vec![0.0]);
}

#[test]
fn disabled_genes_and_splits_give_no_edge() {
    let table = one_in_one_out(vec![(0, 2, Type::Connector), (1, 2, Type::Neuron), (1, 2, Type::Connector)]);
    let genome = Genome(vec![0, 1, 2], vec![2.0, 3.0, 4.0], vec![true, true, false]);
    let net = NeuralNetwork::init(&genome, &table).unwrap();
    assert_eq!(net.connectors.len(), 1);
    assert_eq!((net.connectors[0].from, net.connectors[0].to), (0, 2));
    assert_eq!(evaluate(&net, &[10.0]), vec![2.0]);
}

#[test]
fn compile_errors() {
    let table = one_in_one_out(vec![(1, 2, Type::Connector), (2, 1, Type::Connector), (3, 4, Type::Connector), (4, 3, Type::Connector), (2, 0, Type::Connector)]);
    let g = Genome(vec![0, 1], vec![1.0], vec![true, true]);
    assert!(matches!(NeuralNetwork::init(&g, &table), Err(NeatError::GenomeLengthMismatch)));
    let g = Genome(vec![0, 9], vec![1.0, 1.0], vec![true, true]);
    assert!(matches!(NeuralNetwork::init(&g, &table), Err(NeatError::UnknownFeatureReference)));
    let g = Genome(vec![1], vec![1.0], vec![true]);
    assert!(matches!(NeuralNetwork::init(&g, &table), Err(NeatError::InvalidInputTopology)));
    let g = Genome(vec![4], vec![1.0], vec![true]);
    assert!(matches!(NeuralNetwork::init(&g, &table), Err(NeatError::InvalidInputTopology)));
    let g = Genome(vec![2, 3], vec![1.0, 1.0], vec![true, true]);
    assert!(matches!(NeuralNetwork::init(&g, &table), Err(NeatError::CyclicTopology)));
    let g = Genome(vec![2, 3], vec![1.0, 1.0], vec![true, false]);
    assert!(NeuralNetwork::init(&g, &table).is_ok());
}

fn layered_table() -> (Genome<f64>, InnovationTable) {
    let table = InnovationTable::init(
        (vec![1], vec![2]),
        vec![
            (1, 3, Type::Connector),
            (3, 2, Type::Connector),
            (4, 3, Type::Connector),
            (5, 2, Type::Connector),
            (0, 5, Type::Connector),
            (0, 3, Type::Connector),
        ],
    )
    .unwrap();
    let genome = Genome(vec![0, 1, 2, 3, 4, 5], vec![0.1, 0.2, 0.3, 0.4, 0.5, 0.6], vec![true; 6]);
    (genome, table)
}

#[test]
fn every_edge_climbs_and_fires_in_its_source_layer() {
    let (genome, table) = layered_table();
    let net = NeuralNetwork::init(&genome, &table).unwrap();
    for e in 0..net.connectors.len() {
        let s = net.sources[e];
        let t = net.targets[e];
        assert_eq!(net.neurons[s].id, net.connectors[e].from);
        assert_eq!(net.neurons[t].id, net.connectors[e].to);
        assert!(net.depth[s] < net.depth[t]);
        assert!(net.waves[net.depth[s]].contains(&e));
    }
}

#[test]
fn layers_hold_every_node_once() {
    let (genome, table) = layered_table();
    let net = NeuralNetwork::init(&genome, &table).unwrap();
    let mut all: Vec<usize> = net.layers.iter().flatten().copied().collect();
    assert_eq!(all.len(), net.neurons.len());
    all.sort();
    assert_eq!(all, vec![0, 1, 2, 3, 4, 5]);
}

#[test]
fn compiling_twice_gives_the_same_layers() {
    let (genome, table) = layered_table();
    let a = NeuralNetwork::init(&genome, &table).unwrap();
    let b = NeuralNetwork::init(&genome, &table).unwrap();
    assert_eq!(a.layers, b.layers);
    assert_eq!(a.waves, b.waves);
}

#[test]
fn node_edge_lists() {
    let (genome, table) = layered_table();
    let net = NeuralNetwork::init(&genome, &table).unwrap();
    let three = net.neurons.iter().find(|n| n.id == 3).unwrap();
    assert_eq!(three.from_arr, vec![0, 2, 5]);
    assert_eq!(three.to_arr, vec![1]);
    let bias = net.neurons.iter().find(|n| n.id == 0).unwrap();
    assert!(bias.from_arr.is_empty());
    assert_eq!(bias.to_arr, vec![4, 5]);
}

#[test]
fn io_slots_follow_declared_order() {
    let table = InnovationTable::init((vec![1, 2], vec![3]), vec![(2, 3, Type::Connector)]).unwrap();
    let genome = Genome(vec![0], vec![1.0], vec![true]);
    let net = NeuralNetwork::init(&genome, &table).unwrap();
    assert!(matches!(net.io_slots(1), Err(NeatError::InputArityMismatch)));
    let slots = net.io_slots(2).unwrap();
    assert_eq!(net.neurons[slots.bias].id, 0);
    assert_eq!(net.neurons[slots.inputs[0]].id, 1);
    assert_eq!(net.neurons[slots.inputs[1]].id, 2);
    assert_eq!(net.neurons[slots.outputs[0]].id, 3);
}
