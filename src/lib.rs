//! A NEAT-style neuroevolution core: a registry of historical markings,
//! genomes, compilation of a genome into a layered network, structural
//! mutation and the gene alignment behind the compatibility distance.
pub mod error;
pub mod innovation;
pub mod genome;
pub mod network;
pub mod layering;
pub mod mutation;
pub mod compatibility;
pub mod laws;
