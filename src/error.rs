use vstd::prelude::*;

verus! {

/// Every failure the core reports; each one is a violated local invariant.
#[derive(PartialEq, Eq, Structural, Clone, Copy, Debug)]
pub enum NeatError {
    /// The `(from, to, kind)` triple is already registered.
    DuplicateFeature,
    /// Inputs are not `1..=n_in`, or outputs do not follow them contiguously.
    NonContiguousLevels,
    /// The genome's gene, weight and status sequences differ in length.
    GenomeLengthMismatch,
    /// The input vector does not have one value per declared input.
    InputArityMismatch,
    /// An enabled connection leads into an input node or into the bias node.
    InvalidInputTopology,
    /// The genome cites a feature id that the registry does not hold.
    UnknownFeatureReference,
    /// No structurally legal new connection exists.
    NoLegalMutationTarget,
    /// The enabled connections contain a directed cycle, so no layering exists.
    CyclicTopology,
}

} // verus!
