use vstd::prelude::*;

verus! {

/// An individual's genes: feature ids, their weights and their enabled flags,
/// as three parallel sequences in order of insertion. The weight type is left
/// open; the core only carries weights from genes to edges.
#[derive(Clone, Debug)]
pub struct Genome<W>(pub Vec<usize>, pub Vec<W>, pub Vec<bool>);

impl<W> Genome<W> {
    pub fn new(genes: Vec<usize>, weights: Vec<W>, status: Vec<bool>) -> (r: Self)
        ensures
            r.0@ == genes@,
            r.1@ == weights@,
            r.2@ == status@,
    {
        Genome(genes, weights, status)
    }

    pub open spec fn parts(&self) -> (Seq<usize>, Seq<W>, Seq<bool>) {
        (self.0@, self.1@, self.2@)
    }

    /// The three sequences have equal length.
    pub open spec fn same_lengths(&self) -> bool {
        self.0@.len() == self.1@.len() && self.0@.len() == self.2@.len()
    }
}

} // verus!
