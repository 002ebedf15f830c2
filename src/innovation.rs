use vstd::prelude::*;
use crate::error::NeatError;

verus! {

/// The two kinds of structural feature: a connection between two nodes, or the
/// event of splitting a connection with a new node.
#[derive(PartialEq, Eq, Structural, Clone, Copy, Debug, Hash)]
pub enum Type {
    Neuron,
    Connector,
}

/// A feature as it is asked for: `(from, to, kind)`.
pub type RawInnovation = (usize, usize, Type);

/// A registered feature; `id` is its position in the registry.
#[derive(Clone, Copy, Debug)]
pub struct Innovation {
    pub from: usize,
    pub to: usize,
    pub id: usize,
    pub kind: Type,
}

impl Innovation {
    pub open spec fn raw(self) -> RawInnovation {
        (self.from, self.to, self.kind)
    }
}

/// Inputs are exactly `1..=n_in` and outputs exactly `n_in+1..=n_in+n_out`.
pub open spec fn levels_contiguous(inputs: Seq<usize>, outputs: Seq<usize>) -> bool {
    &&& forall|i: int| 0 <= i < inputs.len() ==> inputs[i] == i + 1
    &&& forall|j: int| 0 <= j < outputs.len() ==> outputs[j] == inputs.len() + j + 1
}

/// Every node id that a feature names is at most `c`.
pub open spec fn names_at_most(feats: Seq<RawInnovation>, c: usize) -> bool {
    forall|i: int| 0 <= i < feats.len() ==> (#[trigger] feats[i]).0 <= c && feats[i].1 <= c
}

/// The counter `c` raised, where needed, to the node ids that `raw` names.
pub open spec fn raised(c: usize, raw: RawInnovation) -> usize {
    let m = if raw.0 > c { raw.0 } else { c };
    if raw.1 > m { raw.1 } else { m }
}

/// The counter `c` raised by each feature of `s` in turn.
pub open spec fn raised_all(c: usize, s: Seq<RawInnovation>) -> usize
    decreases s.len(),
{
    if s.len() == 0 {
        c
    } else {
        raised(raised_all(c, s.drop_last()), s.last())
    }
}

/// The registry of historical markings: every feature ever created, in order
/// of creation, the input/output partition of node ids, and the counter from
/// which new hidden node ids are minted.
pub struct InnovationTable {
    pub innovations: Vec<Innovation>,
    pub neuron_levels: (Vec<usize>, Vec<usize>),
    pub neuron_counter: usize,
}

impl InnovationTable {
    /// The registered features, the index of each being its id.
    pub open spec fn features(&self) -> Seq<RawInnovation> {
        self.innovations@.map_values(|i: Innovation| i.raw())
    }

    pub open spec fn inputs(&self) -> Seq<usize> {
        self.neuron_levels.0@
    }

    pub open spec fn outputs(&self) -> Seq<usize> {
        self.neuron_levels.1@
    }

    /// A node id that is the bias or a declared input.
    pub open spec fn is_input(&self, n: usize) -> bool {
        n == 0 || self.inputs().contains(n)
    }

    pub open spec fn is_output(&self, n: usize) -> bool {
        self.outputs().contains(n)
    }

    pub open spec fn wf(&self) -> bool {
        &&& forall|i: int| 0 <= i < self.innovations@.len() ==> self.innovations@[i].id == i
        &&& forall|i: int, j: int|
            0 <= i < self.innovations@.len() && 0 <= j < self.innovations@.len() && i != j
                ==> self.innovations@[i].raw() != self.innovations@[j].raw()
        &&& levels_contiguous(self.inputs(), self.outputs())
        &&& self.inputs().len() + self.outputs().len() <= self.neuron_counter
        &&& names_at_most(self.features(), self.neuron_counter)
    }

    /// An empty registry with no declared inputs or outputs.
    pub fn new() -> (r: InnovationTable)
        ensures
            r.wf(),
            r.features() == Seq::<RawInnovation>::empty(),
            r.inputs() == Seq::<usize>::empty(),
            r.outputs() == Seq::<usize>::empty(),
            r.neuron_counter == 0,
    {
        let r = InnovationTable {
            innovations: Vec::new(),
            neuron_levels: (Vec::new(), Vec::new()),
            neuron_counter: 0,
        };
        assert(r.features() =~= Seq::<RawInnovation>::empty());
        r
    }

    /// Looks a feature up by its triple.
    pub fn get_innovation(&self, innovation: RawInnovation) -> (r: Option<usize>)
        requires
            self.wf(),
        ensures
            match r {
                Some(id) => id < self.features().len() && self.features()[id as int] == innovation,
                None => !self.features().contains(innovation),
            },
    {
        let mut i: usize = 0;
        while i < self.innovations.len()
            invariant
                i <= self.innovations@.len(),
                forall|k: int| 0 <= k < i ==> self.features()[k] != innovation,
            decreases self.innovations@.len() - i,
        {
            let f = &self.innovations[i];
            if f.from == innovation.0 && f.to == innovation.1 && f.kind == innovation.2 {
                return Some(i);
            }
            i += 1;
        }
        None
    }

    /// Registers a new feature and returns its id, the number of features
    /// registered before it; a triple already present is refused. The node
    /// counter is raised to the ids the feature names, so that minted ids
    /// stay new.
    pub fn add_innovation(&mut self, innovation: RawInnovation) -> (r: Result<usize, NeatError>)
        requires
            old(self).wf(),
        ensures
            final(self).wf(),
            final(self).neuron_levels == old(self).neuron_levels,
            r is Ok ==> final(self).neuron_counter == raised(old(self).neuron_counter, innovation),
            r is Err ==> final(self).neuron_counter == old(self).neuron_counter,
            old(self).features().contains(innovation) <==> r is Err,
            r is Err ==> r == Err::<usize, NeatError>(NeatError::DuplicateFeature),
            match r {
                Ok(id) => {
                    &&& id == old(self).features().len()
                    &&& final(self).features() == old(self).features().push(innovation)
                },
                Err(_) => final(self).features() == old(self).features(),
            },
    {
        if self.get_innovation(innovation).is_some() {
            return Err(NeatError::DuplicateFeature);
        }
        if innovation.0 > self.neuron_counter {
            self.neuron_counter = innovation.0;
        }
        if innovation.1 > self.neuron_counter {
            self.neuron_counter = innovation.1;
        }
        let id = self.innovations.len();
        assert(forall|k: int| 0 <= k < id ==> self.innovations@[k].raw() == old(self).features()[k]
            && old(self).features()[k] != innovation);
        self.innovations.push(Innovation { from: innovation.0, to: innovation.1, id, kind: innovation.2 });
        assert(self.features() =~= old(self).features().push(innovation));
        assert(self.innovations@[id as int].raw() == innovation);
        assert forall|i: int, j: int|
            0 <= i < self.innovations@.len() && 0 <= j < self.innovations@.len() && i != j
                implies self.innovations@[i].raw() != self.innovations@[j].raw() by {
            if i < id {
                assert(old(self).innovations@[i] == self.innovations@[i]);
                assert(old(self).features()[i] == self.innovations@[i].raw());
            }
            if j < id {
                assert(old(self).innovations@[j] == self.innovations@[j]);
                assert(old(self).features()[j] == self.innovations@[j].raw());
            }
        }
        assert forall|i: int| 0 <= i < self.features().len() implies
            (#[trigger] self.features()[i]).0 <= self.neuron_counter && self.features()[i].1 <= self.neuron_counter by {
            if i < id {
                assert(self.features()[i] == old(self).features()[i]);
            }
        }
        Ok(id)
    }

    /// Declares the input and output node ids; refused unless inputs are
    /// `1..=n_in` and outputs the block right after them. The node counter
    /// never decreases: it becomes the larger of itself and `n_in + n_out`,
    /// so hidden ids are minted above every declared and registered id.
    pub fn set_levels(&mut self, input_level: Vec<usize>, output_level: Vec<usize>) -> (r: Result<(), NeatError>)
        requires
            old(self).wf(),
        ensures
            final(self).wf(),
            final(self).features() == old(self).features(),
            r is Ok <==> levels_contiguous(input_level@, output_level@),
            r is Err ==> r == Err::<(), NeatError>(NeatError::NonContiguousLevels) && *final(self) == *old(self),
            r is Ok ==> {
                &&& final(self).inputs() == input_level@
                &&& final(self).outputs() == output_level@
                &&& final(self).neuron_counter == if old(self).neuron_counter > input_level@.len() + output_level@.len() {
                    old(self).neuron_counter
                } else {
                    (input_level@.len() + output_level@.len()) as usize
                }
            },
    {
        let n_in = input_level.len();
        let mut i: usize = 0;
        while i < n_in
            invariant
                n_in == input_level@.len(),
                i <= n_in,
                *self == *old(self),
                old(self).wf(),
                forall|k: int| 0 <= k < i ==> input_level@[k] == k + 1,
            decreases n_in - i,
        {
            if input_level[i] == 0 || input_level[i] - 1 != i {
                return Err(NeatError::NonContiguousLevels);
            }
            i += 1;
        }
        let n_out = output_level.len();
        let mut j: usize = 0;
        while j < n_out
            invariant
                n_out == output_level@.len(),
                n_in == input_level@.len(),
                levels_contiguous(input_level@, Seq::<usize>::empty()),
                j <= n_out,
                *self == *old(self),
                old(self).wf(),
                forall|k: int| 0 <= k < j ==> output_level@[k] == n_in + k + 1,
            decreases n_out - j,
        {
            if output_level[j] <= n_in || output_level[j] - n_in != j + 1 {
                return Err(NeatError::NonContiguousLevels);
            }
            j += 1;
        }
        let sum: usize = if n_out == 0 { n_in } else { output_level[n_out - 1] };
        if sum > self.neuron_counter {
            self.neuron_counter = sum;
        }
        self.neuron_levels = (input_level, output_level);
        Ok(())
    }

    /// Mints a new hidden node id: the counter, incremented.
    pub fn inc_neuron(&mut self) -> (r: usize)
        requires
            old(self).wf(),
            old(self).neuron_counter < usize::MAX,
        ensures
            final(self).wf(),
            r == old(self).neuron_counter + 1,
            final(self).neuron_counter == r,
            final(self).innovations == old(self).innovations,
            final(self).neuron_levels == old(self).neuron_levels,
            r != 0,
            !old(self).inputs().contains(r),
            !old(self).outputs().contains(r),
            forall|i: int| 0 <= i < old(self).features().len()
                ==> (#[trigger] old(self).features()[i]).0 != r && old(self).features()[i].1 != r,
    {
        self.neuron_counter = self.neuron_counter + 1;
        proof {
            if old(self).inputs().contains(self.neuron_counter) {
                let k = choose|k: int| 0 <= k < old(self).inputs().len() && old(self).inputs()[k] == self.neuron_counter;
            }
            if old(self).outputs().contains(self.neuron_counter) {
                let k = choose|k: int| 0 <= k < old(self).outputs().len() && old(self).outputs()[k] == self.neuron_counter;
            }
        }
        self.neuron_counter
    }

    /// A registry with the given levels and starting features, registered in
    /// order, so that the i-th gets id i.
    pub fn init(neuron_levels: (Vec<usize>, Vec<usize>), starting_innovations: Vec<RawInnovation>) -> (r: Result<InnovationTable, NeatError>)
        ensures
            match r {
                Ok(t) => {
                    &&& t.wf()
                    &&& t.inputs() == neuron_levels.0@
                    &&& t.outputs() == neuron_levels.1@
                    &&& t.neuron_counter == raised_all(
                        (neuron_levels.0@.len() + neuron_levels.1@.len()) as usize,
                        starting_innovations@,
                    )
                    &&& t.features() == starting_innovations@
                },
                Err(e) => {
                    &&& !levels_contiguous(neuron_levels.0@, neuron_levels.1@) ==> e == NeatError::NonContiguousLevels
                    &&& levels_contiguous(neuron_levels.0@, neuron_levels.1@) ==> e == NeatError::DuplicateFeature
                },
            },
            r is Ok <==> levels_contiguous(neuron_levels.0@, neuron_levels.1@)
                && starting_innovations@.no_duplicates(),
    {
        let mut table = InnovationTable::new();
        let (inputs, outputs) = neuron_levels;
        match table.set_levels(inputs, outputs) {
            Ok(()) => {},
            Err(e) => { return Err(e); },
        }
        assert(starting_innovations@.subrange(0, 0) =~= Seq::<RawInnovation>::empty());
        let mut i: usize = 0;
        while i < starting_innovations.len()
            invariant
                table.wf(),
                i <= starting_innovations@.len(),
                table.features() == starting_innovations@.subrange(0, i as int),
                table.inputs() == neuron_levels.0@,
                table.outputs() == neuron_levels.1@,
                table.neuron_counter == raised_all(
                    (neuron_levels.0@.len() + neuron_levels.1@.len()) as usize,
                    starting_innovations@.subrange(0, i as int),
                ),
            decreases starting_innovations@.len() - i,
        {
            let raw = starting_innovations[i];
            match table.add_innovation(raw) {
                Ok(_) => {},
                Err(e) => {
                    proof {
                        assert(table.features().contains(raw));
                        let k = choose|k: int| 0 <= k < i && starting_innovations@.subrange(0, i as int)[k] == raw;
                        assert(starting_innovations@[k] == starting_innovations@[i as int]);
                    }
                    return Err(e);
                },
            }
            assert(table.features() =~= starting_innovations@.subrange(0, i + 1));
            assert(starting_innovations@.subrange(0, i + 1).drop_last() =~= starting_innovations@.subrange(0, i as int));
            i += 1;
        }
        assert(starting_innovations@.subrange(0, i as int) =~= starting_innovations@);
        proof {
            assert forall|a: int, b: int| 0 <= a < starting_innovations@.len() && 0 <= b < starting_innovations@.len() && a != b
                implies starting_innovations@[a] != starting_innovations@[b] by {
                assert(table.features()[a] == table.innovations@[a].raw());
                assert(table.features()[b] == table.innovations@[b].raw());
            }
        }
        Ok(table)
    }
}

} // verus!
