use vstd::prelude::*;
use rand::Rng;
use crate::error::NeatError;
use crate::genome::Genome;
use crate::innovation::{raised, InnovationTable, RawInnovation, Type};
use crate::network::{
    acyclic, cites_unknown, edges_out_of, edges_within, enters_input, find_index, genome_edges, leaves_output,
    lemma_edges_enable, lemma_edges_feature_prefix, spec_edges, NeuralNetwork,
};

verus! {

/// The features after asking for `raw`: unchanged if present, else with
/// `raw` appended.
pub open spec fn registered(feats: Seq<RawInnovation>, raw: RawInnovation) -> Seq<RawInnovation> {
    if feats.contains(raw) {
        feats
    } else {
        feats.push(raw)
    }
}

/// A genome after asking for gene `id`: the gene is enabled where present,
/// else appended with weight `w`, enabled.
pub open spec fn connected<W>(g: (Seq<usize>, Seq<W>, Seq<bool>), id: usize, w: W) -> (Seq<usize>, Seq<W>, Seq<bool>) {
    if g.0.contains(id) {
        (g.0, g.1, g.2.update(g.0.index_of(id), true))
    } else {
        (g.0.push(id), g.1.push(w), g.2.push(true))
    }
}

/// The connection `(from, to)` as a feature.
pub open spec fn conn_feature(from: usize, to: usize) -> RawInnovation {
    (from, to, Type::Connector)
}

/// The genome compiles: its sequences agree in length, it cites only
/// registered features, no edge enters an input and the edges hold no cycle.
pub open spec fn compiles<W>(g: Genome<W>, t: InnovationTable) -> bool {
    &&& g.same_lengths()
    &&& !cites_unknown(g.0@, t.features().len())
    &&& !enters_input(genome_edges(g, t), t.inputs())
    &&& acyclic(genome_edges(g, t))
}

impl<W> NeuralNetwork<W> {
    /// `(a, b)` may become a new connection: both are nodes, `a` is not an
    /// output, `b` is neither the bias nor an input, `b` lies in a strictly
    /// later layer than `a`, and no edge `(a, b)` exists yet.
    pub open spec fn legal(&self, a: usize, b: usize) -> bool {
        &&& self.ids().contains(a)
        &&& self.ids().contains(b)
        &&& !self.neuron_levels.1@.contains(a)
        &&& b != 0
        &&& !self.neuron_levels.0@.contains(b)
        &&& self.layer_of(a) < self.layer_of(b)
        &&& !exists|e: int| 0 <= e < self.edges().len() && #[trigger] self.edges()[e].0 == a && self.edges()[e].1 == b
    }
}

fn edge_exists<W>(net: &NeuralNetwork<W>, i: usize, j: usize) -> (r: bool)
    requires
        net.wf(),
        i < net.neurons@.len(),
        j < net.neurons@.len(),
    ensures
        r == exists|e: int| 0 <= e < net.edges().len() && #[trigger] net.edges()[e].0 == net.ids()[i as int]
            && net.edges()[e].1 == net.ids()[j as int],
{
    let ghost es = net.edges();
    let ghost ids = net.ids();
    let m = net.connectors.len();
    proof {
        crate::network::lemma_edges_out_of(es, ids[i as int]);
        assert(net.neurons@[i as int].to_arr@ == edges_out_of(es, ids[i as int]));
    }
    let outs = &net.neurons[i].to_arr;
    let mut b: usize = 0;
    while b < outs.len()
        invariant
            net.wf(),
            es == net.edges(),
            ids == net.ids(),
            i < net.neurons@.len(),
            j < net.neurons@.len(),
            *outs == net.neurons@[i as int].to_arr,
            outs@ == edges_out_of(es, ids[i as int]),
            forall|x: int| 0 <= x < outs@.len() ==> (#[trigger] outs@[x]) < es.len() && es[outs@[x] as int].0 == ids[i as int],
            forall|e: int| 0 <= e < es.len() && es[e].0 == ids[i as int] ==> #[trigger] outs@.contains(e as usize),
            es.len() == m,
            b <= outs@.len(),
            forall|x: int| 0 <= x < b ==> es[#[trigger] outs@[x] as int].1 != ids[j as int],
        decreases outs@.len() - b,
    {
        let e = outs[b];
        assert(e < es.len());
        assert(net.sources@[e as int] < net.neurons@.len());
        if net.targets[e] == j {
            assert(es[e as int].1 == ids[j as int]);
            return true;
        }
        assert(ids[net.targets@[e as int] as int] == es[e as int].1);
        assert(net.targets@[e as int] < net.neurons@.len());
        assert(es[outs@[b as int] as int].1 != ids[j as int]);
        b += 1;
    }
    assert forall|e: int| 0 <= e < es.len() && #[trigger] es[e].0 == ids[i as int] implies es[e].1 != ids[j as int] by {
        assert(outs@.contains(e as usize));
        let x = choose|x: int| 0 <= x < outs@.len() && outs@[x] == e as usize;
    }
    false
}

/// Every legal new connection of the network, each once.
pub fn get_all_connections<W>(net: &NeuralNetwork<W>) -> (r: Vec<(usize, usize)>)
    requires
        net.wf(),
    ensures
        r@.no_duplicates(),
        forall|p: (usize, usize)| r@.contains(p) <==> net.legal(p.0, p.1),
{
    let ghost ids = net.ids();
    let n = net.neurons.len();
    let mut r: Vec<(usize, usize)> = Vec::new();
    let mut i: usize = 0;
    while i < n
        invariant
            net.wf(),
            ids == net.ids(),
            n == net.neurons@.len(),
            i <= n,
            r@.no_duplicates(),
            forall|p: (usize, usize)| r@.contains(p) <==> net.legal(p.0, p.1) && ids.index_of(p.0) < i,
        decreases n - i,
    {
        let mut j: usize = 0;
        while j < n
            invariant
                net.wf(),
                ids == net.ids(),
                n == net.neurons@.len(),
                i < n,
                j <= n,
                r@.no_duplicates(),
                forall|p: (usize, usize)| r@.contains(p) <==> net.legal(p.0, p.1)
                    && (ids.index_of(p.0) < i || (ids.index_of(p.0) == i && ids.index_of(p.1) < j)),
            decreases n - j,
        {
            let a = net.neurons[i].id;
            let b = net.neurons[j].id;
            proof {
                assert(ids[i as int] == a && ids[j as int] == b);
                assert(ids.contains(a) && ids.contains(b));
                assert(ids.index_of(a) == i);
                assert(ids.index_of(b) == j);
            }
            if net.depth[i] < net.depth[j]
                && find_index(&net.neuron_levels.1, a).is_none()
                && b != 0
                && find_index(&net.neuron_levels.0, b).is_none()
                && !edge_exists(net, i, j)
            {
                let ghost old_r = r@;
                r.push((a, b));
                proof {
                    assert(net.legal(a, b));
                    assert(!old_r.contains((a, b)));
                    assert forall|p: (usize, usize)| r@.contains(p) <==> net.legal(p.0, p.1)
                        && (ids.index_of(p.0) < i || (ids.index_of(p.0) == i && ids.index_of(p.1) < j + 1)) by {
                        if r@.contains(p) && !old_r.contains(p) {
                            let x = choose|x: int| 0 <= x < r@.len() && r@[x] == p;
                            assert(x == old_r.len());
                        }
                        if old_r.contains(p) {
                            let x = choose|x: int| 0 <= x < old_r.len() && old_r[x] == p;
                            assert(r@[x] == p);
                        }
                        if net.legal(p.0, p.1) && ids.index_of(p.0) == i && ids.index_of(p.1) == j {
                            let x0 = choose|x: int| 0 <= x < ids.len() && ids[x] == p.0;
                            let x1 = choose|x: int| 0 <= x < ids.len() && ids[x] == p.1;
                            assert(p == (a, b));
                            assert(r@[old_r.len() as int] == p);
                        }
                    }
                    assert forall|x: int, y: int| 0 <= x < r@.len() && 0 <= y < r@.len() && x != y implies r@[x] != r@[y] by {
                        if x < old_r.len() && y < old_r.len() {
                            assert(old_r[x] == r@[x] && old_r[y] == r@[y]);
                        } else if x < old_r.len() {
                            assert(old_r.contains(r@[x]));
                        } else if y < old_r.len() {
                            assert(old_r.contains(r@[y]));
                        }
                    }
                }
            } else {
                proof {
                    assert(!net.legal(a, b));
                    assert forall|p: (usize, usize)| r@.contains(p) <==> net.legal(p.0, p.1)
                        && (ids.index_of(p.0) < i || (ids.index_of(p.0) == i && ids.index_of(p.1) < j + 1)) by {
                        if net.legal(p.0, p.1) && ids.index_of(p.0) == i && ids.index_of(p.1) == j {
                            let x0 = choose|x: int| 0 <= x < ids.len() && ids[x] == p.0;
                            let x1 = choose|x: int| 0 <= x < ids.len() && ids[x] == p.1;
                            assert(p == (a, b));
                        }
                    }
                }
            }
            j += 1;
        }
        proof {
            assert forall|p: (usize, usize)| r@.contains(p) <==> net.legal(p.0, p.1) && ids.index_of(p.0) < i + 1 by {
                if net.legal(p.0, p.1) {
                    let x1 = choose|x: int| 0 <= x < ids.len() && ids[x] == p.1;
                    assert(ids.index_of(p.1) < n);
                }
            }
        }
        i += 1;
    }
    proof {
        assert forall|p: (usize, usize)| net.legal(p.0, p.1) implies ids.index_of(p.0) < n by {
            let x0 = choose|x: int| 0 <= x < ids.len() && ids[x] == p.0;
        }
    }
    r
}

/// Asks for the connection `(from, to)`: the registry's id for it is reused,
/// or a new one registered; the genome's gene with that id is enabled, or
/// appended with `weight`, enabled.
pub fn add_connector<W>(genome: &mut Genome<W>, table: &mut InnovationTable, connection: (usize, usize), weight: W)
    requires
        old(table).wf(),
        old(genome).same_lengths(),
        old(genome).0@.no_duplicates(),
    ensures
        final(table).wf(),
        final(table).neuron_levels == old(table).neuron_levels,
        final(table).neuron_counter == if old(table).features().contains(conn_feature(connection.0, connection.1)) {
            old(table).neuron_counter
        } else {
            raised(old(table).neuron_counter, conn_feature(connection.0, connection.1))
        },
        final(table).features() == registered(old(table).features(), conn_feature(connection.0, connection.1)),
        final(table).features().contains(conn_feature(connection.0, connection.1)),
        final(genome).parts() == connected(
            old(genome).parts(),
            final(table).features().index_of(conn_feature(connection.0, connection.1)) as usize,
            weight,
        ),
        final(genome).same_lengths(),
        final(genome).0@.no_duplicates(),
        !cites_unknown(old(genome).0@, old(table).features().len()) ==> {
            &&& !cites_unknown(final(genome).0@, final(table).features().len())
            &&& edges_within(
                genome_edges(*final(genome), *final(table)),
                genome_edges(*old(genome), *old(table)),
                connection.0,
                connection.1,
            )
        },
{
    let raw: RawInnovation = (connection.0, connection.1, Type::Connector);
    let id = match table.get_innovation(raw) {
        Some(id) => id,
        None => match table.add_innovation(raw) {
            Ok(id) => id,
            Err(_) => {
                assert(false);
                0
            },
        },
    };
    proof {
        let f = table.features();
        assert(f[id as int] == raw);
        assert(f.contains(raw));
        let k = f.index_of(raw);
        assert(table.innovations@[k].raw() == f[k]);
        assert(table.innovations@[id as int].raw() == f[id as int]);
        assert(k == id);
        if old(table).features().contains(raw) {
            assert(f == old(table).features());
        }
        assert(f.subrange(0, old(table).features().len() as int) =~= old(table).features());
        if !cites_unknown(old(genome).0@, old(table).features().len()) {
            lemma_edges_feature_prefix(old(genome).0@, old(genome).1@, old(genome).2@, old(table).features(), f);
        }
    }
    let ghost mid = spec_edges(old(genome).0@, old(genome).1@, old(genome).2@, table.features());
    match find_index(&genome.0, id) {
        Some(p) => {
            proof {
                assert(genome.0@.contains(id));
                assert(genome.0@.index_of(id) == p);
                lemma_edges_enable(genome.0@, genome.1@, genome.2@, table.features(), p as int);
            }
            genome.2.set(p, true);
            proof {
                assert(genome.2@ == old(genome).2@.update(p as int, true));
                if !cites_unknown(old(genome).0@, old(table).features().len()) {
                    assert forall|k: int| 0 <= k < genome.0@.len() implies !(#[trigger] genome.0@[k] >= table.features().len()) by {
                        assert(!(old(genome).0@[k] >= old(table).features().len()));
                    }
                }
            }
        },
        None => {
            let ghost g0 = genome.0@;
            genome.0.push(id);
            genome.1.push(weight);
            genome.2.push(true);
            proof {
                let ne = genome_edges(*genome, *table);
                assert(genome.0@.drop_last() =~= old(genome).0@);
                assert(genome.1@.drop_last() =~= old(genome).1@);
                assert(genome.2@.drop_last() =~= old(genome).2@);
                assert(ne == mid.push((connection.0, connection.1, weight)));
                if !cites_unknown(old(genome).0@, old(table).features().len()) {
                    assert forall|i: int| 0 <= i < ne.len() implies ((#[trigger] ne[i]).0 == connection.0 && ne[i].1 == connection.1)
                        || exists|j: int| 0 <= j < mid.len() && mid[j].0 == ne[i].0 && mid[j].1 == ne[i].1 by {
                        if i < mid.len() {
                            assert(mid[i] == ne[i]);
                        }
                    }
                    assert forall|k: int| 0 <= k < genome.0@.len() implies !(#[trigger] genome.0@[k] >= table.features().len()) by {
                        if k < g0.len() {
                            assert(!(old(genome).0@[k] >= old(table).features().len()));
                        }
                    }
                }
                assert forall|x: int, y: int| 0 <= x < genome.0@.len() && 0 <= y < genome.0@.len() && x != y
                    implies genome.0@[x] != genome.0@[y] by {
                    if x < g0.len() && y < g0.len() {
                        assert(g0[x] == genome.0@[x] && g0[y] == genome.0@[y]);
                    } else if x < g0.len() {
                        assert(g0.contains(genome.0@[x]));
                    } else if y < g0.len() {
                        assert(g0.contains(genome.0@[y]));
                    }
                }
            }
        },
    }
}

/// Splits the connection `(from, to)` with a newly minted hidden node `m`:
/// asks for the connections `(from, m)` and `(m, to)`, in that order, each as
/// `add_connector` does, and returns `m`. The id `m` is new: no registered
/// feature names it. When `from` and `to` are existing ids and the genome cites
/// only registered features, both connections are new features and both genes
/// are appended; the gene of `(from, to)`, if any, is left as it was.
pub fn add_node<W: Copy>(genome: &mut Genome<W>, table: &mut InnovationTable, connection: (usize, usize), weight: W) -> (m: usize)
    requires
        old(table).wf(),
        old(table).neuron_counter < usize::MAX,
        old(genome).same_lengths(),
        old(genome).0@.no_duplicates(),
    ensures
        m == old(table).neuron_counter + 1,
        m != 0,
        !old(table).inputs().contains(m),
        !old(table).outputs().contains(m),
        forall|i: int| 0 <= i < old(table).features().len()
            ==> (#[trigger] old(table).features()[i]).0 != m && old(table).features()[i].1 != m,
        final(table).wf(),
        final(table).neuron_levels == old(table).neuron_levels,
        final(table).neuron_counter == raised(raised(m, conn_feature(connection.0, m)), conn_feature(m, connection.1)),
        final(table).features() == registered(
            registered(old(table).features(), conn_feature(connection.0, m)),
            conn_feature(m, connection.1),
        ),
        final(genome).parts() == connected(
            connected(
                old(genome).parts(),
                registered(old(table).features(), conn_feature(connection.0, m)).index_of(conn_feature(connection.0, m)) as usize,
                weight,
            ),
            final(table).features().index_of(conn_feature(m, connection.1)) as usize,
            weight,
        ),
        final(genome).same_lengths(),
        final(genome).0@.no_duplicates(),
        !cites_unknown(old(genome).0@, old(table).features().len()) && connection.0 <= old(table).neuron_counter
            && connection.1 <= old(table).neuron_counter ==> {
            &&& final(table).features() == old(table).features().push(conn_feature(connection.0, m)).push(
                conn_feature(m, connection.1),
            )
            &&& final(genome).0@ == old(genome).0@.push(old(table).features().len() as usize).push(
                (old(table).features().len() + 1) as usize,
            )
            &&& final(genome).1@ == old(genome).1@.push(weight).push(weight)
            &&& final(genome).2@ == old(genome).2@.push(true).push(true)
            &&& final(table).neuron_counter == m
        },
{
    let m = table.inc_neuron();
    let ghost t1 = *table;
    let ghost g0 = *genome;
    add_connector(genome, table, (connection.0, m), weight);
    let ghost t2 = *table;
    let ghost g1 = *genome;
    add_connector(genome, table, (m, connection.1), weight);
    let n_feats = table.innovations.len();
    proof {
        let am = conn_feature(connection.0, m);
        let mb = conn_feature(m, connection.1);
        let f0 = old(table).features();
        assert(t1.features() == f0);
        assert(!f0.contains(am)) by {
            if f0.contains(am) {
                let i = choose|i: int| 0 <= i < f0.len() && f0[i] == am;
                assert(f0[i].1 != m);
            }
        }
        if f0.contains(mb) {
            let i = choose|i: int| 0 <= i < f0.len() && f0[i] == mb;
            assert(f0[i].0 != m);
        }
        if t2.features().contains(mb) {
            assert(t2.features() == f0.push(am));
            let i = choose|i: int| 0 <= i < t2.features().len() && t2.features()[i] == mb;
            if i < f0.len() {
                assert(f0[i] == mb);
            }
        }
        let big_l = f0.len();
        if !cites_unknown(old(genome).0@, big_l) && connection.0 <= old(table).neuron_counter
            && connection.1 <= old(table).neuron_counter {
            let f1 = f0.push(am);
            let f2 = f1.push(mb);
            assert(!f1.contains(mb)) by {
                if f1.contains(mb) {
                    let i = choose|i: int| 0 <= i < f1.len() && f1[i] == mb;
                    if i < f0.len() {
                        assert(f0[i] == mb);
                    }
                }
            }
            assert(table.features() == f2);
            assert(f1[big_l as int] == am);
            assert(f1.index_of(am) == big_l) by {
                let k = f1.index_of(am);
                assert(f1.contains(am));
                if k != big_l {
                    assert(f0[k] == am);
                }
            }
            assert(f2[big_l as int + 1] == mb);
            assert(f2.index_of(mb) == big_l + 1) by {
                let k = f2.index_of(mb);
                assert(f2.contains(mb));
                if k != big_l + 1 {
                    assert(f1[k] == mb);
                }
            }
            assert(n_feats == big_l + 2);
            assert(!g0.0@.contains(big_l as usize)) by {
                if g0.0@.contains(big_l as usize) {
                    let k = choose|k: int| 0 <= k < g0.0@.len() && g0.0@[k] == big_l as usize;
                    assert(!(g0.0@[k] >= big_l));
                }
            }
            let gl = g0.0@.push(big_l as usize);
            assert(g1.0@ == gl);
            assert(!gl.contains((big_l + 1) as usize)) by {
                if gl.contains((big_l + 1) as usize) {
                    let k = choose|k: int| 0 <= k < gl.len() && gl[k] == (big_l + 1) as usize;
                    if k < g0.0@.len() {
                        assert(g0.0@[k] == gl[k]);
                        assert(!(g0.0@[k] >= big_l));
                    }
                }
            }
        }
    }
    m
}

/// Relies on rand's `thread_rng().gen_range(0..n)`: a value drawn from
/// `0..n`, which panics on an empty range.
#[verifier::external_body]
fn random_below(n: usize) -> (r: usize)
    requires
        n > 0,
    ensures
        r < n,
{
    rand::thread_rng().gen_range(0..n)
}

/// Adds a connection drawn uniformly from the legal new connections of the
/// compiled genome. Fails as compiling fails, or with `NoLegalMutationTarget`
/// when there is no legal new connection; on failure nothing changes. On
/// success the genome still compiles: the new edge climbs the layering, so no
/// cycle arises, and it neither enters an input nor leaves an output.
pub fn add_random_connector<W: Copy>(genome: &mut Genome<W>, table: &mut InnovationTable, weight: W) -> (r: Result<(), NeatError>)
    requires
        old(table).wf(),
        old(genome).same_lengths(),
        old(genome).0@.no_duplicates(),
    ensures
        final(table).wf(),
        final(table).neuron_levels == old(table).neuron_levels,
        final(genome).same_lengths(),
        final(genome).0@.no_duplicates(),
        cites_unknown(old(genome).0@, old(table).features().len())
            ==> (r matches Err(NeatError::UnknownFeatureReference)),
        !cites_unknown(old(genome).0@, old(table).features().len())
            && enters_input(genome_edges(*old(genome), *old(table)), old(table).inputs())
            ==> (r matches Err(NeatError::InvalidInputTopology)),
        !cites_unknown(old(genome).0@, old(table).features().len())
            && !enters_input(genome_edges(*old(genome), *old(table)), old(table).inputs())
            && !acyclic(genome_edges(*old(genome), *old(table)))
            ==> (r matches Err(NeatError::CyclicTopology)),
        compiles(*old(genome), *old(table)) <==> (r is Ok || r matches Err(NeatError::NoLegalMutationTarget)),
        r is Err ==> *final(genome) == *old(genome) && *final(table) == *old(table),
        (r matches Err(NeatError::NoLegalMutationTarget)) ==> exists|net: NeuralNetwork<W>|
            #[trigger] net.compiled_from(*old(genome), *old(table))
                && forall|a: usize, b: usize| !net.legal(a, b),
        r is Ok ==> {
            &&& final(table).neuron_counter == old(table).neuron_counter
            &&& compiles(*final(genome), *final(table))
            &&& !leaves_output(genome_edges(*old(genome), *old(table)), old(table).outputs())
                ==> !leaves_output(genome_edges(*final(genome), *final(table)), final(table).outputs())
            &&& exists|net: NeuralNetwork<W>, a: usize, b: usize| {
                &&& #[trigger] net.compiled_from(*old(genome), *old(table))
                &&& #[trigger] net.legal(a, b)
                &&& final(table).features() == registered(old(table).features(), conn_feature(a, b))
                &&& final(genome).parts() == connected(
                    old(genome).parts(),
                    final(table).features().index_of(conn_feature(a, b)) as usize,
                    weight,
                )
            }
        },
{
    let net = match NeuralNetwork::init(genome, table) {
        Ok(net) => net,
        Err(e) => {
            return Err(e);
        },
    };
    let pairs = get_all_connections(&net);
    if pairs.len() == 0 {
        proof {
            assert forall|a: usize, b: usize| !net.legal(a, b) by {
                assert(!pairs@.contains((a, b)));
            }
        }
        return Err(NeatError::NoLegalMutationTarget);
    }
    let k = random_below(pairs.len());
    let p = pairs[k];
    let ghost g0 = *genome;
    let ghost t0 = *table;
    proof {
        assert(pairs@.contains(p));
        assert(net.legal(p.0, p.1));
        crate::network::lemma_nodes_below_counter(g0, t0, net);
        crate::laws::lemma_facts_edges(net);
    }
    add_connector(genome, table, p, weight);
    proof {
        let (a, b) = p;
        let old_es = genome_edges(g0, t0);
        let new_es = genome_edges(*genome, *table);
        assert(old_es == net.edges());
        assert forall|e: int| 0 <= e < new_es.len() implies !(new_es[e].1 == 0 || t0.inputs().contains(#[trigger] new_es[e].1)) by {
            if !(new_es[e].0 == a && new_es[e].1 == b) {
                let j = choose|j: int| 0 <= j < old_es.len() && old_es[j].0 == new_es[e].0 && old_es[j].1 == new_es[e].1;
                assert(!(old_es[j].1 == 0 || t0.inputs().contains(old_es[j].1)));
            }
        }
        let rank = |x: usize| net.layer_of(x) as nat;
        assert forall|e: int| 0 <= e < new_es.len() implies rank(#[trigger] new_es[e].0) < rank(new_es[e].1) by {
            if !(new_es[e].0 == a && new_es[e].1 == b) {
                let j = choose|j: int| 0 <= j < old_es.len() && old_es[j].0 == new_es[e].0 && old_es[j].1 == new_es[e].1;
                assert(net.layer_of(old_es[j].0) < net.layer_of(old_es[j].1));
            }
        }
        assert(crate::network::ranks_ids(rank, new_es));
        if !leaves_output(old_es, t0.outputs()) {
            assert forall|e: int| 0 <= e < new_es.len() implies !t0.outputs().contains(#[trigger] new_es[e].0) by {
                if !(new_es[e].0 == a && new_es[e].1 == b) {
                    let j = choose|j: int| 0 <= j < old_es.len() && old_es[j].0 == new_es[e].0 && old_es[j].1 == new_es[e].1;
                    assert(!t0.outputs().contains(old_es[j].0));
                }
            }
        }
    }
    Ok(())
}

/// Splits a connection drawn uniformly from the legal new connections of the
/// compiled genome, as `add_node` does, and returns the new node `m`. Fails as
/// `add_random_connector` does; on failure nothing changes. On success `m`
/// is an id no feature named before, both connection genes are appended, the
/// genome still compiles, and in every network compiled from it `m` sits in a
/// layer strictly between those of the split connection's ends.
pub fn add_random_node<W: Copy>(genome: &mut Genome<W>, table: &mut InnovationTable, weight: W) -> (r: Result<usize, NeatError>)
    requires
        old(table).wf(),
        old(table).neuron_counter < usize::MAX,
        old(genome).same_lengths(),
        old(genome).0@.no_duplicates(),
    ensures
        final(table).wf(),
        final(table).neuron_levels == old(table).neuron_levels,
        final(genome).same_lengths(),
        final(genome).0@.no_duplicates(),
        cites_unknown(old(genome).0@, old(table).features().len())
            ==> (r matches Err(NeatError::UnknownFeatureReference)),
        !cites_unknown(old(genome).0@, old(table).features().len())
            && enters_input(genome_edges(*old(genome), *old(table)), old(table).inputs())
            ==> (r matches Err(NeatError::InvalidInputTopology)),
        !cites_unknown(old(genome).0@, old(table).features().len())
            && !enters_input(genome_edges(*old(genome), *old(table)), old(table).inputs())
            && !acyclic(genome_edges(*old(genome), *old(table)))
            ==> (r matches Err(NeatError::CyclicTopology)),
        compiles(*old(genome), *old(table)) <==> (r is Ok || r matches Err(NeatError::NoLegalMutationTarget)),
        r is Err ==> *final(genome) == *old(genome) && *final(table) == *old(table),
        (r matches Err(NeatError::NoLegalMutationTarget)) ==> exists|net: NeuralNetwork<W>|
            #[trigger] net.compiled_from(*old(genome), *old(table))
                && forall|a: usize, b: usize| !net.legal(a, b),
        r matches Ok(m) ==> {
            &&& m == old(table).neuron_counter + 1
            &&& final(table).neuron_counter == m
            &&& forall|i: int| 0 <= i < old(table).features().len()
                ==> (#[trigger] old(table).features()[i]).0 != m && old(table).features()[i].1 != m
            &&& compiles(*final(genome), *final(table))
            &&& !leaves_output(genome_edges(*old(genome), *old(table)), old(table).outputs())
                ==> !leaves_output(genome_edges(*final(genome), *final(table)), final(table).outputs())
            &&& exists|net: NeuralNetwork<W>, a: usize, b: usize| {
                &&& #[trigger] net.compiled_from(*old(genome), *old(table))
                &&& #[trigger] net.legal(a, b)
                &&& final(table).features() == old(table).features().push(conn_feature(a, m)).push(conn_feature(m, b))
                &&& final(genome).0@ == old(genome).0@.push(old(table).features().len() as usize).push(
                    (old(table).features().len() + 1) as usize,
                )
                &&& final(genome).1@ == old(genome).1@.push(weight).push(weight)
                &&& final(genome).2@ == old(genome).2@.push(true).push(true)
                &&& forall|net2: NeuralNetwork<W>| #[trigger] net2.compiled_from(*final(genome), *final(table)) ==> {
                    &&& net2.layer_of(a) < net2.layer_of(m) < net2.layer_of(b)
                    &&& forall|i: int, j: int, k: int|
                        0 <= i < net2.layers@.len() && 0 <= j < net2.layers@.len() && 0 <= k < net2.layers@.len()
                            && #[trigger] net2.layers@[i]@.contains(a) && #[trigger] net2.layers@[j]@.contains(m)
                            && #[trigger] net2.layers@[k]@.contains(b) ==> i < j < k
                }
            }
        },
{
    let net = match NeuralNetwork::init(genome, table) {
        Ok(net) => net,
        Err(e) => {
            return Err(e);
        },
    };
    let pairs = get_all_connections(&net);
    if pairs.len() == 0 {
        proof {
            assert forall|a: usize, b: usize| !net.legal(a, b) by {
                assert(!pairs@.contains((a, b)));
            }
        }
        return Err(NeatError::NoLegalMutationTarget);
    }
    let k = random_below(pairs.len());
    let p = pairs[k];
    let ghost g0 = *genome;
    let ghost t0 = *table;
    proof {
        assert(pairs@.contains(p));
        assert(net.legal(p.0, p.1));
        crate::network::lemma_nodes_below_counter(g0, t0, net);
        crate::laws::lemma_facts_edges(net);
        crate::network::lemma_edge_from_feature(g0.0@, g0.1@, g0.2@, t0.features());
    }
    let m = add_node(genome, table, p, weight);
    let n_feats = table.innovations.len();
    proof {
        let (a, b) = p;
        let big_l = t0.features().len();
        let f2 = table.features();
        let old_es = genome_edges(g0, t0);
        let new_es = genome_edges(*genome, *table);
        assert(old_es == net.edges());
        assert(f2.subrange(0, big_l as int) =~= t0.features());
        lemma_edges_feature_prefix(g0.0@, g0.1@, g0.2@, t0.features(), f2);
        let g1 = g0.0@.push(big_l as usize);
        assert(genome.0@.drop_last() =~= g1);
        assert(genome.1@.drop_last() =~= g0.1@.push(weight));
        assert(genome.2@.drop_last() =~= g0.2@.push(true));
        assert(g1.drop_last() =~= g0.0@);
        assert(g0.1@.push(weight).drop_last() =~= g0.1@);
        assert(g0.2@.push(true).drop_last() =~= g0.2@);
        assert(f2[big_l as int] == conn_feature(a, m));
        assert(f2[big_l as int + 1] == conn_feature(m, b));
        let mid = spec_edges(g1, g0.1@.push(weight), g0.2@.push(true), f2);
        assert(g1.last() == big_l as usize);
        assert(mid == spec_edges(g0.0@, g0.1@, g0.2@, f2).push((a, m, weight)));
        assert(genome.0@.last() == (big_l + 1) as usize);
        assert(genome.1@.last() == weight);
        assert(genome.2@.last());
        assert(new_es == spec_edges(genome.0@, genome.1@, genome.2@, f2));
        assert(new_es == mid.push((m, b, weight)));
        assert(new_es == old_es.push((a, m, weight)).push((m, b, weight)));
        let la = net.layer_of(a);
        let rank = |x: usize| if x == m { (2 * la + 1) as nat } else { (2 * net.layer_of(x)) as nat };
        assert forall|e: int| 0 <= e < old_es.len() implies old_es[e].0 != m && old_es[e].1 != m by {
            let q = choose|q: int| 0 <= q < g0.0@.len() && t0.features()[g0.0@[q] as int].0 == (#[trigger] old_es[e]).0
                && t0.features()[g0.0@[q] as int].1 == old_es[e].1;
            assert(!(g0.0@[q] >= big_l));
            assert(t0.features()[g0.0@[q] as int].0 != m);
        }
        assert forall|e: int| 0 <= e < new_es.len() implies rank(#[trigger] new_es[e].0) < rank(new_es[e].1) by {
            if e < old_es.len() {
                assert(new_es[e] == old_es[e]);
                assert(old_es[e].0 != m && old_es[e].1 != m);
                assert(net.layer_of(old_es[e].0) < net.layer_of(old_es[e].1));
            }
        }
        assert(crate::network::ranks_ids(rank, new_es));
        assert forall|e: int| 0 <= e < new_es.len() implies !(new_es[e].1 == 0 || t0.inputs().contains(#[trigger] new_es[e].1)) by {
            if e < old_es.len() {
                assert(new_es[e] == old_es[e]);
            }
        }
        assert forall|q: int| 0 <= q < genome.0@.len() implies !(#[trigger] genome.0@[q] >= f2.len()) by {
            if q < g0.0@.len() {
                assert(genome.0@[q] == g0.0@[q]);
            }
        }
        if !leaves_output(old_es, t0.outputs()) {
            assert forall|e: int| 0 <= e < new_es.len() implies !t0.outputs().contains(#[trigger] new_es[e].0) by {
                if e < old_es.len() {
                    assert(new_es[e] == old_es[e]);
                }
            }
        }
        assert forall|net2: NeuralNetwork<W>| #[trigger] net2.compiled_from(*genome, *table) implies {
            &&& net2.layer_of(a) < net2.layer_of(m) < net2.layer_of(b)
            &&& forall|i: int, j: int, k: int|
                0 <= i < net2.layers@.len() && 0 <= j < net2.layers@.len() && 0 <= k < net2.layers@.len()
                    && #[trigger] net2.layers@[i]@.contains(a) && #[trigger] net2.layers@[j]@.contains(m)
                    && #[trigger] net2.layers@[k]@.contains(b) ==> i < j < k
        } by {
            crate::laws::lemma_split_node_between(g0, t0, *genome, *table, a, b, m, weight, net2);
        }
        assert(net.compiled_from(g0, t0) && net.legal(a, b));
    }
    Ok(m)
}

} // verus!
