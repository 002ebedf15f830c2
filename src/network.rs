use vstd::prelude::*;
use crate::error::NeatError;
use crate::genome::Genome;
use crate::innovation::{InnovationTable, RawInnovation, Type};
use crate::layering::{arena_acyclic, arena_ok, concat_layers, layer_network, layering_ok, lemma_concat_contains, ranks_edges};

verus! {

/// A runtime edge between two node ids.
pub struct Connector<W> {
    pub from: usize,
    pub to: usize,
    pub weight: W,
}

impl<W> Connector<W> {
    pub open spec fn triple(self) -> (usize, usize, W) {
        (self.from, self.to, self.weight)
    }
}

/// The edges that a genome contributes: one for each enabled gene whose
/// feature is a connection, in gene order.
pub open spec fn spec_edges<W>(
    genes: Seq<usize>,
    weights: Seq<W>,
    enabled: Seq<bool>,
    feats: Seq<RawInnovation>,
) -> Seq<(usize, usize, W)>
    decreases genes.len(),
{
    if genes.len() == 0 {
        Seq::empty()
    } else {
        let k = genes.len() - 1;
        let prev = spec_edges(genes.drop_last(), weights.drop_last(), enabled.drop_last(), feats);
        let f = feats[genes[k] as int];
        if enabled[k] && f.2 == Type::Connector {
            prev.push((f.0, f.1, weights[k]))
        } else {
            prev
        }
    }
}

/// The edges of a genome, read through the registry.
pub open spec fn genome_edges<W>(g: Genome<W>, t: InnovationTable) -> Seq<(usize, usize, W)> {
    spec_edges(g.0@, g.1@, g.2@, t.features())
}

/// Some gene cites an id the registry does not hold.
pub open spec fn cites_unknown(genes: Seq<usize>, n_features: nat) -> bool {
    exists|k: int| 0 <= k < genes.len() && genes[k] >= n_features
}

fn collect_edges<W: Copy>(genome: &Genome<W>, table: &InnovationTable) -> (r: Vec<Connector<W>>)
    requires
        table.wf(),
        genome.same_lengths(),
        !cites_unknown(genome.0@, table.features().len()),
    ensures
        r@.map_values(|c: Connector<W>| c.triple()) == genome_edges(*genome, *table),
{
    let mut r: Vec<Connector<W>> = Vec::new();
    let mut i: usize = 0;
    while i < genome.0.len()
        invariant
            table.wf(),
            genome.same_lengths(),
            !cites_unknown(genome.0@, table.features().len()),
            i <= genome.0@.len(),
            r@.map_values(|c: Connector<W>| c.triple()) == spec_edges(
                genome.0@.subrange(0, i as int),
                genome.1@.subrange(0, i as int),
                genome.2@.subrange(0, i as int),
                table.features(),
            ),
        decreases genome.0@.len() - i,
    {
        let id = genome.0[i];
        assert(!(genome.0@[i as int] >= table.features().len()));
        let f = table.innovations[id];
        assert(table.features()[id as int] == f.raw());
        let ghost gs = genome.0@.subrange(0, i + 1);
        let ghost ws = genome.1@.subrange(0, i + 1);
        let ghost es = genome.2@.subrange(0, i + 1);
        assert(gs.drop_last() =~= genome.0@.subrange(0, i as int));
        assert(ws.drop_last() =~= genome.1@.subrange(0, i as int));
        assert(es.drop_last() =~= genome.2@.subrange(0, i as int));
        if genome.2[i] && f.kind == Type::Connector {
            let w = genome.1[i];
            r.push(Connector { from: f.from, to: f.to, weight: w });
        }
        assert(r@.map_values(|c: Connector<W>| c.triple()) =~= spec_edges(gs, ws, es, table.features()));
        i += 1;
    }
    assert(genome.0@.subrange(0, i as int) =~= genome.0@);
    assert(genome.1@.subrange(0, i as int) =~= genome.1@);
    assert(genome.2@.subrange(0, i as int) =~= genome.2@);
    r
}

/// Every edge of `new` joins two nodes already joined in `old`, or is `(a, b)`.
pub open spec fn edges_within<W>(new: Seq<(usize, usize, W)>, old: Seq<(usize, usize, W)>, a: usize, b: usize) -> bool {
    forall|i: int| 0 <= i < new.len() ==> ((#[trigger] new[i]).0 == a && new[i].1 == b)
        || exists|j: int| 0 <= j < old.len() && old[j].0 == new[i].0 && old[j].1 == new[i].1
}

/// Some edge starts at a declared output.
pub open spec fn leaves_output<W>(es: Seq<(usize, usize, W)>, outputs: Seq<usize>) -> bool {
    exists|e: int| 0 <= e < es.len() && outputs.contains(#[trigger] es[e].0)
}

/// The edges depend only on the features the genes cite.
pub proof fn lemma_edges_feature_prefix<W>(
    genes: Seq<usize>,
    weights: Seq<W>,
    enabled: Seq<bool>,
    feats: Seq<RawInnovation>,
    feats2: Seq<RawInnovation>,
)
    requires
        genes.len() == weights.len(),
        genes.len() == enabled.len(),
        !cites_unknown(genes, feats.len()),
        feats.len() <= feats2.len(),
        feats2.subrange(0, feats.len() as int) == feats,
    ensures
        spec_edges(genes, weights, enabled, feats) == spec_edges(genes, weights, enabled, feats2),
    decreases genes.len(),
{
    if genes.len() > 0 {
        let k = genes.len() - 1;
        assert(!(genes[k] >= feats.len()));
        assert(feats2[genes[k] as int] == feats2.subrange(0, feats.len() as int)[genes[k] as int]);
        assert forall|j: int| 0 <= j < genes.drop_last().len() implies !(#[trigger] genes.drop_last()[j] >= feats.len()) by {
            assert(genes.drop_last()[j] == genes[j]);
            assert(!(genes[j] >= feats.len()));
        }
        lemma_edges_feature_prefix(genes.drop_last(), weights.drop_last(), enabled.drop_last(), feats, feats2);
    }
}

/// Every edge comes from an enabled connection gene, and joins the nodes its
/// feature names.
pub proof fn lemma_edge_from_feature<W>(genes: Seq<usize>, weights: Seq<W>, enabled: Seq<bool>, feats: Seq<RawInnovation>)
    requires
        genes.len() == weights.len(),
        genes.len() == enabled.len(),
    ensures
        forall|i: int| 0 <= i < spec_edges(genes, weights, enabled, feats).len() ==> exists|k: int|
            0 <= k < genes.len() && feats[genes[k] as int].0 == (#[trigger] spec_edges(genes, weights, enabled, feats)[i]).0
                && feats[genes[k] as int].1 == spec_edges(genes, weights, enabled, feats)[i].1,
    decreases genes.len(),
{
    if genes.len() > 0 {
        let k = genes.len() - 1;
        let prev = spec_edges(genes.drop_last(), weights.drop_last(), enabled.drop_last(), feats);
        let full = spec_edges(genes, weights, enabled, feats);
        lemma_edge_from_feature(genes.drop_last(), weights.drop_last(), enabled.drop_last(), feats);
        assert forall|i: int| 0 <= i < full.len() implies exists|q: int|
            0 <= q < genes.len() && feats[genes[q] as int].0 == (#[trigger] full[i]).0 && feats[genes[q] as int].1 == full[i].1 by {
            if i < prev.len() {
                assert(full[i] == prev[i]);
                let q = choose|q: int| 0 <= q < genes.drop_last().len() && feats[genes.drop_last()[q] as int].0 == prev[i].0
                    && feats[genes.drop_last()[q] as int].1 == prev[i].1;
                assert(genes.drop_last()[q] == genes[q]);
            } else {
                assert(feats[genes[k] as int].0 == full[i].0);
            }
        }
    }
}

/// Enabling gene `p` adds at most the edge its feature names.
pub proof fn lemma_edges_enable<W>(genes: Seq<usize>, weights: Seq<W>, enabled: Seq<bool>, feats: Seq<RawInnovation>, p: int)
    requires
        genes.len() == weights.len(),
        genes.len() == enabled.len(),
        0 <= p < genes.len(),
    ensures
        edges_within(
            spec_edges(genes, weights, enabled.update(p, true), feats),
            spec_edges(genes, weights, enabled, feats),
            feats[genes[p] as int].0,
            feats[genes[p] as int].1,
        ),
    decreases genes.len(),
{
    let en2 = enabled.update(p, true);
    let new = spec_edges(genes, weights, en2, feats);
    let old = spec_edges(genes, weights, enabled, feats);
    let a = feats[genes[p] as int].0;
    let b = feats[genes[p] as int].1;
    let k = genes.len() - 1;
    let pn = spec_edges(genes.drop_last(), weights.drop_last(), en2.drop_last(), feats);
    let po = spec_edges(genes.drop_last(), weights.drop_last(), enabled.drop_last(), feats);
    if p == k {
        assert(en2.drop_last() =~= enabled.drop_last());
        assert forall|i: int| 0 <= i < new.len() implies ((#[trigger] new[i]).0 == a && new[i].1 == b)
            || exists|j: int| 0 <= j < old.len() && old[j].0 == new[i].0 && old[j].1 == new[i].1 by {
            if i < pn.len() {
                assert(new[i] == pn[i]);
                assert(old[i] == po[i]);
            }
        }
    } else {
        assert(en2.drop_last() =~= enabled.drop_last().update(p, true));
        lemma_edges_enable(genes.drop_last(), weights.drop_last(), enabled.drop_last(), feats, p);
        assert(genes.drop_last()[p] == genes[p]);
        assert forall|i: int| 0 <= i < new.len() implies ((#[trigger] new[i]).0 == a && new[i].1 == b)
            || exists|j: int| 0 <= j < old.len() && old[j].0 == new[i].0 && old[j].1 == new[i].1 by {
            if i < pn.len() {
                assert(new[i] == pn[i]);
                if !(pn[i].0 == a && pn[i].1 == b) {
                    let j = choose|j: int| 0 <= j < po.len() && po[j].0 == pn[i].0 && po[j].1 == pn[i].1;
                    assert(old[j] == po[j]);
                }
            } else {
                assert(old[po.len() as int] == new[i]);
            }
        }
    }
}

/// A node of the compiled network: its id and the indices of the edges that
/// end at it and that start at it, each in increasing order.
pub struct Neuron {
    pub id: usize,
    pub from_arr: Vec<usize>,
    pub to_arr: Vec<usize>,
}

/// Indices, in increasing order, of the edges that end at node `n`.
pub open spec fn edges_into<W>(es: Seq<(usize, usize, W)>, n: usize) -> Seq<usize>
    decreases es.len(),
{
    if es.len() == 0 {
        Seq::empty()
    } else {
        let prev = edges_into(es.drop_last(), n);
        if es.last().1 == n {
            prev.push((es.len() - 1) as usize)
        } else {
            prev
        }
    }
}

/// Indices, in increasing order, of the edges that start at node `n`.
pub open spec fn edges_out_of<W>(es: Seq<(usize, usize, W)>, n: usize) -> Seq<usize>
    decreases es.len(),
{
    if es.len() == 0 {
        Seq::empty()
    } else {
        let prev = edges_out_of(es.drop_last(), n);
        if es.last().0 == n {
            prev.push((es.len() - 1) as usize)
        } else {
            prev
        }
    }
}

/// The endpoints of the edges, in order: `from` then `to` of each.
pub open spec fn endpoints<W>(es: Seq<(usize, usize, W)>) -> Seq<usize>
    decreases es.len(),
{
    if es.len() == 0 {
        Seq::empty()
    } else {
        endpoints(es.drop_last()).push(es.last().0).push(es.last().1)
    }
}

/// The candidate node ids, with repetitions: the edge endpoints, the bias,
/// the declared inputs and the declared outputs.
pub open spec fn node_candidates<W>(es: Seq<(usize, usize, W)>, inputs: Seq<usize>, outputs: Seq<usize>) -> Seq<usize> {
    endpoints(es).push(0) + inputs + outputs
}

pub proof fn lemma_push_contains(s: Seq<usize>, x: usize, n: usize)
    ensures
        s.push(x).contains(n) <==> (s.contains(n) || n == x),
{
    if s.contains(n) {
        let k = choose|k: int| 0 <= k < s.len() && s[k] == n;
        assert(s.push(x)[k] == n);
    }
    if n == x {
        assert(s.push(x)[s.len() as int] == n);
    }
    if s.push(x).contains(n) {
        let k = choose|k: int| 0 <= k < s.len() + 1 && s.push(x)[k] == n;
        if k < s.len() {
            assert(s[k] == n);
        }
    }
}

pub(crate) fn find_index(ids: &Vec<usize>, n: usize) -> (r: Option<usize>)
    ensures
        match r {
            Some(j) => j < ids@.len() && ids@[j as int] == n,
            None => !ids@.contains(n),
        },
{
    let mut j: usize = 0;
    while j < ids.len()
        invariant
            j <= ids@.len(),
            forall|k: int| 0 <= k < j ==> ids@[k] != n,
        decreases ids@.len() - j,
    {
        if ids[j] == n {
            return Some(j);
        }
        j += 1;
    }
    None
}

fn push_unique(ids: &mut Vec<usize>, n: usize)
    requires
        old(ids)@.no_duplicates(),
    ensures
        final(ids)@.no_duplicates(),
        forall|m: usize| final(ids)@.contains(m) <==> (old(ids)@.contains(m) || m == n),
{
    if find_index(ids, n).is_none() {
        ids.push(n);
        assert forall|m: usize| ids@.contains(m) <==> (old(ids)@.contains(m) || m == n) by {
            lemma_push_contains(old(ids)@, n, m);
        }
    }
}

/// The node ids, each once, in order of first appearance: edge endpoints,
/// the bias, the inputs, the outputs.
fn collect_nodes<W>(edges: &Vec<Connector<W>>, inputs: &Vec<usize>, outputs: &Vec<usize>) -> (r: Vec<usize>)
    ensures
        r@.no_duplicates(),
        forall|n: usize| r@.contains(n) <==> node_candidates(
            edges@.map_values(|c: Connector<W>| c.triple()), inputs@, outputs@).contains(n),
{
    let ghost es = edges@.map_values(|c: Connector<W>| c.triple());
    let mut ids: Vec<usize> = Vec::new();
    let ghost mut cands: Seq<usize> = Seq::empty();
    let mut e: usize = 0;
    while e < edges.len()
        invariant
            es == edges@.map_values(|c: Connector<W>| c.triple()),
            e <= edges@.len(),
            ids@.no_duplicates(),
            cands == endpoints(es.subrange(0, e as int)),
            forall|n: usize| ids@.contains(n) <==> cands.contains(n),
        decreases edges@.len() - e,
    {
        let ghost c0 = cands;
        push_unique(&mut ids, edges[e].from);
        proof { cands = cands.push(es[e as int].0); }
        assert forall|n: usize| ids@.contains(n) <==> cands.contains(n) by {
            lemma_push_contains(c0, es[e as int].0, n);
        }
        let ghost c1 = cands;
        push_unique(&mut ids, edges[e].to);
        proof { cands = cands.push(es[e as int].1); }
        assert forall|n: usize| ids@.contains(n) <==> cands.contains(n) by {
            lemma_push_contains(c1, es[e as int].1, n);
        }
        assert(es.subrange(0, e + 1).drop_last() =~= es.subrange(0, e as int));
        e += 1;
    }
    assert(es.subrange(0, e as int) =~= es);
    let ghost c2 = cands;
    push_unique(&mut ids, 0);
    proof { cands = cands.push(0); }
    assert forall|n: usize| ids@.contains(n) <==> cands.contains(n) by {
        lemma_push_contains(c2, 0, n);
    }
    let mut i: usize = 0;
    while i < inputs.len()
        invariant
            i <= inputs@.len(),
            ids@.no_duplicates(),
            cands == endpoints(es).push(0) + inputs@.subrange(0, i as int),
            forall|n: usize| ids@.contains(n) <==> cands.contains(n),
        decreases inputs@.len() - i,
    {
        let ghost c0 = cands;
        push_unique(&mut ids, inputs[i]);
        proof { cands = cands.push(inputs@[i as int]); }
        assert forall|n: usize| ids@.contains(n) <==> cands.contains(n) by {
            lemma_push_contains(c0, inputs@[i as int], n);
        }
        assert(cands =~= endpoints(es).push(0) + inputs@.subrange(0, i + 1));
        i += 1;
    }
    assert(inputs@.subrange(0, i as int) =~= inputs@);
    let mut j: usize = 0;
    while j < outputs.len()
        invariant
            j <= outputs@.len(),
            ids@.no_duplicates(),
            cands == endpoints(es).push(0) + inputs@ + outputs@.subrange(0, j as int),
            forall|n: usize| ids@.contains(n) <==> cands.contains(n),
        decreases outputs@.len() - j,
    {
        let ghost c0 = cands;
        push_unique(&mut ids, outputs[j]);
        proof { cands = cands.push(outputs@[j as int]); }
        assert forall|n: usize| ids@.contains(n) <==> cands.contains(n) by {
            lemma_push_contains(c0, outputs@[j as int], n);
        }
        assert(cands =~= endpoints(es).push(0) + inputs@ + outputs@.subrange(0, j + 1));
        j += 1;
    }
    assert(outputs@.subrange(0, j as int) =~= outputs@);
    assert(cands =~= node_candidates(es, inputs@, outputs@));
    ids
}

proof fn lemma_endpoints_contain<W>(es: Seq<(usize, usize, W)>, e: int)
    requires
        0 <= e < es.len(),
    ensures
        endpoints(es).contains(es[e].0),
        endpoints(es).contains(es[e].1),
    decreases es.len(),
{
    let p = endpoints(es.drop_last());
    let q = endpoints(es);
    assert(q == p.push(es.last().0).push(es.last().1));
    if e == es.len() - 1 {
        assert(q[p.len() as int] == es[e].0);
        assert(q[p.len() as int + 1] == es[e].1);
    } else {
        lemma_endpoints_contain(es.drop_last(), e);
        let k0 = choose|k: int| 0 <= k < p.len() && p[k] == es[e].0;
        let k1 = choose|k: int| 0 <= k < p.len() && p[k] == es[e].1;
        assert(q[k0] == es[e].0);
        assert(q[k1] == es[e].1);
    }
}

/// Per-node edge lists, by arena index, and each edge's endpoints as arena
/// indices.
fn link<W>(edges: &Vec<Connector<W>>, ids: &Vec<usize>) -> (r: (Vec<Neuron>, Vec<usize>, Vec<usize>))
    requires
        ids@.no_duplicates(),
        forall|e: int| 0 <= e < edges@.len() ==> ids@.contains(edges@[e].from) && ids@.contains(edges@[e].to),
    ensures
        r.0@.len() == ids@.len(),
        forall|i: int| 0 <= i < ids@.len() ==> {
            &&& (#[trigger] r.0@[i]).id == ids@[i]
            &&& r.0@[i].from_arr@ == edges_into(edges@.map_values(|c: Connector<W>| c.triple()), ids@[i])
            &&& r.0@[i].to_arr@ == edges_out_of(edges@.map_values(|c: Connector<W>| c.triple()), ids@[i])
        },
        r.1@.len() == edges@.len(),
        r.2@.len() == edges@.len(),
        forall|e: int| 0 <= e < edges@.len() ==> {
            &&& (#[trigger] r.1@[e]) < ids@.len()
            &&& ids@[r.1@[e] as int] == edges@[e].from
            &&& r.2@[e] < ids@.len()
            &&& ids@[r.2@[e] as int] == edges@[e].to
        },
{
    let ghost es = edges@.map_values(|c: Connector<W>| c.triple());
    let mut neurons: Vec<Neuron> = Vec::new();
    let mut i: usize = 0;
    while i < ids.len()
        invariant
            i <= ids@.len(),
            neurons@.len() == i,
            forall|k: int| 0 <= k < i ==> {
                &&& (#[trigger] neurons@[k]).id == ids@[k]
                &&& neurons@[k].from_arr@ == Seq::<usize>::empty()
                &&& neurons@[k].to_arr@ == Seq::<usize>::empty()
            },
        decreases ids@.len() - i,
    {
        neurons.push(Neuron { id: ids[i], from_arr: Vec::new(), to_arr: Vec::new() });
        i += 1;
    }
    let mut src: Vec<usize> = Vec::new();
    let mut dst: Vec<usize> = Vec::new();
    let mut e: usize = 0;
    while e < edges.len()
        invariant
            es == edges@.map_values(|c: Connector<W>| c.triple()),
            ids@.no_duplicates(),
            forall|e: int| 0 <= e < edges@.len() ==> ids@.contains(edges@[e].from) && ids@.contains(edges@[e].to),
            e <= edges@.len(),
            neurons@.len() == ids@.len(),
            forall|k: int| 0 <= k < ids@.len() ==> {
                &&& (#[trigger] neurons@[k]).id == ids@[k]
                &&& neurons@[k].from_arr@ == edges_into(es.subrange(0, e as int), ids@[k])
                &&& neurons@[k].to_arr@ == edges_out_of(es.subrange(0, e as int), ids@[k])
            },
            src@.len() == e,
            dst@.len() == e,
            forall|x: int| 0 <= x < e ==> {
                &&& (#[trigger] src@[x]) < ids@.len()
                &&& ids@[src@[x] as int] == edges@[x].from
                &&& dst@[x] < ids@.len()
                &&& ids@[dst@[x] as int] == edges@[x].to
            },
        decreases edges@.len() - e,
    {
        let from = edges[e].from;
        let to = edges[e].to;
        let a = match find_index(ids, from) {
            Some(a) => a,
            None => {
                assert(false);
                0
            },
        };
        let b = match find_index(ids, to) {
            Some(b) => b,
            None => {
                assert(false);
                0
            },
        };
        neurons[a].to_arr.push(e);
        neurons[b].from_arr.push(e);
        src.push(a);
        dst.push(b);
        assert(es.subrange(0, e + 1).drop_last() =~= es.subrange(0, e as int));
        assert forall|k: int| 0 <= k < ids@.len() implies {
            &&& (#[trigger] neurons@[k]).id == ids@[k]
            &&& neurons@[k].from_arr@ == edges_into(es.subrange(0, e + 1), ids@[k])
            &&& neurons@[k].to_arr@ == edges_out_of(es.subrange(0, e + 1), ids@[k])
        } by {
            if k != a {
                assert(ids@[k] != from);
            }
            if k != b {
                assert(ids@[k] != to);
            }
        }
        e += 1;
    }
    assert(es.subrange(0, e as int) =~= es);
    (neurons, src, dst)
}

pub(crate) proof fn lemma_edges_into<W>(es: Seq<(usize, usize, W)>, n: usize)
    requires
        es.len() <= usize::MAX,
    ensures
        edges_into(es, n).no_duplicates(),
        forall|b: int| 0 <= b < edges_into(es, n).len() ==> (#[trigger] edges_into(es, n)[b]) < es.len()
            && es[edges_into(es, n)[b] as int].1 == n,
        forall|e: int| 0 <= e < es.len() && es[e].1 == n ==> #[trigger] edges_into(es, n).contains(e as usize),
    decreases es.len(),
{
    if es.len() > 0 {
        let p = es.drop_last();
        lemma_edges_into(p, n);
        let q = edges_into(p, n);
        let r = edges_into(es, n);
        assert forall|e: int| 0 <= e < es.len() && es[e].1 == n implies #[trigger] r.contains(e as usize) by {
            if e < p.len() {
                assert(p[e] == es[e]);
                assert(q.contains(e as usize));
                let j = choose|j: int| 0 <= j < q.len() && q[j] == e as usize;
                assert(r[j] == e as usize);
            } else {
                assert(r[r.len() - 1] == e as usize);
            }
        }
        assert forall|b: int| 0 <= b < r.len() implies (#[trigger] r[b]) < es.len() && es[r[b] as int].1 == n by {
            if b < q.len() {
                assert(r[b] == q[b]);
                assert(p[q[b] as int] == es[q[b] as int]);
            }
        }
        if es.last().1 == n {
            assert forall|x: int, y: int| 0 <= x < r.len() && 0 <= y < r.len() && x != y implies r[x] != r[y] by {
                if x < q.len() && y < q.len() {
                    assert(r[x] == q[x] && r[y] == q[y]);
                } else if x < q.len() {
                    assert(r[x] == q[x]);
                } else if y < q.len() {
                    assert(r[y] == q[y]);
                }
            }
        }
    }
}

pub(crate) proof fn lemma_edges_out_of<W>(es: Seq<(usize, usize, W)>, n: usize)
    requires
        es.len() <= usize::MAX,
    ensures
        edges_out_of(es, n).no_duplicates(),
        forall|b: int| 0 <= b < edges_out_of(es, n).len() ==> (#[trigger] edges_out_of(es, n)[b]) < es.len()
            && es[edges_out_of(es, n)[b] as int].0 == n,
        forall|e: int| 0 <= e < es.len() && es[e].0 == n ==> #[trigger] edges_out_of(es, n).contains(e as usize),
    decreases es.len(),
{
    if es.len() > 0 {
        let p = es.drop_last();
        lemma_edges_out_of(p, n);
        let q = edges_out_of(p, n);
        let r = edges_out_of(es, n);
        assert forall|e: int| 0 <= e < es.len() && es[e].0 == n implies #[trigger] r.contains(e as usize) by {
            if e < p.len() {
                assert(p[e] == es[e]);
                assert(q.contains(e as usize));
                let j = choose|j: int| 0 <= j < q.len() && q[j] == e as usize;
                assert(r[j] == e as usize);
            } else {
                assert(r[r.len() - 1] == e as usize);
            }
        }
        assert forall|b: int| 0 <= b < r.len() implies (#[trigger] r[b]) < es.len() && es[r[b] as int].0 == n by {
            if b < q.len() {
                assert(r[b] == q[b]);
                assert(p[q[b] as int] == es[q[b] as int]);
            }
        }
        if es.last().0 == n {
            assert forall|x: int, y: int| 0 <= x < r.len() && 0 <= y < r.len() && x != y implies r[x] != r[y] by {
                if x < q.len() && y < q.len() {
                    assert(r[x] == q[x] && r[y] == q[y]);
                } else if x < q.len() {
                    assert(r[x] == q[x]);
                } else if y < q.len() {
                    assert(r[y] == q[y]);
                }
            }
        }
    }
}

/// `rank` strictly increases along every edge.
pub open spec fn ranks_ids<W>(rank: spec_fn(usize) -> nat, es: Seq<(usize, usize, W)>) -> bool {
    forall|e: int| 0 <= e < es.len() ==> rank(#[trigger] es[e].0) < rank(es[e].1)
}

/// The edges hold no directed cycle: some ranking of the node ids strictly
/// increases along every edge.
pub open spec fn acyclic<W>(es: Seq<(usize, usize, W)>) -> bool {
    exists|rank: spec_fn(usize) -> nat| #[trigger] ranks_ids(rank, es)
}

/// Some edge ends at the bias node or at a declared input.
pub open spec fn enters_input<W>(es: Seq<(usize, usize, W)>, inputs: Seq<usize>) -> bool {
    exists|e: int| 0 <= e < es.len() && (es[e].1 == 0 || inputs.contains(#[trigger] es[e].1))
}

/// A compiled network. Nodes live in an arena (`neurons`), edges in
/// `connectors`; `sources` and `targets` give each edge's endpoints as arena
/// indices. `depth` is each node's layer, `layers` the node ids of each layer,
/// and `waves` the edges that fire in each stage: those leaving the nodes of
/// the layer with the same index.
pub struct NeuralNetwork<W> {
    pub neurons: Vec<Neuron>,
    pub connectors: Vec<Connector<W>>,
    pub sources: Vec<usize>,
    pub targets: Vec<usize>,
    pub depth: Vec<usize>,
    pub layers: Vec<Vec<usize>>,
    pub waves: Vec<Vec<usize>>,
    pub neuron_levels: (Vec<usize>, Vec<usize>),
}

impl<W> NeuralNetwork<W> {
    pub open spec fn edges(&self) -> Seq<(usize, usize, W)> {
        self.connectors@.map_values(|c: Connector<W>| c.triple())
    }

    pub open spec fn ids(&self) -> Seq<usize> {
        self.neurons@.map_values(|n: Neuron| n.id)
    }

    /// The layer of node id `n`.
    pub open spec fn layer_of(&self, n: usize) -> int {
        self.depth@[self.ids().index_of(n)] as int
    }

    /// The arena, the layering and the waves are consistent.
    pub open spec fn wf(&self) -> bool {
        let ids = self.ids();
        let es = self.edges();
        let n = self.neurons@.len();
        let m = self.connectors@.len();
        &&& ids.no_duplicates()
        &&& n <= usize::MAX
        &&& m <= usize::MAX
        &&& ids.contains(0)
        &&& forall|k: int| 0 <= k < self.neuron_levels.0@.len() ==> ids.contains(#[trigger] self.neuron_levels.0@[k])
        &&& forall|k: int| 0 <= k < self.neuron_levels.1@.len() ==> ids.contains(#[trigger] self.neuron_levels.1@[k])
        &&& forall|i: int| 0 <= i < n ==> (#[trigger] self.neurons@[i]).from_arr@ == edges_into(es, ids[i])
            && self.neurons@[i].to_arr@ == edges_out_of(es, ids[i])
        &&& self.sources@.len() == m
        &&& self.targets@.len() == m
        &&& forall|e: int| 0 <= e < m ==> {
            &&& (#[trigger] self.sources@[e]) < n
            &&& self.targets@[e] < n
            &&& ids[self.sources@[e] as int] == es[e].0
            &&& ids[self.targets@[e] as int] == es[e].1
        }
        &&& self.depth@.len() == n
        &&& forall|i: int| 0 <= i < n ==> #[trigger] self.depth@[i] < self.layers@.len()
        &&& forall|k: int| 0 <= k < self.layers@.len() ==> (#[trigger] self.layers@[k])@.no_duplicates()
            && self.layers@[k]@.len() > 0
        &&& forall|k: int, b: int| 0 <= k < self.layers@.len() && 0 <= b < self.layers@[k]@.len()
            ==> ids.contains(#[trigger] self.layers@[k]@[b])
        &&& forall|k: int, i: int| 0 <= k < self.layers@.len() && 0 <= i < n
            ==> ((#[trigger] self.layers@[k]@.contains(ids[i])) <==> self.depth@[i] == k)
        &&& concat_layers(self.layers@).no_duplicates()
        &&& concat_layers(self.layers@).len() == n
        &&& forall|e: int| 0 <= e < m ==> self.depth@[#[trigger] self.sources@[e] as int] < self.depth@[self.targets@[e] as int]
        &&& forall|i: int| 0 <= i < n && (#[trigger] self.neurons@[i]).from_arr@.len() == 0 ==> self.depth@[i] == 0
        &&& forall|i: int| 0 <= i < n && (#[trigger] self.neurons@[i]).from_arr@.len() > 0
            ==> exists|b: int| 0 <= b < self.neurons@[i].from_arr@.len()
                && self.depth@[self.sources@[self.neurons@[i].from_arr@[b] as int] as int] + 1 == self.depth@[i]
        &&& self.waves@.len() == self.layers@.len()
        &&& forall|k: int| 0 <= k < self.waves@.len() ==> (#[trigger] self.waves@[k])@.no_duplicates()
        &&& forall|k: int, b: int| 0 <= k < self.waves@.len() && 0 <= b < self.waves@[k]@.len()
            ==> (#[trigger] self.waves@[k]@[b]) < m && self.depth@[self.sources@[self.waves@[k]@[b] as int] as int] == k
        &&& forall|e: int| 0 <= e < m ==> self.waves@[self.depth@[#[trigger] self.sources@[e] as int] as int]@.contains(e as usize)
    }

    /// The network is what compiling `g` against `t` yields.
    pub open spec fn compiled_from(&self, g: Genome<W>, t: InnovationTable) -> bool {
        &&& self.wf()
        &&& self.neuron_levels.0@ == t.inputs()
        &&& self.neuron_levels.1@ == t.outputs()
        &&& self.edges() == genome_edges(g, t)
        &&& forall|n: usize| self.ids().contains(n) <==> node_candidates(self.edges(), t.inputs(), t.outputs()).contains(n)
    }
}

fn copy_ids(v: &Vec<usize>) -> (r: Vec<usize>)
    ensures
        r@ == v@,
{
    let mut r: Vec<usize> = Vec::new();
    let mut i: usize = 0;
    while i < v.len()
        invariant
            i <= v@.len(),
            r@ == v@.subrange(0, i as int),
        decreases v@.len() - i,
    {
        r.push(v[i]);
        assert(r@ =~= v@.subrange(0, i + 1));
        i += 1;
    }
    assert(v@.subrange(0, i as int) =~= v@);
    r
}

fn check_genes(genes: &Vec<usize>, n_features: usize) -> (r: bool)
    ensures
        r == !cites_unknown(genes@, n_features as nat),
{
    let mut i: usize = 0;
    while i < genes.len()
        invariant
            i <= genes@.len(),
            forall|k: int| 0 <= k < i ==> genes@[k] < n_features,
        decreases genes@.len() - i,
    {
        if genes[i] >= n_features {
            return false;
        }
        i += 1;
    }
    true
}

fn check_inputs<W>(edges: &Vec<Connector<W>>, inputs: &Vec<usize>) -> (r: bool)
    ensures
        r == !enters_input(edges@.map_values(|c: Connector<W>| c.triple()), inputs@),
{
    let ghost es = edges@.map_values(|c: Connector<W>| c.triple());
    let mut e: usize = 0;
    while e < edges.len()
        invariant
            es == edges@.map_values(|c: Connector<W>| c.triple()),
            e <= edges@.len(),
            forall|k: int| 0 <= k < e ==> !(es[k].1 == 0 || inputs@.contains(#[trigger] es[k].1)),
        decreases edges@.len() - e,
    {
        let to = edges[e].to;
        if to == 0 || find_index(inputs, to).is_some() {
            assert(es[e as int].1 == to);
            return false;
        }
        e += 1;
    }
    true
}

proof fn lemma_map_ids(s: Seq<usize>, ids: Seq<usize>)
    requires
        s.no_duplicates(),
        ids.no_duplicates(),
        ids.len() <= usize::MAX,
        forall|b: int| 0 <= b < s.len() ==> #[trigger] s[b] < ids.len(),
    ensures
        s.map_values(|i: usize| ids[i as int]).no_duplicates(),
        forall|i: int| 0 <= i < ids.len() ==> (s.map_values(|i: usize| ids[i as int]).contains(#[trigger] ids[i]) <==> s.contains(i as usize)),
{
    let t = s.map_values(|i: usize| ids[i as int]);
    assert forall|x: int, y: int| 0 <= x < t.len() && 0 <= y < t.len() && x != y implies t[x] != t[y] by {
        assert(s[x] != s[y]);
    }
    assert forall|i: int| 0 <= i < ids.len() implies (t.contains(#[trigger] ids[i]) <==> s.contains(i as usize)) by {
        if t.contains(ids[i]) {
            let j = choose|j: int| 0 <= j < t.len() && t[j] == ids[i];
            assert(ids[s[j] as int] == ids[i]);
            assert(s[j] == i);
        }
        if s.contains(i as usize) {
            let j = choose|j: int| 0 <= j < s.len() && s[j] == i as usize;
            assert(t[j] == ids[i]);
        }
    }
}

proof fn lemma_concat_map(al: Seq<Vec<usize>>, lid: Seq<Vec<usize>>, ids: Seq<usize>)
    requires
        al.len() == lid.len(),
        forall|k: int| 0 <= k < al.len() ==> (#[trigger] lid[k])@ == al[k]@.map_values(|i: usize| ids[i as int]),
    ensures
        concat_layers(lid) == concat_layers(al).map_values(|i: usize| ids[i as int]),
    decreases al.len(),
{
    if al.len() > 0 {
        lemma_concat_map(al.drop_last(), lid.drop_last(), ids);
        assert(lid.last()@ == al.last()@.map_values(|i: usize| ids[i as int]));
        assert((concat_layers(al.drop_last()) + al.last()@).map_values(|i: usize| ids[i as int])
            =~= concat_layers(al.drop_last()).map_values(|i: usize| ids[i as int]) + al.last()@.map_values(|i: usize| ids[i as int]));
    }
}

proof fn lemma_edges_into_all<W>(
    es: Seq<(usize, usize, W)>,
    ids: Seq<usize>,
    neurons: Seq<Neuron>,
    src: Seq<usize>,
    dst: Seq<usize>,
)
    requires
        es.len() <= usize::MAX,
        ids.no_duplicates(),
        neurons.len() == ids.len(),
        forall|i: int| 0 <= i < ids.len() ==> {
            &&& (#[trigger] neurons[i]).id == ids[i]
            &&& neurons[i].from_arr@ == edges_into(es, ids[i])
            &&& neurons[i].to_arr@ == edges_out_of(es, ids[i])
        },
        src.len() == es.len(),
        dst.len() == es.len(),
        forall|e: int| 0 <= e < es.len() ==> {
            &&& (#[trigger] src[e]) < ids.len()
            &&& ids[src[e] as int] == es[e].0
            &&& dst[e] < ids.len()
            &&& ids[dst[e] as int] == es[e].1
        },
    ensures
        arena_ok(neurons, src, dst),
{
    assert forall|i: int| 0 <= i < neurons.len() implies (#[trigger] neurons[i]).from_arr@.no_duplicates()
        && neurons[i].to_arr@.no_duplicates() by {
        lemma_edges_into(es, ids[i]);
        lemma_edges_out_of(es, ids[i]);
    }
    assert forall|i: int, b: int| 0 <= i < neurons.len() && 0 <= b < neurons[i].from_arr@.len()
        implies (#[trigger] neurons[i].from_arr@[b]) < src.len() && dst[neurons[i].from_arr@[b] as int] == i by {
        lemma_edges_into(es, ids[i]);
        let x = neurons[i].from_arr@[b] as int;
        assert(src[x] < ids.len());
        assert(ids[dst[x] as int] == ids[i]);
    }
    assert forall|i: int, b: int| 0 <= i < neurons.len() && 0 <= b < neurons[i].to_arr@.len()
        implies (#[trigger] neurons[i].to_arr@[b]) < src.len() && src[neurons[i].to_arr@[b] as int] == i by {
        lemma_edges_out_of(es, ids[i]);
        let x = neurons[i].to_arr@[b] as int;
        assert(src[x] < ids.len());
        assert(ids[src[x] as int] == ids[i]);
    }
    assert forall|e: int| 0 <= e < src.len() implies (#[trigger] neurons[dst[e] as int].from_arr@).contains(e as usize) by {
        assert(src[e] < ids.len());
        lemma_edges_into(es, ids[dst[e] as int]);
    }
    assert forall|e: int| 0 <= e < src.len() implies (#[trigger] neurons[src[e] as int].to_arr@).contains(e as usize) by {
        assert(src[e] < ids.len());
        lemma_edges_out_of(es, ids[src[e] as int]);
    }
}

proof fn lemma_network_wf<W>(net: NeuralNetwork<W>, al: Seq<Vec<usize>>)
    requires
        net.ids().no_duplicates(),
        net.ids().len() <= usize::MAX,
        net.connectors@.len() <= usize::MAX,
        net.ids().contains(0),
        forall|k: int| 0 <= k < net.neuron_levels.0@.len() ==> net.ids().contains(#[trigger] net.neuron_levels.0@[k]),
        forall|k: int| 0 <= k < net.neuron_levels.1@.len() ==> net.ids().contains(#[trigger] net.neuron_levels.1@[k]),
        forall|i: int| 0 <= i < net.neurons@.len() ==> (#[trigger] net.neurons@[i]).from_arr@ == edges_into(net.edges(), net.ids()[i])
            && net.neurons@[i].to_arr@ == edges_out_of(net.edges(), net.ids()[i]),
        net.sources@.len() == net.connectors@.len(),
        net.targets@.len() == net.connectors@.len(),
        forall|e: int| 0 <= e < net.connectors@.len() ==> {
            &&& (#[trigger] net.sources@[e]) < net.neurons@.len()
            &&& net.ids()[net.sources@[e] as int] == net.edges()[e].0
            &&& net.targets@[e] < net.neurons@.len()
            &&& net.ids()[net.targets@[e] as int] == net.edges()[e].1
        },
        arena_ok(net.neurons@, net.sources@, net.targets@),
        layering_ok(net.neurons@, net.sources@, net.targets@, al, net.depth@),
        net.layers@.len() == al.len(),
        forall|k: int| 0 <= k < al.len() ==> (#[trigger] net.layers@[k])@ == al[k]@.map_values(|i: usize| net.ids()[i as int]),
        net.waves@.len() == al.len(),
        forall|q: int| 0 <= q < al.len() ==> (#[trigger] net.waves@[q])@.no_duplicates(),
        forall|q: int, b: int| 0 <= q < al.len() && 0 <= b < net.waves@[q]@.len()
            ==> (#[trigger] net.waves@[q]@[b]) < net.connectors@.len()
                && net.depth@[net.sources@[net.waves@[q]@[b] as int] as int] == q,
        forall|e: int| 0 <= e < net.connectors@.len() && net.depth@[net.sources@[e] as int] < al.len()
            ==> net.waves@[net.depth@[#[trigger] net.sources@[e] as int] as int]@.contains(e as usize),
    ensures
        net.wf(),
{
    let ids = net.ids();
    let n = net.neurons@.len();
    assert forall|k: int| 0 <= k < al.len() implies (#[trigger] net.layers@[k])@.no_duplicates()
        && net.layers@[k]@.len() > 0 by {
        lemma_map_ids(al[k]@, ids);
    }
    assert forall|k: int, b: int| 0 <= k < net.layers@.len() && 0 <= b < net.layers@[k]@.len()
        implies ids.contains(#[trigger] net.layers@[k]@[b]) by {
        assert(net.layers@[k]@[b] == ids[al[k]@[b] as int]);
        assert(al[k]@[b] < n);
    }
    assert forall|k: int, i: int| 0 <= k < net.layers@.len() && 0 <= i < n
        implies ((#[trigger] net.layers@[k]@.contains(ids[i])) <==> net.depth@[i] == k) by {
        lemma_map_ids(al[k]@, ids);
        assert(al[k]@.contains(i as usize) <==> net.depth@[i] == k);
    }
    lemma_concat_map(al, net.layers@, ids);
    let c = concat_layers(al);
    assert forall|b: int| 0 <= b < c.len() implies #[trigger] c[b] < ids.len() by {
        lemma_concat_contains(al, c[b]);
        assert(c.contains(c[b]));
        let k = choose|k: int| 0 <= k < al.len() && (#[trigger] al[k])@.contains(c[b]);
        let j = choose|j: int| 0 <= j < al[k]@.len() && al[k]@[j] == c[b];
        assert(al[k]@[j] < n);
    }
    lemma_map_ids(c, ids);
    assert forall|i: int| 0 <= i < n implies #[trigger] net.depth@[i] < net.layers@.len() by {}
    assert forall|e: int| 0 <= e < net.connectors@.len()
        implies net.waves@[net.depth@[#[trigger] net.sources@[e] as int] as int]@.contains(e as usize) by {
        assert(net.sources@[e] < n);
    }
}

proof fn lemma_endpoints_from_edges<W>(es: Seq<(usize, usize, W)>, n: usize)
    requires
        endpoints(es).contains(n),
    ensures
        exists|e: int| 0 <= e < es.len() && (#[trigger] es[e].0 == n || es[e].1 == n),
    decreases es.len(),
{
    let p = endpoints(es.drop_last());
    let q = endpoints(es);
    assert(q == p.push(es.last().0).push(es.last().1));
    let j = choose|j: int| 0 <= j < q.len() && q[j] == n;
    if j < p.len() {
        assert(p[j] == n);
        lemma_endpoints_from_edges(es.drop_last(), n);
        let e = choose|e: int| 0 <= e < es.drop_last().len() && (#[trigger] es.drop_last()[e].0 == n || es.drop_last()[e].1 == n);
        assert(es[e] == es.drop_last()[e]);
    } else {
        assert(es[es.len() - 1].0 == n || es[es.len() - 1].1 == n);
    }
}

/// Every node of a compiled network is at most the registry's node counter,
/// so that a minted id names no node yet.
pub proof fn lemma_nodes_below_counter<W>(g: Genome<W>, t: InnovationTable, net: NeuralNetwork<W>)
    requires
        t.wf(),
        g.same_lengths(),
        !cites_unknown(g.0@, t.features().len()),
        net.compiled_from(g, t),
    ensures
        forall|n: usize| net.ids().contains(n) ==> n <= t.neuron_counter,
{
    let es = genome_edges(g, t);
    lemma_edge_from_feature(g.0@, g.1@, g.2@, t.features());
    assert forall|n: usize| net.ids().contains(n) implies n <= t.neuron_counter by {
        let cands = node_candidates(es, t.inputs(), t.outputs());
        assert(cands.contains(n));
        let j = choose|j: int| 0 <= j < cands.len() && cands[j] == n;
        let ep = endpoints(es);
        if j < ep.len() {
            assert(ep[j] == n);
            assert(ep.contains(n));
            lemma_endpoints_from_edges(es, n);
            let e = choose|e: int| 0 <= e < es.len() && (#[trigger] es[e].0 == n || es[e].1 == n);
            let k = choose|k: int| 0 <= k < g.0@.len() && t.features()[g.0@[k] as int].0 == (#[trigger] es[e]).0
                && t.features()[g.0@[k] as int].1 == es[e].1;
            assert(!(g.0@[k] >= t.features().len()));
            assert(t.features()[g.0@[k] as int].0 <= t.neuron_counter);
        } else if j > ep.len() && j <= ep.len() + t.inputs().len() {
            assert(t.inputs()[j - ep.len() - 1] == n);
        } else if j > ep.len() + t.inputs().len() {
            assert(t.outputs()[j - ep.len() - 1 - t.inputs().len()] == n);
        }
    }
}

/// Arena slots of the bias node and of each declared input and output, in
/// declared order: where a forward pass writes its inputs and reads its
/// outputs.
pub struct IoSlots {
    pub bias: usize,
    pub inputs: Vec<usize>,
    pub outputs: Vec<usize>,
}

impl<W> NeuralNetwork<W> {
    /// The arena slot of node `id`.
    pub fn node_slot(&self, id: usize) -> (r: Option<usize>)
        ensures
            match r {
                Some(i) => i < self.neurons@.len() && self.ids()[i as int] == id,
                None => !self.ids().contains(id),
            },
    {
        let mut i: usize = 0;
        while i < self.neurons.len()
            invariant
                i <= self.neurons@.len(),
                forall|k: int| 0 <= k < i ==> self.ids()[k] != id,
            decreases self.neurons@.len() - i,
        {
            if self.neurons[i].id == id {
                return Some(i);
            }
            i += 1;
        }
        None
    }

    fn slots_of(&self, ids: &Vec<usize>) -> (r: Vec<usize>)
        requires
            forall|k: int| 0 <= k < ids@.len() ==> self.ids().contains(#[trigger] ids@[k]),
        ensures
            r@.len() == ids@.len(),
            forall|k: int| 0 <= k < ids@.len() ==> (#[trigger] r@[k]) < self.neurons@.len()
                && self.ids()[r@[k] as int] == ids@[k],
    {
        let mut r: Vec<usize> = Vec::new();
        let mut k: usize = 0;
        while k < ids.len()
            invariant
                forall|k: int| 0 <= k < ids@.len() ==> self.ids().contains(#[trigger] ids@[k]),
                k <= ids@.len(),
                r@.len() == k,
                forall|q: int| 0 <= q < k ==> (#[trigger] r@[q]) < self.neurons@.len() && self.ids()[r@[q] as int] == ids@[q],
            decreases ids@.len() - k,
        {
            let i = match self.node_slot(ids[k]) {
                Some(i) => i,
                None => {
                    assert(self.ids().contains(ids@[k as int]));
                    0
                },
            };
            r.push(i);
            k += 1;
        }
        r
    }

    /// The slots a forward pass with `n_inputs` input values uses; refused
    /// with `InputArityMismatch` unless there is one value per declared input.
    pub fn io_slots(&self, n_inputs: usize) -> (r: Result<IoSlots, NeatError>)
        requires
            self.wf(),
        ensures
            r is Err <==> n_inputs != self.neuron_levels.0@.len(),
            r is Err ==> (r matches Err(NeatError::InputArityMismatch)),
            r matches Ok(s) ==> {
                &&& s.bias < self.neurons@.len()
                &&& self.ids()[s.bias as int] == 0
                &&& s.inputs@.len() == self.neuron_levels.0@.len()
                &&& forall|k: int| 0 <= k < s.inputs@.len() ==> (#[trigger] s.inputs@[k]) < self.neurons@.len()
                    && self.ids()[s.inputs@[k] as int] == self.neuron_levels.0@[k]
                &&& s.outputs@.len() == self.neuron_levels.1@.len()
                &&& forall|k: int| 0 <= k < s.outputs@.len() ==> (#[trigger] s.outputs@[k]) < self.neurons@.len()
                    && self.ids()[s.outputs@[k] as int] == self.neuron_levels.1@[k]
            },
    {
        if n_inputs != self.neuron_levels.0.len() {
            return Err(NeatError::InputArityMismatch);
        }
        let bias = match self.node_slot(0) {
            Some(i) => i,
            None => {
                assert(self.ids().contains(0));
                0
            },
        };
        let inputs = self.slots_of(&self.neuron_levels.0);
        let outputs = self.slots_of(&self.neuron_levels.1);
        Ok(IoSlots { bias, inputs, outputs })
    }
}

impl<W: Copy> NeuralNetwork<W> {
    /// Compiles a genome against the registry: one edge per enabled connection
    /// gene, the nodes those edges touch together with the bias and every
    /// declared input and output, and the layering by in-degree exhaustion.
    pub fn init(genome: &Genome<W>, table: &InnovationTable) -> (r: Result<NeuralNetwork<W>, NeatError>)
        requires
            table.wf(),
        ensures
            !genome.same_lengths() ==> (r matches Err(NeatError::GenomeLengthMismatch)),
            genome.same_lengths() && cites_unknown(genome.0@, table.features().len())
                ==> (r matches Err(NeatError::UnknownFeatureReference)),
            genome.same_lengths() && !cites_unknown(genome.0@, table.features().len()) ==> {
                &&& enters_input(genome_edges(*genome, *table), table.inputs())
                    ==> (r matches Err(NeatError::InvalidInputTopology))
                &&& !enters_input(genome_edges(*genome, *table), table.inputs()) && !acyclic(genome_edges(*genome, *table))
                    ==> (r matches Err(NeatError::CyclicTopology))
                &&& !enters_input(genome_edges(*genome, *table), table.inputs()) && acyclic(genome_edges(*genome, *table))
                    ==> r is Ok
            },
            r matches Ok(net) ==> net.compiled_from(*genome, *table),
    {
        if genome.0.len() != genome.1.len() || genome.0.len() != genome.2.len() {
            return Err(NeatError::GenomeLengthMismatch);
        }
        if !check_genes(&genome.0, table.innovations.len()) {
            return Err(NeatError::UnknownFeatureReference);
        }
        let edges = collect_edges(genome, table);
        let ghost es = edges@.map_values(|c: Connector<W>| c.triple());
        if !check_inputs(&edges, &table.neuron_levels.0) {
            return Err(NeatError::InvalidInputTopology);
        }
        let ids = collect_nodes(&edges, &table.neuron_levels.0, &table.neuron_levels.1);
        proof {
            let cands = node_candidates(es, table.inputs(), table.outputs());
            assert forall|e: int| 0 <= e < edges@.len() implies ids@.contains(edges@[e].from) && ids@.contains(edges@[e].to) by {
                lemma_endpoints_contain(es, e);
                let ep = endpoints(es);
                let j0 = choose|j: int| 0 <= j < ep.len() && ep[j] == es[e].0;
                let j1 = choose|j: int| 0 <= j < ep.len() && ep[j] == es[e].1;
                assert(cands[j0] == ep[j0]);
                assert(cands[j1] == ep[j1]);
                assert(cands.contains(edges@[e].from));
                assert(cands.contains(edges@[e].to));
            }
        }
        let (neurons, src, dst) = link(&edges, &ids);
        let n = neurons.len();
        let m = edges.len();
        proof {
            lemma_edges_into_all(es, ids@, neurons@, src@, dst@);
        }
        let layered = layer_network(&neurons, &src, &dst);
        proof {
            if acyclic(es) {
                let rank = choose|rank: spec_fn(usize) -> nat| #[trigger] ranks_ids(rank, es);
                let arank = |i: usize| rank(ids@[i as int]);
                assert forall|e: int| 0 <= e < src@.len() implies arank(#[trigger] src@[e]) < arank(dst@[e]) by {
                    assert(ids@[src@[e] as int] == es[e].0);
                    assert(ids@[dst@[e] as int] == es[e].1);
                }
                assert(ranks_edges(arank, src@, dst@));
            }
            if arena_acyclic(src@, dst@) {
                let arank = choose|rank: spec_fn(usize) -> nat| #[trigger] ranks_edges(rank, src@, dst@);
                let rank = |x: usize| arank(ids@.index_of(x) as usize);
                assert forall|e: int| 0 <= e < es.len() implies rank(#[trigger] es[e].0) < rank(es[e].1) by {
                    assert(src@[e] < n);
                    assert(ids@[src@[e] as int] == es[e].0);
                    assert(ids@.contains(es[e].0));
                    assert(ids@.index_of(es[e].0) == src@[e] as int);
                    assert(ids@.contains(es[e].1));
                    assert(ids@.index_of(es[e].1) == dst@[e] as int);
                }
                assert(ranks_ids(rank, es));
            }
        }
        let (al, depth) = match layered {
            Some(x) => x,
            None => {
                return Err(NeatError::CyclicTopology);
            },
        };
        let mut lid: Vec<Vec<usize>> = Vec::new();
        let mut k: usize = 0;
        while k < al.len()
            invariant
                layering_ok(neurons@, src@, dst@, al@, depth@),
                ids@.len() == n,
                n == neurons@.len(),
                k <= al@.len(),
                lid@.len() == k,
                forall|q: int| 0 <= q < k ==> (#[trigger] lid@[q])@ == al@[q]@.map_values(|i: usize| ids@[i as int]),
            decreases al@.len() - k,
        {
            let mut row: Vec<usize> = Vec::new();
            let mut b: usize = 0;
            while b < al[k].len()
                invariant
                    layering_ok(neurons@, src@, dst@, al@, depth@),
                    ids@.len() == n,
                    n == neurons@.len(),
                    k < al@.len(),
                    b <= al@[k as int]@.len(),
                    row@ == al@[k as int]@.subrange(0, b as int).map_values(|i: usize| ids@[i as int]),
                decreases al@[k as int]@.len() - b,
            {
                let i = al[k][b];
                assert(al@[k as int]@[b as int] < n);
                row.push(ids[i]);
                assert(row@ =~= al@[k as int]@.subrange(0, b + 1).map_values(|i: usize| ids@[i as int]));
                b += 1;
            }
            assert(al@[k as int]@.subrange(0, b as int) =~= al@[k as int]@);
            lid.push(row);
            k += 1;
        }
        let mut waves: Vec<Vec<usize>> = Vec::new();
        let mut k: usize = 0;
        while k < al.len()
            invariant
                layering_ok(neurons@, src@, dst@, al@, depth@),
                arena_ok(neurons@, src@, dst@),
                n == neurons@.len(),
                m == src@.len(),
                k <= al@.len(),
                waves@.len() == k,
                forall|q: int| 0 <= q < k ==> (#[trigger] waves@[q])@.no_duplicates(),
                forall|q: int, b: int| 0 <= q < k && 0 <= b < waves@[q]@.len()
                    ==> (#[trigger] waves@[q]@[b]) < m && depth@[src@[waves@[q]@[b] as int] as int] == q,
                forall|e: int| 0 <= e < m && depth@[src@[e] as int] < k
                    ==> waves@[depth@[#[trigger] src@[e] as int] as int]@.contains(e as usize),
            decreases al@.len() - k,
        {
            let mut row: Vec<usize> = Vec::new();
            let mut a: usize = 0;
            while a < al[k].len()
                invariant
                    layering_ok(neurons@, src@, dst@, al@, depth@),
                    arena_ok(neurons@, src@, dst@),
                    n == neurons@.len(),
                    m == src@.len(),
                    k < al@.len(),
                    a <= al@[k as int]@.len(),
                    row@.no_duplicates(),
                    forall|b: int| 0 <= b < row@.len() ==> (#[trigger] row@[b]) < m && depth@[src@[row@[b] as int] as int] == k,
                    forall|e: usize| e < m ==> (row@.contains(e) <==> al@[k as int]@.subrange(0, a as int).contains(src@[e as int])),
                decreases al@[k as int]@.len() - a,
            {
                let u = al[k][a];
                assert(al@[k as int]@[a as int] < n);
                assert(al@[k as int]@.contains(u));
                let outs_len = neurons[u].to_arr.len();
                let ghost outs = neurons@[u as int].to_arr@;
                let mut b: usize = 0;
                while b < outs_len
                    invariant
                        layering_ok(neurons@, src@, dst@, al@, depth@),
                        arena_ok(neurons@, src@, dst@),
                        n == neurons@.len(),
                        m == src@.len(),
                        k < al@.len(),
                        a < al@[k as int]@.len(),
                        u == al@[k as int]@[a as int],
                        u < n,
                        depth@[u as int] == k,
                        outs == neurons@[u as int].to_arr@,
                        outs_len == outs.len(),
                        b <= outs_len,
                        row@.no_duplicates(),
                        forall|b: int| 0 <= b < row@.len() ==> (#[trigger] row@[b]) < m && depth@[src@[row@[b] as int] as int] == k,
                        forall|e: usize| e < m ==> (row@.contains(e) <==> (al@[k as int]@.subrange(0, a as int).contains(src@[e as int])
                            || (src@[e as int] == u && outs.subrange(0, b as int).contains(e)))),
                    decreases outs_len - b,
                {
                    let e = neurons[u].to_arr[b];
                    proof {
                        assert(outs[b as int] == e);
                        assert(e < m && src@[e as int] == u);
                        if al@[k as int]@.subrange(0, a as int).contains(u) {
                            let j = choose|j: int| 0 <= j < a && al@[k as int]@.subrange(0, a as int)[j] == u;
                            assert(al@[k as int]@[j] == al@[k as int]@[a as int]);
                        }
                        if outs.subrange(0, b as int).contains(e) {
                            let j = choose|j: int| 0 <= j < b && outs.subrange(0, b as int)[j] == e;
                            assert(outs[j] == outs[b as int]);
                        }
                        assert(!row@.contains(e));
                    }
                    let ghost old_row = row@;
                    row.push(e);
                    proof {
                        assert(outs.subrange(0, b + 1) == outs.subrange(0, b as int).push(e));
                        assert forall|e2: usize| e2 < m implies (row@.contains(e2) <==> (al@[k as int]@.subrange(0, a as int).contains(src@[e2 as int])
                            || (src@[e2 as int] == u && outs.subrange(0, b + 1).contains(e2)))) by {
                            lemma_push_contains(old_row, e, e2);
                            lemma_push_contains(outs.subrange(0, b as int), e, e2);
                        }
                        assert forall|x: int, y: int| 0 <= x < row@.len() && 0 <= y < row@.len() && x != y implies row@[x] != row@[y] by {
                            if x < old_row.len() && y < old_row.len() {
                                assert(old_row[x] == row@[x] && old_row[y] == row@[y]);
                            } else if x < old_row.len() {
                                assert(old_row.contains(row@[x]));
                            } else if y < old_row.len() {
                                assert(old_row.contains(row@[y]));
                            }
                        }
                    }
                    b += 1;
                }
                proof {
                    assert(outs.subrange(0, b as int) =~= outs);
                    assert(al@[k as int]@.subrange(0, a + 1) == al@[k as int]@.subrange(0, a as int).push(u));
                    assert forall|e2: usize| e2 < m implies (row@.contains(e2) <==> al@[k as int]@.subrange(0, a + 1).contains(src@[e2 as int])) by {
                        lemma_push_contains(al@[k as int]@.subrange(0, a as int), u, src@[e2 as int]);
                        if src@[e2 as int] == u {
                            assert(neurons@[src@[e2 as int] as int].to_arr@.contains(e2));
                        }
                    }
                }
                a += 1;
            }
            proof {
                assert(al@[k as int]@.subrange(0, a as int) =~= al@[k as int]@);
                assert forall|e: int| 0 <= e < m && depth@[src@[e] as int] == k implies row@.contains(e as usize) by {
                    assert(src@[e] < n);
                    assert(al@[k as int]@.contains(src@[e]));
                }
            }
            waves.push(row);
            k += 1;
        }
        let inputs = copy_ids(&table.neuron_levels.0);
        let outputs = copy_ids(&table.neuron_levels.1);
        let net = NeuralNetwork {
            neurons,
            connectors: edges,
            sources: src,
            targets: dst,
            depth,
            layers: lid,
            waves,
            neuron_levels: (inputs, outputs),
        };
        proof {
            assert(net.ids() =~= ids@);
            assert(net.edges() == es);
            let cands = node_candidates(es, table.inputs(), table.outputs());
            let ep = endpoints(es);
            assert(cands[ep.len() as int] == 0);
            assert(ids@.contains(0));
            assert forall|k: int| 0 <= k < net.neuron_levels.0@.len() implies net.ids().contains(#[trigger] net.neuron_levels.0@[k]) by {
                assert(cands[ep.len() + 1 + k] == table.inputs()[k]);
                assert(cands.contains(table.inputs()[k]));
            }
            assert forall|k: int| 0 <= k < net.neuron_levels.1@.len() implies net.ids().contains(#[trigger] net.neuron_levels.1@[k]) by {
                assert(cands[ep.len() + 1 + table.inputs().len() + k] == table.outputs()[k]);
                assert(cands.contains(table.outputs()[k]));
            }
            lemma_network_wf(net, al@);
        }
        Ok(net)
    }
}

} // verus!
