use vstd::prelude::*;
use crate::compatibility::{disjoint_in, excess_in, lemma_self_alignment, matches_in};
use crate::genome::Genome;
use crate::innovation::{InnovationTable, RawInnovation, Type};
use crate::layering::concat_layers;
use crate::mutation::{conn_feature, connected, registered};
use crate::network::{edges_into, genome_edges, lemma_edges_into, node_candidates, spec_edges, NeuralNetwork};

verus! {

/// The layering read by node id: every edge climbs, a node without incoming
/// edges is at layer 0, any other is one past the deepest source feeding it.
spec fn layer_facts<W>(net: NeuralNetwork<W>) -> bool {
    &&& net.edges().len() <= usize::MAX
    &&& forall|e: int| 0 <= e < net.edges().len() ==> net.ids().contains(#[trigger] net.edges()[e].0)
        && net.ids().contains(net.edges()[e].1)
        && net.layer_of(net.edges()[e].0) < net.layer_of(net.edges()[e].1)
    &&& forall|n: usize| net.ids().contains(n) && (#[trigger] edges_into(net.edges(), n)).len() == 0 ==> net.layer_of(n) == 0
    &&& forall|n: usize| net.ids().contains(n) && (#[trigger] edges_into(net.edges(), n)).len() > 0 ==> exists|b: int|
        0 <= b < edges_into(net.edges(), n).len()
            && net.layer_of(net.edges()[edges_into(net.edges(), n)[b] as int].0) + 1 == net.layer_of(n)
    &&& forall|n: usize| net.ids().contains(n) ==> 0 <= #[trigger] net.layer_of(n) < net.layers@.len()
}

pub(crate) proof fn lemma_facts_edges<W>(net: NeuralNetwork<W>)
    requires
        net.wf(),
    ensures
        forall|e: int| 0 <= e < net.edges().len() ==> net.ids().contains(#[trigger] net.edges()[e].0)
            && net.ids().contains(net.edges()[e].1)
            && net.layer_of(net.edges()[e].0) < net.layer_of(net.edges()[e].1),
{
    let ids = net.ids();
    let es = net.edges();
    assert forall|e: int| 0 <= e < es.len() implies ids.contains(#[trigger] es[e].0) && ids.contains(es[e].1)
        && net.layer_of(es[e].0) < net.layer_of(es[e].1) by {
        let s = net.sources@[e] as int;
        let t = net.targets@[e] as int;
        assert(ids[s] == es[e].0 && ids[t] == es[e].1);
        assert(ids.index_of(es[e].0) == s);
        assert(ids.index_of(es[e].1) == t);
    }
}

proof fn lemma_facts_range<W>(net: NeuralNetwork<W>)
    requires
        net.wf(),
    ensures
        forall|n: usize| net.ids().contains(n) ==> 0 <= #[trigger] net.layer_of(n) < net.layers@.len(),
{
    let ids = net.ids();
    assert forall|n: usize| ids.contains(n) implies 0 <= #[trigger] net.layer_of(n) < net.layers@.len() by {
        let i = ids.index_of(n);
        assert(net.depth@[i] < net.layers@.len());
    }
}

proof fn lemma_facts_roots<W>(net: NeuralNetwork<W>)
    requires
        net.wf(),
    ensures
        forall|n: usize| net.ids().contains(n) && (#[trigger] edges_into(net.edges(), n)).len() == 0 ==> net.layer_of(n) == 0,
{
    let ids = net.ids();
    let es = net.edges();
    assert forall|n: usize| ids.contains(n) && (#[trigger] edges_into(es, n)).len() == 0 implies net.layer_of(n) == 0 by {
        let i = ids.index_of(n);
        assert(net.neurons@[i].from_arr@ == edges_into(es, ids[i]));
    }
}

proof fn lemma_facts_inner<W>(net: NeuralNetwork<W>)
    requires
        net.wf(),
    ensures
        forall|n: usize| net.ids().contains(n) && (#[trigger] edges_into(net.edges(), n)).len() > 0 ==> exists|b: int|
            0 <= b < edges_into(net.edges(), n).len()
                && net.layer_of(net.edges()[edges_into(net.edges(), n)[b] as int].0) + 1 == net.layer_of(n),
{
    let ids = net.ids();
    let es = net.edges();
    assert forall|n: usize| ids.contains(n) && (#[trigger] edges_into(es, n)).len() > 0 implies exists|b: int|
        0 <= b < edges_into(es, n).len() && net.layer_of(es[edges_into(es, n)[b] as int].0) + 1 == net.layer_of(n) by {
        let i = ids.index_of(n);
        let inc = net.neurons@[i].from_arr@;
        assert(inc == edges_into(es, ids[i]));
        let b = choose|b: int| 0 <= b < inc.len() && net.depth@[net.sources@[inc[b] as int] as int] + 1 == net.depth@[i];
        lemma_edges_into(es, n);
        let e = inc[b] as int;
        let s = net.sources@[e] as int;
        assert(ids[s] == es[e].0);
        assert(ids.index_of(es[e].0) == s);
    }
}

proof fn lemma_layer_facts<W>(net: NeuralNetwork<W>)
    requires
        net.wf(),
    ensures
        layer_facts(net),
{
    lemma_facts_edges(net);
    lemma_facts_range(net);
    lemma_facts_roots(net);
    lemma_facts_inner(net);
}

proof fn lemma_same_layer<W>(n1: NeuralNetwork<W>, n2: NeuralNetwork<W>, n: usize)
    requires
        layer_facts(n1),
        layer_facts(n2),
        n1.edges() == n2.edges(),
        forall|x: usize| n1.ids().contains(x) <==> n2.ids().contains(x),
        n1.ids().contains(n),
    ensures
        n1.layer_of(n) == n2.layer_of(n),
    decreases n1.layer_of(n) + n2.layer_of(n),
{
    let es = n1.edges();
    assert(n1.layer_of(n) >= 0 && n2.layer_of(n) >= 0);
    if edges_into(es, n).len() > 0 {
        lemma_edges_into(es, n);
        let inc = edges_into(es, n);
        let b1 = choose|b: int| 0 <= b < inc.len() && n1.layer_of(es[inc[b] as int].0) + 1 == n1.layer_of(n);
        let b2 = choose|b: int| 0 <= b < inc.len() && n2.layer_of(es[inc[b] as int].0) + 1 == n2.layer_of(n);
        let e1 = inc[b1] as int;
        let e2 = inc[b2] as int;
        assert(es[e1].1 == n && es[e2].1 == n);
        let s1 = es[e1].0;
        let s2 = es[e2].0;
        assert(n1.layer_of(s1) < n1.layer_of(es[e1].1));
        assert(n2.layer_of(s1) < n2.layer_of(es[e1].1));
        assert(n1.layer_of(s2) < n1.layer_of(es[e2].1));
        assert(n2.layer_of(s2) < n2.layer_of(es[e2].1));
        assert(n1.ids().contains(s1) && n1.ids().contains(s2));
        assert(n1.layer_of(s1) >= 0 && n2.layer_of(s1) >= 0 && n1.layer_of(s2) >= 0 && n2.layer_of(s2) >= 0);
        lemma_same_layer(n1, n2, s1);
        lemma_same_layer(n1, n2, s2);
    }
}

/// In a consistent network a layer holds exactly the nodes at its depth, and
/// a wave exactly the edges whose source is at that depth.
proof fn lemma_layer_members<W>(net: NeuralNetwork<W>)
    requires
        net.wf(),
    ensures
        forall|k: int, n: usize| 0 <= k < net.layers@.len() ==>
            ((#[trigger] net.layers@[k]@.contains(n)) <==> net.ids().contains(n) && net.layer_of(n) == k),
        forall|k: int, e: usize| 0 <= k < net.waves@.len() ==>
            ((#[trigger] net.waves@[k]@.contains(e)) <==> e < net.edges().len() && net.layer_of(net.edges()[e as int].0) == k),
{
    let ids = net.ids();
    let es = net.edges();
    lemma_facts_range(net);
    assert forall|k: int, n: usize| 0 <= k < net.layers@.len() implies
        ((#[trigger] net.layers@[k]@.contains(n)) <==> ids.contains(n) && net.layer_of(n) == k) by {
        if net.layers@[k]@.contains(n) {
            let b = choose|b: int| 0 <= b < net.layers@[k]@.len() && net.layers@[k]@[b] == n;
            assert(ids.contains(net.layers@[k]@[b]));
        }
        if ids.contains(n) {
            let i = ids.index_of(n);
            assert(net.layers@[k]@.contains(ids[i]) <==> net.depth@[i] == k);
        }
    }
    assert forall|k: int, e: usize| 0 <= k < net.waves@.len() implies
        ((#[trigger] net.waves@[k]@.contains(e)) <==> e < es.len() && net.layer_of(es[e as int].0) == k) by {
        if net.waves@[k]@.contains(e) {
            let b = choose|b: int| 0 <= b < net.waves@[k]@.len() && net.waves@[k]@[b] == e;
            assert(net.waves@[k]@[b] < es.len());
        }
        if e < es.len() {
            let s = net.sources@[e as int] as int;
            assert(ids[s] == es[e as int].0);
            assert(ids.index_of(es[e as int].0) == s);
        }
    }
}

/// Compiling is deterministic up to order within a layer: two networks
/// compiled from the same genome and registry have the same number of
/// layers, the same nodes in each layer and the same edges in each wave.
pub proof fn lemma_compile_idempotent<W>(g: Genome<W>, t: InnovationTable, n1: NeuralNetwork<W>, n2: NeuralNetwork<W>)
    requires
        n1.compiled_from(g, t),
        n2.compiled_from(g, t),
    ensures
        n1.layers@.len() == n2.layers@.len(),
        n1.waves@.len() == n2.waves@.len(),
        forall|k: int, n: usize| 0 <= k < n1.layers@.len() ==>
            (#[trigger] n1.layers@[k]@.contains(n) <==> n2.layers@[k]@.contains(n)),
        forall|k: int, e: usize| 0 <= k < n1.waves@.len() ==>
            (#[trigger] n1.waves@[k]@.contains(e) <==> n2.waves@[k]@.contains(e)),
{
    lemma_layer_facts(n1);
    lemma_layer_facts(n2);
    assert forall|n: usize| n1.ids().contains(n) implies n1.layer_of(n) == n2.layer_of(n) by {
        lemma_same_layer(n1, n2, n);
    }
    lemma_layer_members(n1);
    lemma_layer_members(n2);
    if n1.layers@.len() < n2.layers@.len() {
        let k = n1.layers@.len() as int;
        let n = n2.layers@[k]@[0];
        assert(n2.layers@[k]@.contains(n));
    }
    if n2.layers@.len() < n1.layers@.len() {
        let k = n2.layers@.len() as int;
        let n = n1.layers@[k]@[0];
        assert(n1.layers@[k]@.contains(n));
        lemma_same_layer(n1, n2, n);
    }
}

/// Every edge of a consistent network runs from a strictly earlier layer to
/// a strictly later one, and fires in the wave of its source's layer.
pub proof fn lemma_edges_point_forward<W>(net: NeuralNetwork<W>)
    requires
        net.wf(),
    ensures
        forall|e: int| 0 <= e < net.edges().len() ==>
            net.layer_of(#[trigger] net.edges()[e].0) < net.layer_of(net.edges()[e].1)
                && net.waves@[net.layer_of(net.edges()[e].0)]@.contains(e as usize),
{
    lemma_facts_edges(net);
    lemma_layer_members(net);
    assert(net.waves@.len() == net.layers@.len());
    assert forall|e: int| 0 <= e < net.edges().len() implies
        net.layer_of(#[trigger] net.edges()[e].0) < net.layer_of(net.edges()[e].1)
            && net.waves@[net.layer_of(net.edges()[e].0)]@.contains(e as usize) by {
        assert(net.ids().contains(net.edges()[e].0));
        lemma_facts_range(net);
    }
}

/// The layers of a compiled network hold, together and once each, exactly
/// the nodes: the deduplicated edge endpoints, bias, inputs and outputs.
pub proof fn lemma_layers_cover_nodes<W>(g: Genome<W>, t: InnovationTable, net: NeuralNetwork<W>)
    requires
        net.compiled_from(g, t),
    ensures
        concat_layers(net.layers@).len() == net.ids().len(),
        concat_layers(net.layers@).no_duplicates(),
        net.ids().no_duplicates(),
        forall|n: usize| net.ids().contains(n) <==> node_candidates(genome_edges(g, t), t.inputs(), t.outputs()).contains(n),
{
}

/// A genome set against itself has no disjoint or excess genes, and each
/// gene matches itself, so every matching pair has equal weights and the
/// compatibility distance of a genome to itself is zero.
pub proof fn lemma_self_distance_zero<W>(g: Genome<W>)
    requires
        g.0@.no_duplicates(),
        g.same_lengths(),
    ensures
        excess_in(g.0@, g.0@) + excess_in(g.0@, g.0@) == 0,
        disjoint_in(g.0@, g.0@) + disjoint_in(g.0@, g.0@) == 0,
        matches_in(g.0@, g.0@).len() == g.0@.len(),
        forall|k: int| 0 <= k < matches_in(g.0@, g.0@).len() ==>
            g.1@[(#[trigger] matches_in(g.0@, g.0@)[k]).0 as int] == g.1@[matches_in(g.0@, g.0@)[k].1 as int],
{
    lemma_self_alignment(g.0@);
}

proof fn lemma_gene_edge<W>(genes: Seq<usize>, weights: Seq<W>, enabled: Seq<bool>, feats: Seq<RawInnovation>, p: int)
    requires
        genes.len() == weights.len(),
        genes.len() == enabled.len(),
        0 <= p < genes.len(),
        enabled[p],
        feats[genes[p] as int].2 == Type::Connector,
    ensures
        exists|e: int| 0 <= e < spec_edges(genes, weights, enabled, feats).len()
            && #[trigger] spec_edges(genes, weights, enabled, feats)[e].0 == feats[genes[p] as int].0
            && spec_edges(genes, weights, enabled, feats)[e].1 == feats[genes[p] as int].1,
    decreases genes.len(),
{
    let full = spec_edges(genes, weights, enabled, feats);
    let prev = spec_edges(genes.drop_last(), weights.drop_last(), enabled.drop_last(), feats);
    if p == genes.len() - 1 {
        assert(full == prev.push((feats[genes[p] as int].0, feats[genes[p] as int].1, weights[p])));
        assert(full[prev.len() as int].0 == feats[genes[p] as int].0);
    } else {
        lemma_gene_edge(genes.drop_last(), weights.drop_last(), enabled.drop_last(), feats, p);
        let e = choose|e: int| 0 <= e < prev.len() && #[trigger] prev[e].0 == feats[genes[p] as int].0
            && prev[e].1 == feats[genes[p] as int].1;
        assert(full[e] == prev[e]);
    }
}

proof fn lemma_connected_enables<W>(g: (Seq<usize>, Seq<W>, Seq<bool>), id: usize, w: W)
    requires
        g.0.len() == g.1.len(),
        g.0.len() == g.2.len(),
    ensures
        connected(g, id, w).0.len() == connected(g, id, w).1.len(),
        connected(g, id, w).0.len() == connected(g, id, w).2.len(),
        connected(g, id, w).0.len() >= g.0.len(),
        exists|p: int| 0 <= p < connected(g, id, w).0.len() && #[trigger] connected(g, id, w).0[p] == id
            && connected(g, id, w).2[p],
        forall|q: int| 0 <= q < g.0.len() ==> #[trigger] connected(g, id, w).0[q] == g.0[q]
            && (g.2[q] ==> connected(g, id, w).2[q]),
{
    let r = connected(g, id, w);
    if g.0.contains(id) {
        let p = g.0.index_of(id);
        assert(r.0[p] == id && r.2[p]);
    } else {
        assert(r.0[g.0.len() as int] == id && r.2[g.0.len() as int]);
    }
}

/// Splitting the connection `(a, b)` with a node `m` puts `m` strictly
/// between them: in any network compiled from the genome and registry that
/// `add_node` leaves, `m`'s layer is above `a`'s and below `b`'s.
pub proof fn lemma_split_node_between<W>(
    g: Genome<W>,
    t: InnovationTable,
    g2: Genome<W>,
    t2: InnovationTable,
    a: usize,
    b: usize,
    m: usize,
    w: W,
    net: NeuralNetwork<W>,
)
    requires
        g.same_lengths(),
        t2.features().len() <= usize::MAX,
        t2.features() == registered(registered(t.features(), conn_feature(a, m)), conn_feature(m, b)),
        g2.parts() == connected(
            connected(
                g.parts(),
                registered(t.features(), conn_feature(a, m)).index_of(conn_feature(a, m)) as usize,
                w,
            ),
            t2.features().index_of(conn_feature(m, b)) as usize,
            w,
        ),
        net.compiled_from(g2, t2),
    ensures
        net.layer_of(a) < net.layer_of(m),
        net.layer_of(m) < net.layer_of(b),
        forall|i: int, j: int, k: int|
            0 <= i < net.layers@.len() && 0 <= j < net.layers@.len() && 0 <= k < net.layers@.len()
                && #[trigger] net.layers@[i]@.contains(a) && #[trigger] net.layers@[j]@.contains(m)
                && #[trigger] net.layers@[k]@.contains(b) ==> i < j < k,
{
    let f1 = registered(t.features(), conn_feature(a, m));
    let f2 = t2.features();
    assert(f1.contains(conn_feature(a, m))) by {
        if !t.features().contains(conn_feature(a, m)) {
            assert(f1[t.features().len() as int] == conn_feature(a, m));
        }
    }
    let id1 = f1.index_of(conn_feature(a, m));
    assert(f1[id1] == conn_feature(a, m));
    assert(f1.len() <= f2.len());
    assert(id1 as usize as int == id1);
    assert(f2[id1] == conn_feature(a, m));
    assert(f2.contains(conn_feature(m, b))) by {
        if !f1.contains(conn_feature(m, b)) {
            assert(f2[f1.len() as int] == conn_feature(m, b));
        }
    }
    let id2 = f2.index_of(conn_feature(m, b));
    assert(f2[id2] == conn_feature(m, b));
    assert(id2 as usize as int == id2);
    let g1 = connected(g.parts(), id1 as usize, w);
    lemma_connected_enables(g.parts(), id1 as usize, w);
    lemma_connected_enables(g1, id2 as usize, w);
    let pos_am = choose|p: int| 0 <= p < g1.0.len() && #[trigger] g1.0[p] == id1 as usize && g1.2[p];
    let pos_mb = choose|p: int| 0 <= p < g2.0@.len() && #[trigger] g2.parts().0[p] == id2 as usize && g2.parts().2[p];
    assert(g2.0@[pos_am] == id1 as usize && g2.2@[pos_am]);
    lemma_gene_edge(g2.0@, g2.1@, g2.2@, f2, pos_am);
    lemma_gene_edge(g2.0@, g2.1@, g2.2@, f2, pos_mb);
    lemma_edges_point_forward(net);
    let es = net.edges();
    let e1 = choose|e: int| 0 <= e < es.len() && #[trigger] es[e].0 == a && es[e].1 == m;
    let e2 = choose|e: int| 0 <= e < es.len() && #[trigger] es[e].0 == m && es[e].1 == b;
    lemma_layer_members(net);
}

/// Registering a new feature makes it the registry's last entry, found at
/// that id alone; asking to register it again is then refused.
pub proof fn lemma_register_then_lookup(t: InnovationTable, t2: InnovationTable, raw: RawInnovation)
    requires
        t.wf(),
        t2.wf(),
        !t.features().contains(raw),
        t2.features() == t.features().push(raw),
    ensures
        t2.features().contains(raw),
        forall|i: int| 0 <= i < t2.features().len() && t2.features()[i] == raw ==> i == t.features().len(),
{
    let k = t.features().len() as int;
    assert(t2.features()[k] == raw);
    assert forall|i: int| 0 <= i < t2.features().len() && t2.features()[i] == raw implies i == k by {
        if i != k {
            assert(t2.features()[i] == t2.innovations@[i].raw());
            assert(t2.features()[k] == t2.innovations@[k].raw());
        }
    }
}

} // verus!
