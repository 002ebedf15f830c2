use vstd::prelude::*;
use crate::network::Neuron;

verus! {

/// The arena is consistent: each edge's endpoints are arena indices, and each
/// node lists, without repetition, exactly the edges that end at it
/// (`from_arr`) and that start at it (`to_arr`).
pub open spec fn arena_ok(neurons: Seq<Neuron>, src: Seq<usize>, dst: Seq<usize>) -> bool {
    &&& src.len() == dst.len()
    &&& forall|e: int| 0 <= e < src.len() ==> #[trigger] src[e] < neurons.len() && dst[e] < neurons.len()
    &&& forall|i: int| 0 <= i < neurons.len() ==> (#[trigger] neurons[i]).from_arr@.no_duplicates()
        && neurons[i].to_arr@.no_duplicates()
    &&& forall|i: int, b: int| 0 <= i < neurons.len() && 0 <= b < neurons[i].from_arr@.len()
        ==> (#[trigger] neurons[i].from_arr@[b]) < src.len() && dst[neurons[i].from_arr@[b] as int] == i
    &&& forall|i: int, b: int| 0 <= i < neurons.len() && 0 <= b < neurons[i].to_arr@.len()
        ==> (#[trigger] neurons[i].to_arr@[b]) < src.len() && src[neurons[i].to_arr@[b] as int] == i
    &&& forall|e: int| 0 <= e < src.len() ==> (#[trigger] neurons[dst[e] as int].from_arr@).contains(e as usize)
    &&& forall|e: int| 0 <= e < src.len() ==> (#[trigger] neurons[src[e] as int].to_arr@).contains(e as usize)
}

/// `rank` strictly increases along every edge.
pub open spec fn ranks_edges(rank: spec_fn(usize) -> nat, src: Seq<usize>, dst: Seq<usize>) -> bool {
    forall|e: int| 0 <= e < src.len() ==> rank(#[trigger] src[e]) < rank(dst[e])
}

/// Some ranking of the nodes strictly increases along every edge.
pub open spec fn arena_acyclic(src: Seq<usize>, dst: Seq<usize>) -> bool {
    exists|rank: spec_fn(usize) -> nat| #[trigger] ranks_edges(rank, src, dst)
}

/// The layers one after another.
pub open spec fn concat_layers(ls: Seq<Vec<usize>>) -> Seq<usize>
    decreases ls.len(),
{
    if ls.len() == 0 {
        Seq::empty()
    } else {
        concat_layers(ls.drop_last()) + ls.last()@
    }
}

/// `depth` is the layering by longest path from a source: a node without
/// incoming edges is at depth 0, any other sits one past the deepest source
/// of its incoming edges. `layers[k]` holds the nodes at depth `k`.
pub open spec fn layering_ok(
    neurons: Seq<Neuron>,
    src: Seq<usize>,
    dst: Seq<usize>,
    layers: Seq<Vec<usize>>,
    depth: Seq<usize>,
) -> bool {
    &&& depth.len() == neurons.len()
    &&& forall|i: int| 0 <= i < neurons.len() ==> #[trigger] depth[i] < layers.len()
    &&& forall|k: int| 0 <= k < layers.len() ==> (#[trigger] layers[k])@.no_duplicates() && layers[k]@.len() > 0
    &&& forall|k: int, b: int| 0 <= k < layers.len() && 0 <= b < layers[k]@.len() ==> (#[trigger] layers[k]@[b]) < neurons.len()
    &&& forall|k: int, i: usize| 0 <= k < layers.len() && i < neurons.len()
        ==> ((#[trigger] layers[k]@.contains(i)) <==> depth[i as int] == k)
    &&& concat_layers(layers).no_duplicates()
    &&& concat_layers(layers).len() == neurons.len()
    &&& forall|e: int| 0 <= e < src.len() ==> depth[#[trigger] src[e] as int] < depth[dst[e] as int]
    &&& forall|i: int| 0 <= i < neurons.len() && (#[trigger] neurons[i]).from_arr@.len() == 0 ==> depth[i] == 0
    &&& forall|i: int| 0 <= i < neurons.len() && (#[trigger] neurons[i]).from_arr@.len() > 0
        ==> exists|b: int| 0 <= b < neurons[i].from_arr@.len()
            && depth[src[neurons[i].from_arr@[b] as int] as int] + 1 == depth[i]
}

/// How many entries of `s` are in `f`.
pub open spec fn count_in(s: Seq<usize>, f: Set<usize>) -> nat
    decreases s.len(),
{
    if s.len() == 0 {
        0
    } else {
        count_in(s.drop_last(), f) + if f.contains(s.last()) { 1nat } else { 0nat }
    }
}

proof fn lemma_count_insert(s: Seq<usize>, f: Set<usize>, e: usize)
    requires
        s.no_duplicates(),
        !f.contains(e),
    ensures
        count_in(s, f.insert(e)) == count_in(s, f) + if s.contains(e) { 1nat } else { 0nat },
    decreases s.len(),
{
    if s.len() > 0 {
        let p = s.drop_last();
        lemma_count_insert(p, f, e);
        if p.contains(e) {
            let k = choose|k: int| 0 <= k < p.len() && p[k] == e;
            assert(s[k] == e);
            assert(s.last() != e);
        }
        if s.contains(e) && s.last() != e {
            let k = choose|k: int| 0 <= k < s.len() && s[k] == e;
            assert(p[k] == e);
        }
        if s.last() == e {
            assert(s[s.len() - 1] == e);
        }
    }
}

proof fn lemma_count_bounds(s: Seq<usize>, f: Set<usize>)
    ensures
        count_in(s, f) <= s.len(),
        count_in(s, f) == s.len() ==> forall|b: int| 0 <= b < s.len() ==> f.contains(#[trigger] s[b]),
        (forall|b: int| 0 <= b < s.len() ==> f.contains(#[trigger] s[b])) ==> count_in(s, f) == s.len(),
    decreases s.len(),
{
    if s.len() > 0 {
        let p = s.drop_last();
        lemma_count_bounds(p, f);
        if forall|b: int| 0 <= b < s.len() ==> f.contains(#[trigger] s[b]) {
            assert forall|b: int| 0 <= b < p.len() implies f.contains(#[trigger] p[b]) by {
                assert(s[b] == p[b]);
            }
            assert(f.contains(s[s.len() - 1]));
        }
        if count_in(s, f) == s.len() {
            assert forall|b: int| 0 <= b < s.len() implies f.contains(#[trigger] s[b]) by {
                if b < p.len() {
                    assert(s[b] == p[b]);
                }
            }
        }
    }
}

pub proof fn lemma_concat_contains(ls: Seq<Vec<usize>>, x: usize)
    ensures
        concat_layers(ls).contains(x) <==> exists|k: int| 0 <= k < ls.len() && (#[trigger] ls[k])@.contains(x),
    decreases ls.len(),
{
    if ls.len() > 0 {
        let p = ls.drop_last();
        let c = concat_layers(p);
        let last = ls.last()@;
        lemma_concat_contains(p, x);
        assert(concat_layers(ls) == c + last);
        if concat_layers(ls).contains(x) {
            let j = choose|j: int| 0 <= j < concat_layers(ls).len() && concat_layers(ls)[j] == x;
            if j < c.len() {
                assert(c[j] == x);
                let k = choose|k: int| 0 <= k < p.len() && (#[trigger] p[k])@.contains(x);
                assert(ls[k] == p[k]);
            } else {
                assert(last[j - c.len()] == x);
                assert(ls[ls.len() - 1]@.contains(x));
            }
        }
        if exists|k: int| 0 <= k < ls.len() && (#[trigger] ls[k])@.contains(x) {
            let k = choose|k: int| 0 <= k < ls.len() && (#[trigger] ls[k])@.contains(x);
            if k < p.len() {
                assert(p[k] == ls[k]);
                let j = choose|j: int| 0 <= j < c.len() && c[j] == x;
                assert(concat_layers(ls)[j] == x);
            } else {
                let j = choose|j: int| 0 <= j < last.len() && last[j] == x;
                assert(concat_layers(ls)[c.len() + j] == x);
            }
        }
    }
}

proof fn lemma_range_len(n: nat)
    requires
        n <= usize::MAX,
    ensures
        Set::new(|x: usize| x < n).finite(),
        Set::new(|x: usize| x < n).len() == n,
    decreases n,
{
    if n == 0 {
        assert(Set::new(|x: usize| x < n) =~= Set::<usize>::empty());
    } else {
        lemma_range_len((n - 1) as nat);
        assert(Set::new(|x: usize| x < n) =~= Set::new(|x: usize| x < (n - 1) as nat).insert((n - 1) as usize));
    }
}

/// A sequence without repetition of values below `n` has at most `n` entries,
/// and exactly `n` only when it holds every value below `n`.
proof fn lemma_bounded_no_dup(s: Seq<usize>, n: nat)
    requires
        n <= usize::MAX,
        s.no_duplicates(),
        forall|b: int| 0 <= b < s.len() ==> #[trigger] s[b] < n,
    ensures
        s.len() <= n,
        s.len() == n ==> forall|i: usize| i < n ==> s.contains(i),
        (forall|i: usize| i < n ==> s.contains(i)) ==> s.len() == n,
{
    let r = Set::new(|x: usize| x < n);
    lemma_range_len(n);
    s.unique_seq_to_set();
    assert(s.to_set().subset_of(r));
    vstd::set_lib::lemma_len_subset(s.to_set(), r);
    if s.len() == n {
        vstd::set_lib::lemma_subset_equality(s.to_set(), r);
        assert forall|i: usize| i < n implies s.contains(i) by {
            assert(r.contains(i));
        }
    }
    if forall|i: usize| i < n ==> s.contains(i) {
        assert(r.subset_of(s.to_set()));
        vstd::set_lib::lemma_len_subset(r, s.to_set());
    }
}

proof fn lemma_min_rank(rank: spec_fn(usize) -> nat, pred: spec_fn(usize) -> bool, x: usize)
    requires
        pred(x),
    ensures
        exists|y: usize| #[trigger] pred(y) && forall|z: usize| #[trigger] pred(z) ==> rank(y) <= rank(z),
    decreases rank(x),
{
    if exists|z: usize| #[trigger] pred(z) && rank(z) < rank(x) {
        let z = choose|z: usize| #[trigger] pred(z) && rank(z) < rank(x);
        lemma_min_rank(rank, pred, z);
    } else {
        assert(forall|z: usize| #[trigger] pred(z) ==> rank(x) <= rank(z));
    }
}

proof fn lemma_count_empty(s: Seq<usize>)
    ensures
        count_in(s, Set::empty()) == 0,
    decreases s.len(),
{
    if s.len() > 0 {
        lemma_count_empty(s.drop_last());
    }
}

/// Each node's counter is the number of its incoming edges that have fired,
/// and a node whose incoming edges have all fired is placed.
pub open spec fn counts_ok(neurons: Seq<Neuron>, satisfied: Seq<usize>, placed: Seq<bool>, fired: Set<usize>) -> bool {
    &&& satisfied.len() == neurons.len()
    &&& placed.len() == neurons.len()
    &&& forall|t: int| 0 <= t < neurons.len() ==> #[trigger] satisfied[t] == count_in(neurons[t].from_arr@, fired)
    &&& forall|t: int| 0 <= t < neurons.len() && #[trigger] satisfied[t] == neurons[t].from_arr@.len() ==> placed[t]
}

/// Every placed node sits deeper than the sources of all its incoming edges,
/// which are placed too, and exactly one deeper than the deepest of them.
pub open spec fn placed_sound(neurons: Seq<Neuron>, src: Seq<usize>, depth: Seq<usize>, placed: Seq<bool>) -> bool {
    &&& depth.len() == neurons.len()
    &&& placed.len() == neurons.len()
    &&& forall|t: int, b: int| 0 <= t < neurons.len() && 0 <= b < neurons[t].from_arr@.len() && placed[t]
        ==> placed[src[#[trigger] neurons[t].from_arr@[b] as int] as int]
            && depth[src[neurons[t].from_arr@[b] as int] as int] < depth[t]
    &&& forall|t: int| 0 <= t < neurons.len() && #[trigger] placed[t] && neurons[t].from_arr@.len() == 0 ==> depth[t] == 0
    &&& forall|t: int| 0 <= t < neurons.len() && #[trigger] placed[t] && neurons[t].from_arr@.len() > 0
        ==> exists|b: int| 0 <= b < neurons[t].from_arr@.len()
            && depth[src[neurons[t].from_arr@[b] as int] as int] + 1 == depth[t]
}

/// Orders the nodes into layers by exhausting in-degrees: the nodes without
/// incoming edges form layer 0; a node joins the layer after the one in which
/// the last of its incoming edges fired. Fails exactly when the edges hold a
/// cycle. Returns the layers (arena indices) and each node's layer.
pub fn layer_network(neurons: &Vec<Neuron>, src: &Vec<usize>, dst: &Vec<usize>) -> (r: Option<(Vec<Vec<usize>>, Vec<usize>)>)
    requires
        arena_ok(neurons@, src@, dst@),
    ensures
        r is Some <==> arena_acyclic(src@, dst@),
        r matches Some((layers, depth)) ==> layering_ok(neurons@, src@, dst@, layers@, depth@),
{
    let n = neurons.len();
    let m = src.len();
    let mut satisfied: Vec<usize> = Vec::new();
    let mut depth: Vec<usize> = Vec::new();
    let mut placed: Vec<bool> = Vec::new();
    let mut frontier: Vec<usize> = Vec::new();
    let mut i: usize = 0;
    while i < n
        invariant
            n == neurons@.len(),
            i <= n,
            satisfied@.len() == i,
            depth@.len() == i,
            placed@.len() == i,
            forall|t: int| 0 <= t < i ==> #[trigger] satisfied@[t] == 0 && depth@[t] == 0,
            forall|t: int| 0 <= t < i ==> (#[trigger] placed@[t] <==> neurons@[t].from_arr@.len() == 0),
            frontier@.no_duplicates(),
            forall|b: int| 0 <= b < frontier@.len() ==> #[trigger] frontier@[b] < i,
            forall|t: usize| t < i ==> (frontier@.contains(t) <==> placed@[t as int]),
        decreases n - i,
    {
        satisfied.push(0);
        depth.push(0);
        if neurons[i].from_arr.len() == 0 {
            placed.push(true);
            let ghost f0 = frontier@;
            frontier.push(i);
            assert forall|t: usize| t < i + 1 implies (frontier@.contains(t) <==> placed@[t as int]) by {
                crate::network::lemma_push_contains(f0, i, t);
            }
        } else {
            placed.push(false);
            assert forall|t: usize| t < i + 1 implies (frontier@.contains(t) <==> placed@[t as int]) by {
                if t == i && frontier@.contains(t) {
                    let b = choose|b: int| 0 <= b < frontier@.len() && frontier@[b] == t;
                }
            }
        }
        i += 1;
    }
    let ghost mut fired: Set<usize> = Set::empty();
    proof {
        assert forall|t: int, b: int| 0 <= t < n && 0 <= b < neurons@[t].from_arr@.len() && placed@[t]
            implies placed@[src@[#[trigger] neurons@[t].from_arr@[b] as int] as int]
                && depth@[src@[neurons@[t].from_arr@[b] as int] as int] < depth@[t] by {
            assert(neurons@[t].from_arr@.len() == 0);
        }
        assert forall|t: usize| t < n implies (frontier@.contains(t) <==> placed@[t as int] && depth@[t as int] == 0) by {
            assert(satisfied@[t as int] == 0);
        }
        assert forall|t: int| 0 <= t < n implies #[trigger] satisfied@[t] == count_in(neurons@[t].from_arr@, fired) by {
            lemma_count_empty(neurons@[t].from_arr@);
        }
    }
    let mut layers: Vec<Vec<usize>> = Vec::new();
    let mut level: usize = 0;
    let mut count: usize = 0;
    while frontier.len() > 0
        invariant
            arena_ok(neurons@, src@, dst@),
            n == neurons@.len(),
            m == src@.len(),
            depth@.len() == n,
            counts_ok(neurons@, satisfied@, placed@, fired),
            placed_sound(neurons@, src@, depth@, placed@),
            level == layers@.len(),
            level <= count,
            count == concat_layers(layers@).len(),
            concat_layers(layers@).no_duplicates(),
            forall|k: int| 0 <= k < level ==> (#[trigger] layers@[k])@.no_duplicates() && layers@[k]@.len() > 0,
            forall|k: int, b: int| 0 <= k < level && 0 <= b < layers@[k]@.len() ==> (#[trigger] layers@[k]@[b]) < n,
            forall|k: int, t: usize| 0 <= k < level && t < n
                ==> ((#[trigger] layers@[k]@.contains(t)) <==> placed@[t as int] && depth@[t as int] == k),
            frontier@.no_duplicates(),
            forall|b: int| 0 <= b < frontier@.len() ==> #[trigger] frontier@[b] < n,
            forall|t: usize| t < n ==> (frontier@.contains(t) <==> placed@[t as int] && depth@[t as int] == level),
            forall|t: int| 0 <= t < n && #[trigger] placed@[t] ==> depth@[t] <= level,
            forall|e: usize| fired.contains(e) <==> (e < m && placed@[src@[e as int] as int] && depth@[src@[e as int] as int] < level),
        decreases n - count,
    {
        proof {
            let c = concat_layers(layers@);
            assert forall|x: int, y: int| 0 <= x < c.len() && 0 <= y < frontier@.len() implies c[x] != frontier@[y] by {
                lemma_concat_contains(layers@, c[x]);
                assert(c.contains(c[x]));
                let k = choose|k: int| 0 <= k < layers@.len() && (#[trigger] layers@[k])@.contains(c[x]);
                let b = choose|b: int| 0 <= b < layers@[k]@.len() && layers@[k]@[b] == c[x];
                assert(layers@[k]@[b] < n);
                assert(frontier@.contains(frontier@[y]));
            }
            vstd::seq_lib::lemma_no_dup_in_concat(c, frontier@);
            assert forall|b: int| 0 <= b < (c + frontier@).len() implies #[trigger] (c + frontier@)[b] < n by {
                if b < c.len() {
                    lemma_concat_contains(layers@, c[b]);
                    assert(c.contains(c[b]));
                    let k = choose|k: int| 0 <= k < layers@.len() && (#[trigger] layers@[k])@.contains(c[b]);
                    let j = choose|j: int| 0 <= j < layers@[k]@.len() && layers@[k]@[j] == c[b];
                    assert(layers@[k]@[j] < n);
                } else {
                    assert((c + frontier@)[b] == frontier@[b - c.len()]);
                }
            }
            lemma_bounded_no_dup(c + frontier@, n as nat);
        }
        let mut next: Vec<usize> = Vec::new();
        let mut a: usize = 0;
        while a < frontier.len()
            invariant
                arena_ok(neurons@, src@, dst@),
                n == neurons@.len(),
                m == src@.len(),
                depth@.len() == n,
                level < n,
                counts_ok(neurons@, satisfied@, placed@, fired),
                placed_sound(neurons@, src@, depth@, placed@),
                level == layers@.len(),
                forall|k: int, t: usize| 0 <= k < level && t < n
                    ==> ((#[trigger] layers@[k]@.contains(t)) <==> placed@[t as int] && depth@[t as int] == k),
                frontier@.no_duplicates(),
                forall|b: int| 0 <= b < frontier@.len() ==> #[trigger] frontier@[b] < n,
                forall|t: usize| t < n ==> (frontier@.contains(t) <==> placed@[t as int] && depth@[t as int] == level),
                forall|t: int| 0 <= t < n && #[trigger] placed@[t] ==> depth@[t] <= level + 1,
                a <= frontier@.len(),
                next@.no_duplicates(),
                forall|b: int| 0 <= b < next@.len() ==> #[trigger] next@[b] < n,
                forall|t: usize| t < n ==> (next@.contains(t) <==> placed@[t as int] && depth@[t as int] == level + 1),
                forall|e: usize| fired.contains(e) <==> (e < m && ((placed@[src@[e as int] as int] && depth@[src@[e as int] as int] < level)
                    || frontier@.subrange(0, a as int).contains(src@[e as int]))),
            decreases frontier@.len() - a,
        {
            let u = frontier[a];
            assert(frontier@.contains(u));
            let outs_len = neurons[u].to_arr.len();
            let mut b: usize = 0;
            while b < outs_len
                invariant
                    arena_ok(neurons@, src@, dst@),
                    n == neurons@.len(),
                    m == src@.len(),
                    depth@.len() == n,
                    level < n,
                    counts_ok(neurons@, satisfied@, placed@, fired),
                    placed_sound(neurons@, src@, depth@, placed@),
                    level == layers@.len(),
                    forall|k: int, t: usize| 0 <= k < level && t < n
                        ==> ((#[trigger] layers@[k]@.contains(t)) <==> placed@[t as int] && depth@[t as int] == k),
                    frontier@.no_duplicates(),
                    forall|b: int| 0 <= b < frontier@.len() ==> #[trigger] frontier@[b] < n,
                    forall|t: usize| t < n ==> (frontier@.contains(t) <==> placed@[t as int] && depth@[t as int] == level),
                    forall|t: int| 0 <= t < n && #[trigger] placed@[t] ==> depth@[t] <= level + 1,
                    a < frontier@.len(),
                    u == frontier@[a as int],
                    u < n,
                    placed@[u as int],
                    depth@[u as int] == level,
                    outs_len == neurons@[u as int].to_arr@.len(),
                    b <= outs_len,
                    next@.no_duplicates(),
                    forall|b: int| 0 <= b < next@.len() ==> #[trigger] next@[b] < n,
                    forall|t: usize| t < n ==> (next@.contains(t) <==> placed@[t as int] && depth@[t as int] == level + 1),
                    forall|e: usize| fired.contains(e) <==> (e < m && ((placed@[src@[e as int] as int] && depth@[src@[e as int] as int] < level)
                        || frontier@.subrange(0, a as int).contains(src@[e as int])
                        || (src@[e as int] == u && neurons@[u as int].to_arr@.subrange(0, b as int).contains(e)))),
                decreases outs_len - b,
            {
                let e = neurons[u].to_arr[b];
                let t = dst[e];
                let ghost outs = neurons@[u as int].to_arr@;
                proof {
                    assert(outs[b as int] == e);
                    assert(e < m && src@[e as int] == u);
                    if frontier@.subrange(0, a as int).contains(u) {
                        let j = choose|j: int| 0 <= j < a && frontier@.subrange(0, a as int)[j] == u;
                        assert(frontier@[j] == frontier@[a as int]);
                    }
                    if outs.subrange(0, b as int).contains(e) {
                        let j = choose|j: int| 0 <= j < b && outs.subrange(0, b as int)[j] == e;
                        assert(outs[j] == outs[b as int]);
                    }
                    assert(!fired.contains(e));
                    assert(neurons@[t as int].from_arr@.contains(e));
                }
                let ghost old_fired = fired;
                let ghost old_placed = placed@;
                let ghost old_depth = depth@;
                let ghost old_next = next@;
                proof {
                    fired = fired.insert(e);
                    assert forall|x: int| 0 <= x < n implies
                        count_in(neurons@[x].from_arr@, fired) == count_in(neurons@[x].from_arr@, old_fired)
                            + if x == t { 1nat } else { 0nat } by {
                        lemma_count_insert(neurons@[x].from_arr@, old_fired, e);
                        if x != t && neurons@[x].from_arr@.contains(e) {
                            let j = choose|j: int| 0 <= j < neurons@[x].from_arr@.len() && neurons@[x].from_arr@[j] == e;
                            assert(dst@[neurons@[x].from_arr@[j] as int] == x);
                        }
                    }
                    lemma_count_bounds(neurons@[t as int].from_arr@, fired);
                }
                let need = neurons[t].from_arr.len();
                let s = satisfied[t] + 1;
                satisfied.set(t, s);
                if s == need && !placed[t] {
                    placed.set(t, true);
                    depth.set(t, level + 1);
                    next.push(t);
                    proof {
                        let inc = neurons@[t as int].from_arr@;
                        assert forall|j: int| 0 <= j < inc.len() implies
                            placed@[src@[inc[j] as int] as int] && depth@[src@[inc[j] as int] as int] < depth@[t as int] by {
                            assert(fired.contains(inc[j]));
                            let sj = src@[inc[j] as int];
                            if sj != u && !(old_placed[sj as int] && old_depth[sj as int] < level) {
                                assert(frontier@.subrange(0, a as int).contains(sj));
                                let q = choose|q: int| 0 <= q < a && frontier@.subrange(0, a as int)[q] == sj;
                                assert(frontier@[q] == sj);
                                assert(frontier@.contains(sj));
                            }
                            assert(sj != t);
                        }
                        let jw = choose|j: int| 0 <= j < inc.len() && inc[j] == e;
                        assert(depth@[src@[inc[jw] as int] as int] + 1 == depth@[t as int]);
                        assert forall|x: usize| x < n implies (next@.contains(x) <==> placed@[x as int] && depth@[x as int] == level + 1) by {
                            crate::network::lemma_push_contains(old_next, t, x);
                        }
                        assert(!old_next.contains(t));
                    }
                }
                proof {
                    assert forall|e2: usize| fired.contains(e2) <==> (e2 < m && ((placed@[src@[e2 as int] as int] && depth@[src@[e2 as int] as int] < level)
                        || frontier@.subrange(0, a as int).contains(src@[e2 as int])
                        || (src@[e2 as int] == u && outs.subrange(0, b + 1).contains(e2)))) by {
                        if e2 < m {
                            let s2 = src@[e2 as int];
                            assert(s2 < n);
                            if s2 == t && old_placed[s2 as int] != placed@[s2 as int] {
                                assert(depth@[s2 as int] == level + 1);
                            }
                            assert(outs.subrange(0, b + 1) == outs.subrange(0, b as int).push(e));
                            crate::network::lemma_push_contains(outs.subrange(0, b as int), e, e2);
                        }
                    }
                }
                b += 1;
            }
            proof {
                let outs = neurons@[u as int].to_arr@;
                assert(outs.subrange(0, b as int) =~= outs);
                assert(frontier@.subrange(0, a + 1) == frontier@.subrange(0, a as int).push(u));
                assert forall|e2: usize| fired.contains(e2) <==> (e2 < m && ((placed@[src@[e2 as int] as int] && depth@[src@[e2 as int] as int] < level)
                    || frontier@.subrange(0, a + 1).contains(src@[e2 as int]))) by {
                    if e2 < m {
                        crate::network::lemma_push_contains(frontier@.subrange(0, a as int), u, src@[e2 as int]);
                    }
                }
            }
            a += 1;
        }
        proof {
            assert(frontier@.subrange(0, a as int) =~= frontier@);
            let c = concat_layers(layers@);
            assert forall|x: int, y: int| 0 <= x < c.len() && 0 <= y < frontier@.len() implies c[x] != frontier@[y] by {
                lemma_concat_contains(layers@, c[x]);
                assert(c.contains(c[x]));
                let k = choose|k: int| 0 <= k < layers@.len() && (#[trigger] layers@[k])@.contains(c[x]);
                let b = choose|b: int| 0 <= b < layers@[k]@.len() && layers@[k]@[b] == c[x];
                assert(layers@[k]@[b] < n);
                assert(frontier@.contains(frontier@[y]));
            }
            vstd::seq_lib::lemma_no_dup_in_concat(c, frontier@);
        }
        let width = frontier.len();
        let ghost old_layers = layers@;
        layers.push(frontier);
        proof {
            assert(layers@.drop_last() == old_layers);
            assert(concat_layers(layers@) == concat_layers(old_layers) + layers@[level as int]@);
        }
        count = count + width;
        frontier = next;
        level = level + 1;
    }
    proof {
        let c = concat_layers(layers@);
        assert forall|b: int| 0 <= b < c.len() implies #[trigger] c[b] < n by {
            lemma_concat_contains(layers@, c[b]);
            assert(c.contains(c[b]));
            let k = choose|k: int| 0 <= k < layers@.len() && (#[trigger] layers@[k])@.contains(c[b]);
            let j = choose|j: int| 0 <= j < layers@[k]@.len() && layers@[k]@[j] == c[b];
            assert(layers@[k]@[j] < n);
        }
        lemma_bounded_no_dup(c, n as nat);
        assert forall|t: int| 0 <= t < n && #[trigger] placed@[t] implies depth@[t] < level by {
            if depth@[t] == level {
                assert(frontier@.contains(t as usize));
            }
        }
        assert forall|t: usize| t < n && placed@[t as int] implies c.contains(t) by {
            assert(layers@[depth@[t as int] as int]@.contains(t));
            lemma_concat_contains(layers@, t);
        }
    }
    if count != n {
        proof {
            let c = concat_layers(layers@);
            if arena_acyclic(src@, dst@) {
                let rank = choose|rank: spec_fn(usize) -> nat| #[trigger] ranks_edges(rank, src@, dst@);
                let x = choose|x: usize| x < n && !c.contains(x);
                let pred = |y: usize| y < n && !placed@[y as int];
                assert(pred(x));
                lemma_min_rank(rank, pred, x);
                let y = choose|y: usize| #[trigger] pred(y) && forall|z: usize| #[trigger] pred(z) ==> rank(y) <= rank(z);
                let inc = neurons@[y as int].from_arr@;
                assert forall|j: int| 0 <= j < inc.len() implies fired.contains(#[trigger] inc[j]) by {
                    let e = inc[j];
                    assert(dst@[e as int] == y);
                    assert(rank(src@[e as int]) < rank(dst@[e as int]));
                    assert(!pred(src@[e as int]));
                }
                lemma_count_bounds(inc, fired);
                assert(satisfied@[y as int] == count_in(inc, fired));
                assert(placed@[y as int]);
            }
        }
        return None;
    }
    proof {
        let c = concat_layers(layers@);
        assert forall|t: int| 0 <= t < n implies #[trigger] placed@[t] by {
            assert(c.contains(t as usize));
            lemma_concat_contains(layers@, t as usize);
            let k = choose|k: int| 0 <= k < layers@.len() && (#[trigger] layers@[k])@.contains(t as usize);
        }
        assert forall|e: int| 0 <= e < m implies depth@[#[trigger] src@[e] as int] < depth@[dst@[e] as int] by {
            assert(src@[e] < n);
            let t = dst@[e] as int;
            let inc = neurons@[t].from_arr@;
            assert(inc.contains(e as usize));
            let j = choose|j: int| 0 <= j < inc.len() && inc[j] == e as usize;
            assert(placed@[t]);
        }
        let rank = |x: usize| depth@[x as int] as nat;
        assert(ranks_edges(rank, src@, dst@));
        let ls = layers@;
        let d = depth@;
        let ns = neurons@;
        assert forall|i: int| 0 <= i < ns.len() implies #[trigger] d[i] < ls.len() by {
            assert(placed@[i]);
        }
        assert(forall|k: int| 0 <= k < ls.len() ==> (#[trigger] ls[k])@.no_duplicates() && ls[k]@.len() > 0);
        assert(forall|k: int, b: int| 0 <= k < ls.len() && 0 <= b < ls[k]@.len() ==> (#[trigger] ls[k]@[b]) < ns.len());
        assert(forall|k: int, i: usize| 0 <= k < ls.len() && i < ns.len()
            ==> ((#[trigger] ls[k]@.contains(i)) <==> d[i as int] == k));
        assert(concat_layers(ls).len() == ns.len());
        assert forall|i: int| 0 <= i < ns.len() && (#[trigger] ns[i]).from_arr@.len() == 0 implies d[i] == 0 by {
            assert(placed@[i]);
        }
        assert forall|i: int| 0 <= i < ns.len() && (#[trigger] ns[i]).from_arr@.len() > 0
            implies exists|b: int| 0 <= b < ns[i].from_arr@.len()
                && d[src@[ns[i].from_arr@[b] as int] as int] + 1 == d[i] by {
            assert(placed@[i]);
        }
    }
    Some((layers, depth))
}

} // verus!
