use vstd::prelude::*;
use crate::genome::Genome;
use crate::network::find_index;

verus! {

/// Every id of `other` is below `id`: `id` lies beyond the other genome's
/// historical range.
pub open spec fn beyond(id: usize, other: Seq<usize>) -> bool {
    forall|k: int| 0 <= k < other.len() ==> #[trigger] other[k] < id
}

/// How many genes of `a` are missing from `b` and lie beyond `b`'s range.
pub open spec fn excess_in(a: Seq<usize>, b: Seq<usize>) -> nat
    decreases a.len(),
{
    if a.len() == 0 {
        0
    } else {
        excess_in(a.drop_last(), b) + if !b.contains(a.last()) && beyond(a.last(), b) { 1nat } else { 0nat }
    }
}

/// How many genes of `a` are missing from `b` and lie within `b`'s range.
pub open spec fn disjoint_in(a: Seq<usize>, b: Seq<usize>) -> nat
    decreases a.len(),
{
    if a.len() == 0 {
        0
    } else {
        disjoint_in(a.drop_last(), b) + if !b.contains(a.last()) && !beyond(a.last(), b) { 1nat } else { 0nat }
    }
}

/// The matching genes, in the order of `a`: the position of each in `a` and
/// in `b`.
pub open spec fn matches_in(a: Seq<usize>, b: Seq<usize>) -> Seq<(usize, usize)>
    decreases a.len(),
{
    if a.len() == 0 {
        Seq::empty()
    } else {
        let prev = matches_in(a.drop_last(), b);
        if b.contains(a.last()) {
            prev.push(((a.len() - 1) as usize, b.index_of(a.last()) as usize))
        } else {
            prev
        }
    }
}

/// Two genomes aligned by feature id: the matching genes as pairs of
/// positions, and the counts of disjoint and excess genes over both.
pub struct GeneAlignment {
    pub matching: Vec<(usize, usize)>,
    pub disjoint: usize,
    pub excess: usize,
}

fn all_below(id: usize, other: &Vec<usize>) -> (r: bool)
    ensures
        r == beyond(id, other@),
{
    let mut k: usize = 0;
    while k < other.len()
        invariant
            k <= other@.len(),
            forall|x: int| 0 <= x < k ==> #[trigger] other@[x] < id,
        decreases other@.len() - k,
    {
        if other[k] >= id {
            return false;
        }
        k += 1;
    }
    true
}

/// The genes of `a` set against `b`: matches, disjoint and excess counts.
fn classify(a: &Vec<usize>, b: &Vec<usize>) -> (r: (Vec<(usize, usize)>, usize, usize))
    requires
        b@.no_duplicates(),
    ensures
        r.0@ == matches_in(a@, b@),
        r.1 == disjoint_in(a@, b@),
        r.2 == excess_in(a@, b@),
        r.1 + r.2 <= a@.len(),
{
    let mut matching: Vec<(usize, usize)> = Vec::new();
    let mut disjoint: usize = 0;
    let mut excess: usize = 0;
    let mut i: usize = 0;
    while i < a.len()
        invariant
            b@.no_duplicates(),
            i <= a@.len(),
            matching@ == matches_in(a@.subrange(0, i as int), b@),
            disjoint == disjoint_in(a@.subrange(0, i as int), b@),
            excess == excess_in(a@.subrange(0, i as int), b@),
            disjoint + excess <= i,
        decreases a@.len() - i,
    {
        let id = a[i];
        let ghost pre = a@.subrange(0, i + 1);
        assert(pre.drop_last() =~= a@.subrange(0, i as int));
        assert(pre.last() == id);
        match find_index(b, id) {
            Some(j) => {
                assert(b@.contains(id));
                assert(b@.index_of(id) == j);
                matching.push((i, j));
            },
            None => {
                if all_below(id, b) {
                    excess = excess + 1;
                } else {
                    disjoint = disjoint + 1;
                }
            },
        }
        i += 1;
    }
    assert(a@.subrange(0, i as int) =~= a@);
    (matching, disjoint, excess)
}

/// Aligns two genomes by feature id. A gene is matching when its id is in
/// both; a gene of one genome whose id the other lacks is excess when it is
/// above every id of the other, and disjoint otherwise. Matching pairs are
/// listed in the order of `g1`.
pub fn align_genes<W>(g1: &Genome<W>, g2: &Genome<W>) -> (r: GeneAlignment)
    requires
        g1.0@.no_duplicates(),
        g2.0@.no_duplicates(),
        g1.0@.len() + g2.0@.len() <= usize::MAX,
    ensures
        r.matching@ == matches_in(g1.0@, g2.0@),
        r.disjoint == disjoint_in(g1.0@, g2.0@) + disjoint_in(g2.0@, g1.0@),
        r.excess == excess_in(g1.0@, g2.0@) + excess_in(g2.0@, g1.0@),
        g1.0@ == g2.0@ ==> {
            &&& r.excess == 0
            &&& r.disjoint == 0
            &&& r.matching@ == Seq::new(g1.0@.len(), |i: int| (i as usize, i as usize))
        },
{
    proof {
        if g1.0@ == g2.0@ {
            lemma_self_alignment(g1.0@);
        }
    }
    let (matching, d1, e1) = classify(&g1.0, &g2.0);
    let (_, d2, e2) = classify(&g2.0, &g1.0);
    GeneAlignment { matching, disjoint: d1 + d2, excess: e1 + e2 }
}

/// A genome set against itself has no disjoint or excess genes, and each
/// gene matches itself, so that the weight difference of every match is 0.
pub proof fn lemma_self_alignment(a: Seq<usize>)
    requires
        a.no_duplicates(),
    ensures
        excess_in(a, a) == 0,
        disjoint_in(a, a) == 0,
        matches_in(a, a) == Seq::new(a.len(), |i: int| (i as usize, i as usize)),
{
    lemma_self_prefix(a, a.len() as int);
    assert(a.subrange(0, a.len() as int) =~= a);
}

proof fn lemma_self_prefix(a: Seq<usize>, k: int)
    requires
        a.no_duplicates(),
        0 <= k <= a.len(),
    ensures
        excess_in(a.subrange(0, k), a) == 0,
        disjoint_in(a.subrange(0, k), a) == 0,
        matches_in(a.subrange(0, k), a) == Seq::new(k as nat, |i: int| (i as usize, i as usize)),
    decreases k,
{
    if k > 0 {
        let p = a.subrange(0, k);
        assert(p.drop_last() =~= a.subrange(0, k - 1));
        lemma_self_prefix(a, k - 1);
        assert(p.last() == a[k - 1]);
        assert(a.contains(a[k - 1]));
        assert(a.index_of(a[k - 1]) == k - 1);
        assert(matches_in(p, a) =~= Seq::new(k as nat, |i: int| (i as usize, i as usize)));
    }
}

} // verus!
