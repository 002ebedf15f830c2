use neat::compatibility::align_genes;
use neat::genome::Genome;

#[test]
fn gene_beyond_the_other_range_is_excess() {
    let g1 = Genome(vec![1, 2], vec![0.5, 0.5], vec![true, true]);
    let g2 = Genome(vec![1, 2, 5], vec![0.5, 0.25, 1.0], vec![true, true, true]);
    let a = align_genes(&g1, &g2);
    assert_eq!(a.excess, 1);
    assert_eq!(a.disjoint, 0);
    assert_eq!(a.matching, vec![(0, 0), (1, 1)]);
}

#[test]
fn genes_within_the_other_range_are_disjoint() {
    let g1 = Genome(vec![1, 3, 4], vec![0.0; 3], vec![true; 3]);
    let g2 = Genome(vec![5, 2, 1], vec![0.0; 3], vec![true; 3]);
    let a = align_genes(&g1, &g2);
    assert_eq!(a.disjoint, 3);
    assert_eq!(a.excess, 1);
    assert_eq!(a.matching, vec![(0, 2)]);
}

#[test]
fn a_genome_against_itself() {
    let g = Genome(vec![4, 0, 7], vec![0.3, -1.0, 2.0], vec![true, false, true]);
    let a = align_genes(&g, &g);
    assert_eq!(a.disjoint, 0);
    assert_eq!(a.excess, 0);
    assert_eq!(a.matching, vec![(0, 0), (1, 1), (2, 2)]);
}

#[test]
fn against_an_empty_genome_everything_is_excess() {
    let g = Genome(vec![3, 1], vec![0.0; 2], vec![true; 2]);
    let e: Genome<f64> = Genome(vec![], vec![], vec![]);
    let a = align_genes(&g, &e);
    assert_eq!(a.excess, 2);
    assert_eq!(a.disjoint, 0);
    assert!(a.matching.is_empty());
}
