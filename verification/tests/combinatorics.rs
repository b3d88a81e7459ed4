use miratope::Abstract;
use miratope::ProductKind;

fn counts(p: &Abstract) -> Vec<usize> {
    let mut out = Vec::new();
    let mut r: isize = -1;
    while r <= p.rank() {
        out.push(p.el_count(r));
        r += 1;
    }
    out
}

#[test]
fn polygon_counts_and_validity() {
    for n in 2..9usize {
        let p = Abstract::polygon(n);
        assert_eq!(p.rank(), 2);
        assert_eq!(counts(&p), vec![1, n, n, 1]);
        assert!(p.full_check());
        assert!(p.has_min_max_elements());
        assert!(p.check_incidences());
        assert!(p.is_dyadic());
    }
}

#[test]
fn base_shape_ranks() {
    assert_eq!(Abstract::nullitope().rank(), -1);
    assert_eq!(Abstract::point().rank(), 0);
    assert_eq!(Abstract::dyad().rank(), 1);
    assert_eq!(Abstract::polygon(7).rank(), 2);
}

#[test]
fn base_shapes_are_valid() {
    assert!(Abstract::nullitope().full_check());
    assert!(Abstract::point().full_check());
    assert!(Abstract::dyad().full_check());
}

#[test]
fn dual_is_involution_on_counts() {
    let shapes = vec![
        Abstract::polygon(5),
        Abstract::dyad(),
        Abstract::point(),
        Abstract::hypercube(3).unwrap(),
        Abstract::orthoplex(2).unwrap(),
    ];
    for p in shapes {
        let d = p.dual();
        let dd = d.dual();
        assert_eq!(counts(&p), counts(&dd));
        // The dual's counts are the original's, reversed.
        let mut rev = counts(&p);
        rev.reverse();
        assert_eq!(counts(&d), rev);
    }
}

#[test]
fn dual_mut_matches_dual() {
    let p = Abstract::polygon(6);
    let d = p.dual();
    let mut q = Abstract::polygon(6);
    q.dual_mut();
    assert_eq!(counts(&d), counts(&q));
}

#[test]
fn multiproduct_with_no_factors_gives_identity() {
    let empty: Vec<Abstract> = Vec::new();
    let pyr = Abstract::multipyramid(&empty).unwrap();
    assert_eq!(pyr.rank(), -1);
    assert_eq!(counts(&pyr), vec![1]);
    let pri = Abstract::multiprism(&empty).unwrap();
    assert_eq!(pri.rank(), 0);
    assert_eq!(counts(&pri), vec![1, 1]);
    let teg = Abstract::multitegum(&empty).unwrap();
    assert_eq!(counts(&teg), vec![1, 1]);
    let comb = Abstract::multicomb(&empty).unwrap();
    assert_eq!(counts(&comb), vec![1, 1]);
}

#[test]
fn multiproduct_with_one_factor_is_unchanged() {
    let p = Abstract::polygon(5);
    let factors = vec![Abstract::polygon(5)];
    let pyr = Abstract::multipyramid(&factors).unwrap();
    assert_eq!(counts(&pyr), counts(&p));
    let pri = Abstract::multiprism(&factors).unwrap();
    assert_eq!(counts(&pri), counts(&p));
    let teg = Abstract::multitegum(&factors).unwrap();
    assert_eq!(counts(&teg), counts(&p));
    let comb = Abstract::multicomb(&factors).unwrap();
    assert_eq!(counts(&comb), counts(&p));
    let gen = Abstract::multiproduct(ProductKind::Pyramid, &factors).unwrap();
    assert_eq!(counts(&gen), counts(&p));
}

#[test]
fn simplex_counts() {
    assert_eq!(counts(&Abstract::simplex(-1).unwrap()), vec![1]);
    assert_eq!(counts(&Abstract::simplex(0).unwrap()), vec![1, 1]);
    assert_eq!(counts(&Abstract::simplex(1).unwrap()), vec![1, 2, 1]);
    assert_eq!(counts(&Abstract::simplex(2).unwrap()), vec![1, 3, 3, 1]);
    assert_eq!(counts(&Abstract::simplex(3).unwrap()), vec![1, 4, 6, 4, 1]);
}

#[test]
fn hypercube_counts() {
    assert_eq!(counts(&Abstract::hypercube(-1).unwrap()), vec![1]);
    assert_eq!(counts(&Abstract::hypercube(0).unwrap()), vec![1, 1]);
    assert_eq!(counts(&Abstract::hypercube(1).unwrap()), vec![1, 2, 1]);
    assert_eq!(counts(&Abstract::hypercube(2).unwrap()), vec![1, 4, 4, 1]);
    assert_eq!(counts(&Abstract::hypercube(3).unwrap()), vec![1, 8, 12, 6, 1]);
}

#[test]
fn orthoplex_counts() {
    assert_eq!(counts(&Abstract::orthoplex(-1).unwrap()), vec![1]);
    assert_eq!(counts(&Abstract::orthoplex(0).unwrap()), vec![1, 1]);
    assert_eq!(counts(&Abstract::orthoplex(1).unwrap()), vec![1, 2, 1]);
    assert_eq!(counts(&Abstract::orthoplex(2).unwrap()), vec![1, 4, 4, 1]);
    assert_eq!(counts(&Abstract::orthoplex(3).unwrap()), vec![1, 6, 12, 8, 1]);
}

#[test]
fn products_and_duals_stay_valid() {
    let tri = Abstract::polygon(3);
    let sq = Abstract::polygon(4);
    let dy = Abstract::dyad();
    assert!(Abstract::duopyramid(&tri, &dy).full_check());
    assert!(Abstract::duoprism(&tri, &sq).full_check());
    assert!(Abstract::duotegum(&tri, &dy).full_check());
    assert!(Abstract::duocomb(&tri, &sq).full_check());
    assert!(Abstract::hypercube(3).unwrap().full_check());
    assert!(Abstract::orthoplex(3).unwrap().full_check());
    assert!(Abstract::simplex(4).unwrap().full_check());
    assert!(Abstract::hypercube(3).unwrap().dual().full_check());
    assert!(Abstract::duoprism(&tri, &sq).dual().full_check());
}

#[test]
fn single_factor_products() {
    let sq = Abstract::polygon(4);
    let pyr = sq.pyramid().unwrap();
    assert_eq!(counts(&pyr), vec![1, 5, 8, 5, 1]);
    assert!(pyr.full_check());
    let pri = sq.prism().unwrap();
    assert_eq!(counts(&pri), vec![1, 8, 12, 6, 1]);
    assert!(pri.full_check());
    let teg = sq.tegum().unwrap();
    assert_eq!(counts(&teg), vec![1, 6, 12, 8, 1]);
    assert!(teg.full_check());
}

#[test]
fn ditope_and_hosotope() {
    let sq = Abstract::polygon(4);
    let di = sq.ditope();
    assert_eq!(counts(&di), vec![1, 4, 4, 2, 1]);
    assert!(di.full_check());
    let hos = sq.hosotope();
    assert_eq!(counts(&hos), vec![1, 2, 4, 4, 1]);
    assert!(hos.full_check());
    let mut m = Abstract::polygon(4);
    m.ditope_mut();
    assert_eq!(counts(&m), counts(&di));
    let mut h = Abstract::polygon(4);
    h.hosotope_mut();
    assert_eq!(counts(&h), counts(&hos));
}

#[test]
fn max_element_vertices_cover_everything() {
    let shapes = vec![
        Abstract::polygon(6),
        Abstract::hypercube(3).unwrap(),
        Abstract::orthoplex(3).unwrap(),
        Abstract::simplex(3).unwrap(),
    ];
    for p in shapes {
        let n = p.el_count(0);
        let got = p.get_element_vertices(p.rank(), 0).unwrap();
        let want: Vec<usize> = (0..n).collect();
        assert_eq!(got, want);
    }
}

#[test]
fn element_vertices_of_smaller_elements() {
    let p = Abstract::polygon(5);
    // The nullitope has no vertices.
    assert!(p.get_element_vertices(-1, 0).is_none());
    // A vertex is its own vertex set.
    assert_eq!(p.get_element_vertices(0, 3).unwrap(), vec![3]);
    // Edge 0 of the polygon joins vertices 1 and 2.
    assert_eq!(p.get_element_vertices(1, 0).unwrap(), vec![1, 2]);
}

#[test]
fn el_counts_matches_el_count() {
    let p = Abstract::hypercube(3).unwrap();
    let cs = p.el_counts();
    assert_eq!(cs.0.len(), 5);
    let mut r: isize = -1;
    while r <= p.rank() {
        assert_eq!(*cs.index(r), p.el_count(r));
        r += 1;
    }
}
