use miratope::Abstract;
use miratope::Chart;
use miratope::Coord;
use miratope::LinearMap;
use miratope::Polytope;
use miratope::compound;
use miratope::compound_from_trans;
use miratope::dual_vertices;

use nalgebra::DMatrix;
use nalgebra::DVector;

const EPS: f64 = 1e-9;

/// A Euclidean point backed by a dynamic real vector.
#[derive(Clone, Debug)]
struct Pt(DVector<f64>);

impl Pt {
    fn of(coords: &[f64]) -> Pt {
        Pt(DVector::from_vec(coords.to_vec()))
    }

    fn dist(&self, other: &Pt) -> f64 {
        (&self.0 - &other.0).norm()
    }
}

impl Coord for Pt {
    fn dim(&self) -> usize {
        self.0.len()
    }

    fn origin(dim: usize) -> Pt {
        Pt(DVector::zeros(dim))
    }

    fn sub(&self, other: &Pt) -> Pt {
        Pt(&self.0 - &other.0)
    }

    fn mean(points: &Vec<Pt>) -> Pt {
        let mut acc = DVector::zeros(points[0].0.len());
        for p in points {
            acc += &p.0;
        }
        Pt(acc / (points.len() as f64))
    }

    fn reciprocate(&self, center: &Pt) -> Option<Pt> {
        let v = &self.0 - &center.0;
        let s = v.norm_squared();
        if s < EPS {
            None
        } else {
            Some(Pt(v / s + &center.0))
        }
    }

    fn circumcenter_step(o: &Pt, v0: &Pt, v: &Pt, b: &Pt) -> Pt {
        let k = ((&o.0 - &v.0).norm_squared() - (&o.0 - &v0.0).norm_squared()) / (2.0 * (&v.0
            - &v0.0).dot(&b.0));
        Pt(&o.0 + &b.0 * k)
    }

    fn equidistant(o: &Pt, a: &Pt, b: &Pt) -> bool {
        ((&o.0 - &a.0).norm() - (&o.0 - &b.0).norm()).abs() <= EPS
    }
}

/// A growing orthonormal basis of the affine hull of the points seen.
struct Fit {
    base: DVector<f64>,
    basis: Vec<DVector<f64>>,
}

impl Chart<Pt> for Fit {
    fn new(base: &Pt) -> Fit {
        Fit { base: base.0.clone(), basis: Vec::new() }
    }

    fn add(&mut self, p: &Pt) -> Option<Pt> {
        let mut v = &p.0 - &self.base;
        for b in &self.basis {
            let d = v.dot(b);
            v -= b * d;
        }
        let norm = v.norm();
        if norm > EPS {
            let u = v / norm;
            self.basis.push(u.clone());
            Some(Pt(u))
        } else {
            None
        }
    }

    fn project(&self, p: &Pt) -> Pt {
        let d = &p.0 - &self.base;
        let mut out = self.base.clone();
        for b in &self.basis {
            out += b * d.dot(b);
        }
        Pt(out)
    }
}

/// A plane transformation backed by a dynamic real matrix.
struct Rotation(DMatrix<f64>);

impl LinearMap<Pt> for Rotation {
    fn apply_to(&self, v: &Pt) -> Pt {
        Pt(&self.0 * &v.0)
    }
}

/// A regular polygon with unit edge length, centred at the origin.
fn regular_polygon(n: usize) -> Polytope<Pt> {
    let radius = 1.0 / (2.0 * (std::f64::consts::PI / (n as f64)).sin());
    let mut vertices = Vec::new();
    for k in 0..n {
        let a = 2.0 * std::f64::consts::PI * (k as f64) / (n as f64);
        vertices.push(Pt::of(&[radius * a.cos(), radius * a.sin()]));
    }
    Polytope::new(vertices, Abstract::polygon(n))
}

#[test]
fn regular_polygon_circumradius() {
    for n in 3..10usize {
        let p = regular_polygon(n);
        let center = p.circumcenter::<Fit>().unwrap();
        let radius = center.dist(&p.vertices[0]);
        let want = 1.0 / (2.0 * (std::f64::consts::PI / (n as f64)).sin());
        assert!((radius - want).abs() <= EPS);
        assert!(center.dist(&Pt::of(&[0.0, 0.0])) <= EPS);
    }
}

#[test]
fn circumcenter_rejects_unbalanced_points() {
    // Three collinear points at distinct spacings have no circumsphere.
    let vertices = vec![Pt::of(&[0.0, 0.0]), Pt::of(&[1.0, 0.0]), Pt::of(&[5.0, 0.0])];
    let p = Polytope::new(vertices, Abstract::polygon(3));
    assert!(p.circumcenter::<Fit>().is_none());
}

#[test]
fn polygon_with_edge_through_origin_has_no_dual() {
    // Edge 3 of this square joins vertices 0 and 1, which span the
    // vertical axis through the origin: reciprocation about the origin
    // must report absence.
    let vertices = vec![
        Pt::of(&[0.0, -1.0]),
        Pt::of(&[0.0, 1.0]),
        Pt::of(&[2.0, 1.0]),
        Pt::of(&[2.0, -1.0]),
    ];
    let p = Polytope::new(vertices, Abstract::polygon(4));
    let o = Pt::of(&[0.0, 0.0]);
    assert!(p.dual_with_center::<Fit>(&o).is_none());
}

#[test]
fn square_dual_is_a_square() {
    let p = regular_polygon(4);
    let d = p.dual::<Fit>().unwrap();
    assert_eq!(d.abs.el_count(-1), 1);
    assert_eq!(d.abs.el_count(0), 4);
    assert_eq!(d.abs.el_count(1), 4);
    assert_eq!(d.abs.el_count(2), 1);
    assert_eq!(d.vertices.len(), 4);
    assert!(d.abs.full_check());
    // Reciprocating twice about the same sphere restores the vertices.
    let dd = d.dual::<Fit>().unwrap();
    for k in 0..4 {
        // The dual reverses the facet order; vertex k of the double
        // dual is some vertex of the original square.
        let back = &dd.vertices[k];
        assert!(p.vertices.iter().any(|v| v.dist(back) <= 1e-6));
    }
}

#[test]
fn dual_vertices_of_a_dyad() {
    let vertices = vec![Pt::of(&[2.0]), Pt::of(&[-4.0])];
    let abs = Abstract::dyad();
    let o = Pt::of(&[0.0]);
    let dv = dual_vertices::<Pt, Fit>(&vertices, &abs, &o).unwrap();
    assert_eq!(dv.len(), 2);
    assert!((dv[0].0[0] - 0.5).abs() <= EPS);
    assert!((dv[1].0[0] + 0.25).abs() <= EPS);
}

#[test]
fn shift_and_recenter() {
    let p = regular_polygon(5);
    let shifted = p.shift(Pt::of(&[3.0, -2.0]));
    let g = shifted.gravicenter().unwrap();
    assert!(g.dist(&Pt::of(&[-3.0, 2.0])) <= EPS);
    let centred = shifted.recenter();
    let g2 = centred.gravicenter().unwrap();
    assert!(g2.dist(&Pt::of(&[0.0, 0.0])) <= EPS);
}

#[test]
fn apply_rotates_vertices() {
    let p = regular_polygon(4);
    let first = p.vertices[0].clone();
    let rot = Rotation(DMatrix::from_row_slice(2, 2, &[0.0, -1.0, 1.0, 0.0]));
    let turned = p.apply(&rot);
    assert_eq!(turned.vertices.len(), 4);
    let want = Pt::of(&[-first.0[1], first.0[0]]);
    assert!(turned.vertices[0].dist(&want) <= EPS);
}

#[test]
fn compound_of_two_triangles() {
    let a = regular_polygon(3);
    let b = regular_polygon(3).shift(Pt::of(&[5.0, 0.0]));
    let c = compound(&vec![a, b]);
    assert_eq!(c.abs.el_count(-1), 1);
    assert_eq!(c.abs.el_count(0), 6);
    assert_eq!(c.abs.el_count(1), 6);
    assert_eq!(c.abs.el_count(2), 2);
    assert_eq!(c.vertices.len(), 6);
    assert!(c.abs.check_incidences());
    // The second factor's edges point at the second factor's vertices.
    let e = c.abs.get_element_vertices(1, 3).unwrap();
    assert!(e.iter().all(|&v| v >= 3));
}

#[test]
fn compound_from_two_transforms() {
    let p = regular_polygon(4);
    let identity = Rotation(DMatrix::identity(2, 2));
    let half_turn = Rotation(DMatrix::from_row_slice(2, 2, &[-1.0, 0.0, 0.0, -1.0]));
    let c = compound_from_trans(&p, &vec![identity, half_turn]);
    assert_eq!(c.abs.el_count(0), 8);
    assert_eq!(c.abs.el_count(1), 8);
    assert_eq!(c.abs.el_count(2), 2);
    assert_eq!(c.vertices.len(), 8);
}

#[test]
fn concrete_element_vertices() {
    let p = regular_polygon(4);
    let edge = p.get_element_vertices(1, 0).unwrap();
    assert_eq!(edge.len(), 2);
    // Edge 0 joins vertices 1 and 2.
    assert!(edge[0].dist(&p.vertices[1]) <= EPS);
    assert!(edge[1].dist(&p.vertices[2]) <= EPS);
    assert!(p.get_element_vertices(-1, 0).is_none());
}

#[test]
fn dual_of_point_is_itself() {
    let p = Polytope::new(vec![Pt::of(&[1.5])], Abstract::point());
    let d = p.dual::<Fit>().unwrap();
    assert_eq!(d.vertices.len(), 1);
    assert_eq!(d.abs.el_count(0), 1);
}
