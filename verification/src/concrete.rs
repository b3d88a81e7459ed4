use vstd::prelude::*;

use crate::dual::transpose_subs;
use crate::element::Element;
use crate::element::ElementList;
use crate::geom::Chart;
use crate::geom::Coord;
use crate::geom::LinearMap;
use crate::poset::Abstract;

verus! {

/// A concrete polytope: an abstract incidence structure together with
/// one coordinate point per vertex, in the vertex layer's order.
#[derive(Debug, Clone)]
pub struct Polytope<P> {
    /// The coordinates of the vertices, one per rank-0 element.
    pub vertices: Vec<P>,
    /// The underlying abstract polytope.
    pub abs: Abstract,
}

impl<P> Polytope<P> {
    /// The vertex list and the vertex layer agree, and the ranks fit
    /// the signed indices used by callers.
    pub open spec fn wf(self) -> bool {
        self.abs.bounded() && self.vertices@.len() == self.abs.count(0)
    }

    /// Pairs a vertex list with an abstract polytope.
    pub fn new(vertices: Vec<P>, abs: Abstract) -> (r: Polytope<P>)
        requires
            abs.bounded(),
            vertices@.len() == abs.count(0),
        ensures
            r.vertices == vertices,
            r.abs == abs,
            r.wf(),
    {
        Polytope { vertices, abs }
    }

    /// The rank of the polytope.
    pub fn rank(&self) -> (r: isize)
        requires
            self.abs.bounded(),
        ensures
            r == self.abs.spec_rank(),
    {
        self.abs.rank()
    }
}

impl<P: Coord> Polytope<P> {
    /// The dimension of the space the polytope lives in, or nothing for
    /// a polytope without vertices.
    pub fn dim(&self) -> (r: Option<usize>)
        ensures
            r is Some <==> self.vertices@.len() > 0,
    {
        if self.vertices.len() > 0 {
            Some(self.vertices[0].dim())
        } else {
            None
        }
    }

    /// A polytope with the same incidence structure and as many
    /// vertices, each a clone of the original's.
    pub fn duplicate_poly(&self) -> (r: Polytope<P>)
        ensures
            r.vertices@.len() == self.vertices@.len(),
            Abstract::same_model(self.abs, r.abs),
            Abstract::same_model(r.abs, self.abs),
            self.wf() ==> r.wf(),
    {
        Polytope { vertices: self.vertices.clone(), abs: self.abs.duplicate() }
    }

    /// Shifts every vertex by the negated offset `o`, leaving the
    /// incidence structure untouched.
    pub fn shift(self, o: P) -> (r: Polytope<P>)
        ensures
            r.abs == self.abs,
            r.vertices@.len() == self.vertices@.len(),
    {
        let mut vertices = self.vertices;
        let n = vertices.len();
        for i in 0..n
            invariant
                n == vertices@.len(),
        {
            let moved = vertices[i].sub(&o);
            vertices.set(i, moved);
        }
        Polytope { vertices, abs: self.abs }
    }

    /// The arithmetic mean of the vertices, or nothing for the
    /// nullitope.
    pub fn gravicenter(&self) -> (r: Option<P>)
        ensures
            r is Some <==> self.vertices@.len() > 0,
    {
        if self.vertices.len() > 0 {
            Some(P::mean(&self.vertices))
        } else {
            None
        }
    }

    /// Moves the gravicenter to the origin; a polytope without vertices
    /// is returned unchanged.
    pub fn recenter(self) -> (r: Polytope<P>)
        ensures
            r.abs == self.abs,
            r.vertices@.len() == self.vertices@.len(),
    {
        match self.gravicenter() {
            Some(g) => self.shift(g),
            None => self,
        }
    }

    /// Applies a linear map to every vertex, leaving the incidence
    /// structure untouched.
    pub fn apply<M: LinearMap<P>>(self, m: &M) -> (r: Polytope<P>)
        ensures
            r.abs == self.abs,
            r.vertices@.len() == self.vertices@.len(),
    {
        let mut vertices = self.vertices;
        let n = vertices.len();
        for i in 0..n
            invariant
                n == vertices@.len(),
        {
            let moved = m.apply_to(&vertices[i]);
            vertices.set(i, moved);
        }
        Polytope { vertices, abs: self.abs }
    }

    /// The coordinates of the vertices below the element `idx` of rank
    /// `rank`, in ascending vertex order; the nullitope has none.
    pub fn get_element_vertices(&self, rank: isize, idx: usize) -> (r: Option<Vec<P>>)
        requires
            self.wf(),
            self.abs.incidences_ok(),
            -1 <= rank <= self.abs.spec_rank(),
            rank >= 0 ==> (idx as int) < self.abs.count(rank as int),
        ensures
            (rank == -1) <==> (r is None),
            r is Some ==> (r->Some_0)@.len() == self.abs.vertex_closure(
                rank as int,
                Set::<usize>::empty().insert(idx),
            ).len(),
            r is Some ==> (r->Some_0)@.len() <= self.vertices@.len(),
    {
        match self.abs.get_element_vertices(rank, idx) {
            Some(ix) => {
                let mut pts: Vec<P> = Vec::new();
                let n = ix.len();
                proof {
                    lemma_strict_sorted_bound(ix@);
                    if n > 0 {
                        assert(ix@[n - 1] as int >= n - 1);
                        assert(ix@[n - 1] < self.abs.count(0));
                    }
                    assert(n <= self.abs.count(0));
                }
                for k in 0..n
                    invariant
                        n == ix@.len(),
                        pts@.len() == k,
                        forall|k2: int| 0 <= k2 < n ==> (#[trigger] ix@[k2] as int) < self.abs.count(
                            0,
                        ),
                        self.wf(),
                {
                    let v = self.vertices[ix[k]].clone();
                    pts.push(v);
                }
                Some(pts)
            },
            None => None,
        }
    }

    /// The circumcentre of the vertices, found by growing a `Chart`
    /// over them: each fresh basis direction moves the candidate centre
    /// to even out the distances, and a vertex inside the subspace at
    /// the wrong distance rules a centre out.
    /// Nothing when no point is equidistant from all vertices, as the
    /// chart and coordinate implementations measure it.
    pub fn circumcenter<C: Chart<P>>(&self) -> (r: Option<P>)
        requires
            self.vertices@.len() > 0,
        ensures
            self.vertices@.len() == 1 ==> r is Some,
    {
        let v0 = self.vertices[0].clone();
        let mut o = self.vertices[0].clone();
        let mut chart = C::new(&self.vertices[0]);
        let n = self.vertices.len();
        for i in 1..n
            invariant
                n == self.vertices@.len(),
        {
            match chart.add(&self.vertices[i]) {
                Some(b) => {
                    o = P::circumcenter_step(&o, &v0, &self.vertices[i], &b);
                },
                None => {
                    if !P::equidistant(&o, &v0, &self.vertices[i]) {
                        return None;
                    }
                },
            }
        }
        Some(o)
    }

    /// The reciprocal dual about the unit sphere at `o`: the centre is
    /// first projected onto the polytope's own hull, each facet's
    /// supporting subspace receives the projected centre, and the
    /// projections are inverted.  Nothing when a facet passes through
    /// the centre, as the coordinate implementation measures it, or
    /// when a facet has no vertices to support it.
    pub fn dual_with_center<C: Chart<P>>(&self, o: &P) -> (r: Option<Polytope<P>>)
        requires
            self.wf(),
            self.abs.incidences_ok(),
        ensures
            self.abs.spec_rank() < 1 ==> r is Some,
            (self.abs.spec_rank() >= 1 && self.vertices@.len() == 0) ==> r is None,
            r is Some ==> (r->Some_0).wf(),
            r is Some ==> (r->Some_0).abs.incidences_ok(),
            self.abs.spec_rank() >= 1 && r is Some ==> {
                let m = r->Some_0;
                &&& m.abs.spec_rank() == self.abs.spec_rank()
                &&& (forall|k: int|
                    -1 <= k <= self.abs.spec_rank() ==> #[trigger] m.abs.count(k) == self.abs.count(
                        self.abs.spec_rank() - 1 - k,
                    ))
                &&& (forall|k: int, i: int|
                    -1 <= k <= self.abs.spec_rank() && 0 <= i < m.abs.count(k)
                        ==> #[trigger] m.abs.subs(k, i) == transpose_subs(
                        self.abs,
                        self.abs.spec_rank() - k,
                        i,
                    ))
            },
            self.abs.spec_rank() < 1 && r is Some ==> {
                let m = r->Some_0;
                &&& Abstract::same_model(self.abs, m.abs)
                &&& m.vertices@.len() == self.vertices@.len()
            },
    {
        let rank = self.abs.rank();
        if rank < 1 {
            let copy = self.duplicate_poly();
            proof {
                crate::laws::lemma_incidences_congruence(self.abs, copy.abs);
            }
            return Some(copy);
        }
        if self.vertices.len() == 0 {
            return None;
        }
        // Projects the reciprocation centre onto the polytope's own
        // supporting subspace first, so that a skew centre cannot tilt
        // the dual.
        let mut hull = C::new(&self.vertices[0]);
        let n = self.vertices.len();
        for i in 1..n
            invariant
                n == self.vertices@.len(),
        {
            let _ = hull.add(&self.vertices[i]);
        }
        let o2 = hull.project(o);
        match dual_vertices::<P, C>(&self.vertices, &self.abs, &o2) {
            Some(dv) => {
                let dabs = self.abs.dual();
                proof {
                    // One dual vertex per facet is one vertex per
                    // rank-0 element of the abstract dual.
                    assert(dabs.count(0) == self.abs.count(self.abs.spec_rank() - 1));
                    assert(dv@.len() == dabs.count(0));
                }
                Some(Polytope { vertices: dv, abs: dabs })
            },
            None => None,
        }
    }

    /// The reciprocal dual about the unit sphere at the origin.
    pub fn dual<C: Chart<P>>(&self) -> (r: Option<Polytope<P>>)
        requires
            self.wf(),
            self.abs.incidences_ok(),
        ensures
            self.abs.spec_rank() < 1 ==> r is Some,
            r is Some ==> (r->Some_0).wf(),
            r is Some ==> (r->Some_0).abs.incidences_ok(),
            self.abs.spec_rank() >= 1 && r is Some ==> {
                let m = r->Some_0;
                &&& m.abs.spec_rank() == self.abs.spec_rank()
                &&& (forall|k: int|
                    -1 <= k <= self.abs.spec_rank() ==> #[trigger] m.abs.count(k) == self.abs.count(
                        self.abs.spec_rank() - 1 - k,
                    ))
                &&& (forall|k: int, i: int|
                    -1 <= k <= self.abs.spec_rank() && 0 <= i < m.abs.count(k)
                        ==> #[trigger] m.abs.subs(k, i) == transpose_subs(
                        self.abs,
                        self.abs.spec_rank() - k,
                        i,
                    ))
            },
            self.abs.spec_rank() < 1 && r is Some ==> {
                let m = r->Some_0;
                &&& Abstract::same_model(self.abs, m.abs)
                &&& m.vertices@.len() == self.vertices@.len()
            },
    {
        let d = match self.dim() {
            Some(d) => d,
            None => 0,
        };
        let o = P::origin(d);
        self.dual_with_center::<C>(&o)
    }
}

/// The combined element count at rank `r` over a list of posets.
pub open spec fn sum_counts(ps: Seq<Abstract>, r: int) -> int
    decreases ps.len(),
{
    if ps.len() == 0 {
        0
    } else {
        sum_counts(ps.drop_last(), r) + ps.last().count(r)
    }
}

pub proof fn lemma_sum_counts_nonneg(ps: Seq<Abstract>, r: int)
    ensures
        sum_counts(ps, r) >= 0,
    decreases ps.len(),
{
    if ps.len() > 0 {
        lemma_sum_counts_nonneg(ps.drop_last(), r);
    }
}

/// Extending the prefix by one poset adds its count.
pub proof fn lemma_sum_counts_step(ps: Seq<Abstract>, r: int, f: int)
    requires
        0 <= f < ps.len(),
    ensures
        sum_counts(ps.take(f + 1), r) == sum_counts(ps.take(f), r) + ps[f].count(r),
{
    assert(ps.take(f + 1).drop_last() =~= ps.take(f));
    assert(ps.take(f + 1).last() == ps[f]);
}

pub proof fn lemma_sum_counts_take_full(ps: Seq<Abstract>, r: int)
    ensures
        sum_counts(ps.take(ps.len() as int), r) == sum_counts(ps, r),
{
    assert(ps.take(ps.len() as int) =~= ps);
}

/// A list of posets with one shared count contributes that count once
/// per entry.
pub proof fn lemma_sum_counts_uniform(ps: Seq<Abstract>, r: int, c: int)
    requires
        forall|f: int| 0 <= f < ps.len() ==> #[trigger] ps[f].count(r) == c,
    ensures
        sum_counts(ps, r) == ps.len() * c,
    decreases ps.len(),
{
    if ps.len() == 0 {
    } else {
        let d = ps.drop_last();
        assert(forall|f: int| 0 <= f < d.len() ==> #[trigger] d[f].count(r) == c);
        lemma_sum_counts_uniform(d, r, c);
        assert(ps.last().count(r) == c);
        assert(ps.len() as int * c == d.len() as int * c + c) by (nonlinear_arith)
            requires
                ps.len() == d.len() + 1,
        ;
    }
}

/// The subelement list an element receives in a compound: its own
/// subelements, moved up by the number of lower-rank elements that
/// earlier factors contributed (vertices keep referring to the single
/// shared minimal element).
pub open spec fn compound_subs(absseq: Seq<Abstract>, f: int, rr: int, i: int) -> Seq<usize> {
    let off = if rr == 0 {
        0int
    } else {
        sum_counts(absseq.take(f), rr - 1)
    };
    Seq::new(absseq[f].subs(rr, i).len(), |k: int| (absseq[f].subs(rr, i)[k] + off) as usize)
}

/// Every per-rank total of a compound fits the machine's sizes.
pub open spec fn compound_fits(absseq: Seq<Abstract>, rank: int) -> bool {
    forall|r: int| 0 <= r <= rank ==> #[trigger] sum_counts(absseq, r) <= usize::MAX
}

/// Merges several polytopes of one rank into a compound: a single
/// shared minimal element, and every other layer the concatenation of
/// the factors' layers, each factor's subelement indices moved past the
/// elements of the factors before it.  The top layer keeps one maximal
/// element per factor.
#[verifier::loop_isolation(false)]
#[verifier::rlimit(60)]
pub fn compound<P: Coord>(polytopes: &Vec<Polytope<P>>) -> (r: Polytope<P>)
    requires
        polytopes@.len() >= 1,
        forall|f: int| 0 <= f < polytopes@.len() ==> (#[trigger] polytopes@[f]).wf(),
        forall|f: int|
            0 <= f < polytopes@.len() ==> (#[trigger] polytopes@[f]).abs.incidences_ok(),
        forall|f: int|
            0 <= f < polytopes@.len() ==> (#[trigger] polytopes@[f]).abs.spec_rank()
                == polytopes@[0].abs.spec_rank(),
        polytopes@[0].abs.spec_rank() >= -1,
        compound_fits(polytopes@.map_values(|p: Polytope<P>| p.abs), polytopes@[0].abs.spec_rank()),
    ensures
        ({
            let absseq = polytopes@.map_values(|p: Polytope<P>| p.abs);
            let rank = polytopes@[0].abs.spec_rank();
            &&& r.wf()
            &&& r.abs.spec_rank() == rank
            &&& r.abs.count(-1) == 1
            &&& r.abs.subs(-1, 0) == Seq::<usize>::empty()
            &&& (forall|rr: int|
                0 <= rr <= rank ==> #[trigger] r.abs.count(rr) == sum_counts(absseq, rr))
            &&& r.vertices@.len() == sum_counts(absseq, 0)
            &&& (forall|f: int, rr: int, i: int|
                0 <= f < absseq.len() && 0 <= rr <= rank && 0 <= i < absseq[f].count(rr)
                    ==> #[trigger] r.abs.subs(rr, sum_counts(absseq.take(f), rr) + i)
                    == compound_subs(absseq, f, rr, i))
        }),
{
    let ghost absseq = polytopes@.map_values(|p: Polytope<P>| p.abs);
    let nfac = polytopes.len();
    let rank = polytopes[0].abs.rank();
    let ghost grank = rank as int;
    // The concatenated vertex coordinates, factor by factor.
    let mut vertices: Vec<P> = Vec::new();
    for f in 0..nfac
        invariant
            vertices@.len() == sum_counts(absseq.take(f as int), 0),
    {
        proof {
            lemma_sum_counts_step(absseq, 0, f as int);
        }
        let m = polytopes[f].vertices.len();
        for k in 0..m
            invariant
                f < nfac,
                m == polytopes@[f as int].vertices@.len(),
                vertices@.len() == sum_counts(absseq.take(f as int), 0) + k,
        {
            let v = polytopes[f].vertices[k].clone();
            vertices.push(v);
        }
    }
    proof {
        lemma_sum_counts_take_full(absseq, 0);
    }
    // The merged layers: the shared minimal element, then one
    // concatenated layer per rank.
    let mut layers: Vec<ElementList> = Vec::new();
    layers.push(ElementList::min());
    let lcount = (rank + 1) as usize;
    for lv in 0..lcount
        invariant
            layers@.len() == lv + 1,
            layers@[0].0@.len() == 1,
            layers@[0].0@[0].subs@ == Seq::<usize>::empty(),
            forall|rr: int|
                0 <= rr < lv ==> (#[trigger] layers@[rr + 1]).0@.len() == sum_counts(absseq, rr),
            forall|f: int, rr: int, i: int|
                0 <= f < absseq.len() && 0 <= rr < lv && 0 <= i < absseq[f].count(rr)
                    ==> #[trigger] layers@[rr + 1].0@[sum_counts(absseq.take(f), rr) + i].subs@
                    == compound_subs(absseq, f, rr, i),
    {
        let ghost rr = lv as int;
        let mut cur: Vec<Element> = Vec::new();
        let mut below_acc: usize = 0;
        for f in 0..nfac
            invariant
                lv < lcount,
                rr == lv as int,
                cur@.len() == sum_counts(absseq.take(f as int), rr),
                below_acc as int == if rr == 0 {
                    0int
                } else {
                    sum_counts(absseq.take(f as int), rr - 1)
                },
                forall|f2: int, i: int|
                    0 <= f2 < f && 0 <= i < absseq[f2].count(rr) ==> #[trigger] cur@[sum_counts(
                        absseq.take(f2),
                        rr,
                    ) + i].subs@ == compound_subs(absseq, f2, rr, i),
        {
            let ghost fi = f as int;
            proof {
                assert(absseq[fi] == polytopes@[fi].abs);
                assert(polytopes@[fi].wf());
                assert(polytopes@[0].wf());
                lemma_sum_counts_step(absseq, rr, fi);
                if rr >= 1 {
                    lemma_sum_counts_step(absseq, rr - 1, fi);
                }
                lemma_sum_counts_nonneg(absseq.take(fi), rr);
                lemma_sum_counts_nonneg(absseq.take(fi), rr - 1);
            }
            let c = polytopes[f].abs.el_count(lv as isize);
            for i in 0..c
                invariant
                    lv < lcount,
                    rr == lv as int,
                    f < nfac,
                    fi == f as int,
                    c == absseq[fi].count(rr),
                    cur@.len() == sum_counts(absseq.take(fi), rr) + i,
                    below_acc as int == if rr == 0 {
                        0int
                    } else {
                        sum_counts(absseq.take(fi), rr - 1)
                    },
                    forall|f2: int, i2: int|
                        0 <= f2 < f && 0 <= i2 < absseq[f2].count(rr) ==> #[trigger] cur@[sum_counts(
                            absseq.take(f2),
                            rr,
                        ) + i2].subs@ == compound_subs(absseq, f2, rr, i2),
                    forall|i2: int|
                        0 <= i2 < i ==> #[trigger] cur@[sum_counts(absseq.take(fi), rr) + i2].subs@
                            == compound_subs(absseq, fi, rr, i2),
            {
                let el = &polytopes[f].abs.0.0[lv + 1].0[i];
                let m = el.subs.len();
                assert(m == absseq[fi].subs(rr, i as int).len());
                let mut subs: Vec<usize> = Vec::new();
                for k in 0..m
                    invariant
                        lv < lcount,
                        rr == lv as int,
                        f < nfac,
                        fi == f as int,
                        i < c,
                        c == absseq[fi].count(rr),
                        m == absseq[fi].subs(rr, i as int).len(),
                        el == polytopes@[fi].abs.layers()[rr + 1].0@[i as int],
                        below_acc as int == if rr == 0 {
                            0int
                        } else {
                            sum_counts(absseq.take(fi), rr - 1)
                        },
                        subs@.len() == k,
                        forall|k2: int|
                            0 <= k2 < k ==> (#[trigger] subs@[k2]) as int == absseq[fi].subs(
                                rr,
                                i as int,
                            )[k2] + (if rr == 0 {
                                0int
                            } else {
                                sum_counts(absseq.take(fi), rr - 1)
                            }),
                {
                    let s = el.subs[k];
                    assert((s as int) < absseq[fi].count(rr - 1)) by {
                        assert(absseq[fi].subs(rr, i as int)[k as int] == s);
                    }
                    proof {
                        lemma_sum_counts_step(absseq, rr - 1, fi);
                        lemma_sum_counts_nonneg(absseq.take(fi), rr - 1);
                        if rr >= 1 {
                            assert(sum_counts(absseq.take(fi), rr - 1) + absseq[fi].count(rr - 1)
                                == sum_counts(absseq.take(fi + 1), rr - 1));
                            lemma_sum_counts_mono_suffix(absseq, rr - 1, fi + 1);
                            assert(0 <= rr - 1 <= grank);
                            assert(sum_counts(absseq, rr - 1) <= usize::MAX);
                        }
                    }
                    let shifted = below_acc + s;
                    subs.push(shifted);
                }
                let ghost cur_before = cur@;
                proof {
                    assert(subs@.len() == compound_subs(absseq, fi, rr, i as int).len());
                    assert forall|k2: int| 0 <= k2 < subs@.len() implies subs@[k2] == compound_subs(
                        absseq,
                        fi,
                        rr,
                        i as int,
                    )[k2] by {
                        assert((subs@[k2]) as int == absseq[fi].subs(rr, i as int)[k2] + (if rr == 0 {
                            0int
                        } else {
                            sum_counts(absseq.take(fi), rr - 1)
                        }));
                    }
                    assert(subs@ =~= compound_subs(absseq, fi, rr, i as int));
                }
                cur.push(Element { subs });
                proof {
                    assert(cur@[sum_counts(absseq.take(fi), rr) + i as int].subs@ == compound_subs(
                        absseq,
                        fi,
                        rr,
                        i as int,
                    ));
                    assert forall|f2: int, i2: int|
                        0 <= f2 < f && 0 <= i2 < absseq[f2].count(rr) implies #[trigger] cur@[sum_counts(
                        absseq.take(f2),
                        rr,
                    ) + i2].subs@ == compound_subs(absseq, f2, rr, i2) by {
                        lemma_sum_counts_nonneg(absseq.take(f2), rr);
                        lemma_sum_counts_step(absseq, rr, f2);
                        lemma_sum_counts_mono_prefix(absseq, rr, f2 + 1, fi);
                        assert(cur_before[sum_counts(absseq.take(f2), rr) + i2].subs@
                            == compound_subs(absseq, f2, rr, i2));
                        assert(sum_counts(absseq.take(f2), rr) + i2 < cur_before.len());
                    }
                }
            }
            below_acc = if lv == 0 {
                0
            } else {
                let add = polytopes[f].abs.el_count((lv as isize) - 1);
                proof {
                    assert(add as int == absseq[fi].count(rr - 1));
                    assert(below_acc as int + add as int == sum_counts(absseq.take(fi + 1), rr - 1));
                    lemma_sum_counts_mono_suffix(absseq, rr - 1, fi + 1);
                    assert(0 <= rr - 1 <= grank);
                    assert(sum_counts(absseq, rr - 1) <= usize::MAX);
                }
                below_acc + add
            };
        }
        proof {
            lemma_sum_counts_take_full(absseq, rr);
        }
        layers.push(ElementList(cur));
    }
    let abs = Abstract(crate::ranked::RankVec(layers));
    proof {
        assert(abs.count(-1) == 1);
        assert(abs.spec_rank() == grank);
        if grank >= 0 {
            assert(abs.count(0) == sum_counts(absseq, 0));
        } else {
            assert forall|f: int| 0 <= f < absseq.len() implies #[trigger] absseq[f].count(0)
                == 0 by {
                assert(absseq[f] == polytopes@[f].abs);
                assert(polytopes@[f].abs.spec_rank() == grank);
            }
            lemma_sum_counts_uniform(absseq, 0, 0);
            assert(absseq.len() as int * 0 == 0) by (nonlinear_arith);
            assert(abs.count(0) == 0);
        }
    }
    Polytope { vertices, abs }
}

/// A shorter prefix total never exceeds a longer one.
pub proof fn lemma_sum_counts_mono_prefix(ps: Seq<Abstract>, r: int, f1: int, f2: int)
    requires
        0 <= f1 <= f2 <= ps.len(),
    ensures
        sum_counts(ps.take(f1), r) <= sum_counts(ps.take(f2), r),
    decreases f2 - f1,
{
    if f1 < f2 {
        lemma_sum_counts_mono_prefix(ps, r, f1, f2 - 1);
        lemma_sum_counts_step(ps, r, f2 - 1);
    }
}

/// A prefix total never exceeds the whole total.
pub proof fn lemma_sum_counts_mono_suffix(ps: Seq<Abstract>, r: int, f: int)
    requires
        0 <= f <= ps.len(),
    ensures
        sum_counts(ps.take(f), r) <= sum_counts(ps, r),
    decreases ps.len() - f,
{
    if f < ps.len() {
        lemma_sum_counts_step(ps, r, f);
        lemma_sum_counts_mono_suffix(ps, r, f + 1);
    } else {
        lemma_sum_counts_take_full(ps, r);
    }
}

/// Applies each transformation to a copy of the polytope and merges
/// the copies into one compound.
pub fn compound_from_trans<P: Coord, M: LinearMap<P>>(p: &Polytope<P>, trans: &Vec<M>) -> (r:
    Polytope<P>)
    requires
        p.wf(),
        p.abs.incidences_ok(),
        p.abs.spec_rank() >= -1,
        trans@.len() >= 1,
        forall|r2: int|
            0 <= r2 <= p.abs.spec_rank() ==> #[trigger] (trans@.len() * p.abs.count(r2))
                <= usize::MAX,
    ensures
        r.wf(),
        r.abs.spec_rank() == p.abs.spec_rank(),
        r.abs.count(-1) == 1,
        forall|rr: int|
            0 <= rr <= p.abs.spec_rank() ==> #[trigger] r.abs.count(rr) == trans@.len()
                * p.abs.count(rr),
        r.vertices@.len() == trans@.len() * p.abs.count(0),
{
    let mut copies: Vec<Polytope<P>> = Vec::new();
    let n = trans.len();
    for t in 0..n
        invariant
            n == trans@.len(),
            copies@.len() == t,
            forall|f: int| 0 <= f < t ==> (#[trigger] copies@[f]).wf(),
            forall|f: int| 0 <= f < t ==> (#[trigger] copies@[f]).abs.incidences_ok(),
            forall|f: int, r2: int|
                0 <= f < t && -1 <= r2 <= p.abs.spec_rank() ==> (#[trigger] copies@[f].abs.count(
                    r2,
                )) == p.abs.count(r2),
            forall|f: int| 0 <= f < t ==> (#[trigger] copies@[f]).abs.spec_rank()
                == p.abs.spec_rank(),
            p.wf(),
            p.abs.incidences_ok(),
    {
        let copy = p.duplicate_poly().apply(&trans[t]);
        proof {
            assert(copy.abs.incidences_ok()) by {
                assert forall|r2: int, i: int, k: int|
                    -1 <= r2 <= copy.abs.spec_rank() && 0 <= i < copy.abs.count(r2) && 0 <= k
                        < copy.abs.subs(r2, i).len() implies (#[trigger] copy.abs.subs(r2, i)[k] as int)
                    < copy.abs.count(r2 - 1) by {
                    assert(copy.abs.subs(r2, i) == p.abs.subs(r2, i));
                    assert((p.abs.subs(r2, i)[k] as int) < p.abs.count(r2 - 1));
                }
            }
        }
        copies.push(copy);
    }
    let ghost absseq = copies@.map_values(|q: Polytope<P>| q.abs);
    proof {
        assert forall|r2: int| 0 <= r2 <= p.abs.spec_rank() implies #[trigger] sum_counts(
            absseq,
            r2,
        ) <= usize::MAX by {
            assert(forall|f: int| 0 <= f < absseq.len() ==> #[trigger] absseq[f].count(r2)
                == p.abs.count(r2));
            lemma_sum_counts_uniform(absseq, r2, p.abs.count(r2));
        }
    }
    let r = compound(&copies);
    proof {
        assert forall|rr: int| 0 <= rr <= p.abs.spec_rank() implies #[trigger] r.abs.count(rr)
            == trans@.len() * p.abs.count(rr) by {
            assert(forall|f: int| 0 <= f < absseq.len() ==> #[trigger] absseq[f].count(rr)
                == p.abs.count(rr));
            lemma_sum_counts_uniform(absseq, rr, p.abs.count(rr));
        }
        assert(forall|f: int| 0 <= f < absseq.len() ==> #[trigger] absseq[f].count(0)
            == p.abs.count(0));
        lemma_sum_counts_uniform(absseq, 0, p.abs.count(0));
    }
    r
}

/// Each entry of a strictly ascending index list is at least its
/// position, so the list cannot outgrow the range its entries lie in.
proof fn lemma_strict_sorted_bound(s: Seq<usize>)
    requires
        forall|k1: int, k2: int| 0 <= k1 < k2 < s.len() ==> s[k1] < s[k2],
    ensures
        forall|k: int| 0 <= k < s.len() ==> (#[trigger] s[k] as int) >= k,
    decreases s.len(),
{
    if s.len() > 0 {
        let d = s.drop_last();
        assert(forall|k1: int, k2: int| 0 <= k1 < k2 < d.len() ==> d[k1] < d[k2]);
        lemma_strict_sorted_bound(d);
        assert forall|k: int| 0 <= k < s.len() implies (#[trigger] s[k] as int) >= k by {
            if k < s.len() - 1 {
                assert(d[k] == s[k]);
            } else if k == s.len() - 1 && k > 0 {
                assert(d[k - 1] == s[k - 1]);
                assert(s[k - 1] < s[k]);
            }
        }
    }
}

/// The reciprocated projections of a dual's centre onto each facet: one
/// dual vertex per facet of `abs` (per vertex, when the rank is 1), or
/// nothing when a facet passes through the centre or has no vertices.
pub fn dual_vertices<P: Coord, C: Chart<P>>(vertices: &Vec<P>, abs: &Abstract, o: &P) -> (r: Option<
    Vec<P>,
>)
    requires
        abs.bounded(),
        abs.incidences_ok(),
        abs.spec_rank() >= 1,
        vertices@.len() == abs.count(0),
    ensures
        r is Some ==> (r->Some_0)@.len() == if abs.spec_rank() >= 2 {
            abs.count(abs.spec_rank() - 1)
        } else {
            vertices@.len() as int
        },
        (if abs.spec_rank() >= 2 {
            abs.count(abs.spec_rank() - 1)
        } else {
            vertices@.len() as int
        }) == 0 ==> r is Some,
{
    let rank = abs.rank();
    let mut result: Vec<P> = Vec::new();
    if rank >= 2 {
        let fc = abs.el_count(rank - 1);
        for idx in 0..fc
            invariant
                fc == abs.count(abs.spec_rank() - 1),
                result@.len() == idx,
                abs.bounded(),
                abs.incidences_ok(),
                abs.spec_rank() >= 2,
                rank == abs.spec_rank(),
                vertices@.len() == abs.count(0),
        {
            let ix = match abs.get_element_vertices(rank - 1, idx) {
                Some(ix) => ix,
                None => {
                    return None;
                },
            };
            if ix.len() == 0 {
                return None;
            }
            proof {
                assert(forall|k: int| 0 <= k < ix@.len() ==> (#[trigger] ix@[k] as int)
                    < abs.count(0));
            }
            let mut facet_chart = C::new(&vertices[ix[0]]);
            let m = ix.len();
            for k in 1..m
                invariant
                    m == ix@.len(),
                    vertices@.len() == abs.count(0),
                    forall|k2: int| 0 <= k2 < ix@.len() ==> (#[trigger] ix@[k2] as int) < abs.count(
                        0,
                    ),
            {
                let _ = facet_chart.add(&vertices[ix[k]]);
            }
            let proj = facet_chart.project(o);
            match proj.reciprocate(o) {
                Some(w) => {
                    result.push(w);
                },
                None => {
                    return None;
                },
            }
        }
    } else {
        // A polytope of rank 1: the vertices themselves are the facets.
        let n = vertices.len();
        for i in 0..n
            invariant
                n == vertices@.len(),
                result@.len() == i,
                abs.spec_rank() == 1,
        {
            match vertices[i].reciprocate(o) {
                Some(w) => {
                    result.push(w);
                },
                None => {
                    return None;
                },
            }
        }
    }
    Some(result)
}

} // verus!
