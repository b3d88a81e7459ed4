use vstd::prelude::*;

use crate::counting::count_in;
use crate::counting::gc_of;
use crate::counting::lemma_count_in_identity;
use crate::counting::lemma_count_in_pair;
use crate::counting::lemma_count_in_single;
use crate::counting::lemma_gc_of_group;
use crate::counting::lemma_sum_upto_congruence;
use crate::counting::lemma_sum_upto_update;
use crate::counting::lemma_sum_upto_zero;
use crate::counting::lemma_count_in_take_full;
use crate::counting::lemma_count_in_take_mono;
use crate::counting::lemma_count_in_take_step;
use crate::counting::lemma_gc_of_mono;
use crate::element::Element;
use crate::element::ElementList;
use crate::ranked::RankVec;

verus! {

/// The ranked poset of an abstract polytope: one element list per rank,
/// from −1 (the nullitope) up to the rank of the whole polytope.
#[derive(Debug, Clone)]
pub struct Abstract(pub RankVec<ElementList>);

impl Abstract {
    /// The stored element lists, bottom rank first.
    pub open spec fn layers(self) -> Seq<ElementList> {
        self.0.0@
    }

    /// The rank of the polytope: the number of stored layers minus 2.
    pub open spec fn spec_rank(self) -> int {
        self.layers().len() - 2
    }

    /// The stored layers fit the signed ranks used by callers.
    pub open spec fn bounded(self) -> bool {
        self.layers().len() <= isize::MAX as int
    }

    /// The number of elements of rank `r`; zero outside the stored ranks.
    pub open spec fn count(self, r: int) -> int {
        if -1 <= r <= self.spec_rank() {
            self.layers()[r + 1].0@.len() as int
        } else {
            0
        }
    }

    /// The subelement indices of element `i` of rank `r`.
    pub open spec fn subs(self, r: int, i: int) -> Seq<usize> {
        self.layers()[r + 1].0@[i].subs@
    }

    /// The subelement lists of all elements of rank `r`, by index.
    pub open spec fn layer_subs(self, r: int) -> Seq<Seq<usize>> {
        self.layers()[r + 1].subs_seq()
    }

    /// Exactly one minimal and one maximal element.
    pub open spec fn has_min_max(self) -> bool {
        self.spec_rank() >= -1 && self.count(-1) == 1 && self.count(self.spec_rank()) == 1
    }

    /// Referential integrity: every subelement index resolves to an
    /// element one rank below.  Since nothing is stored below rank −1,
    /// this also forces the minimal element's subelement list to be
    /// empty.
    pub open spec fn incidences_ok(self) -> bool {
        forall|r: int, i: int, k: int|
            -1 <= r <= self.spec_rank() && 0 <= i < self.count(r) && 0 <= k < self.subs(
                r,
                i,
            ).len() ==> (#[trigger] self.subs(r, i)[k] as int) < self.count(r - 1)
    }

    /// The combined multiplicity of grandchild `x` across the
    /// subelement lists of the subelements of element `i` of rank `r`.
    pub open spec fn gc_count(self, r: int, i: int, x: int) -> int {
        gc_of(self.subs(r, i), self.layer_subs(r - 1), x, self.subs(r, i).len() as int)
    }

    /// The diamond property: for every element of a rank strictly
    /// between the bottom and the top, every grandchild occurs exactly
    /// twice among its subelements' subelements, or not at all.
    pub open spec fn dyadic(self) -> bool {
        forall|r: int, i: int, x: int|
            1 <= r <= self.spec_rank() - 1 && 0 <= i < self.count(r) && 0 <= x < self.count(r - 2)
                ==> (#[trigger] self.gc_count(r, i, x) == 0 || self.gc_count(r, i, x) == 2)
    }

    /// The diamond property extended to the top rank: the maximal
    /// elements' grandchild multiplicities are held to the same rule as
    /// every interior element's.
    pub open spec fn dyadic_full(self) -> bool {
        forall|r: int, i: int, x: int|
            1 <= r <= self.spec_rank() && 0 <= i < self.count(r) && 0 <= x < self.count(r - 2)
                ==> (#[trigger] self.gc_count(r, i, x) == 0 || self.gc_count(r, i, x) == 2)
    }

    /// Element `j` of rank `r − 1` is a subelement of some element of
    /// rank `r`.
    pub open spec fn has_parent(self, r: int, j: int) -> bool {
        exists|i: int, k: int|
            0 <= i < self.count(r) && 0 <= k < self.subs(r, i).len() && self.subs(r, i)[k] == j
    }

    /// Every element below the top rank is a subelement of something.
    pub open spec fn covering(self) -> bool {
        forall|r: int, j: int|
            0 <= r <= self.spec_rank() && 0 <= j < self.count(r - 1) ==> #[trigger] self.has_parent(
                r,
                j,
            )
    }

    /// No element lists a subelement twice.
    pub open spec fn no_dup_subs(self) -> bool {
        forall|r: int, i: int|
            -1 <= r <= self.spec_rank() && 0 <= i < self.count(r) ==> (#[trigger] self.subs(
                r,
                i,
            )).no_duplicates()
    }

    /// Every layer is small enough to index with the machine's sizes.
    pub open spec fn counts_bounded(self) -> bool {
        forall|r: int| #[trigger] self.count(r) <= usize::MAX
    }

    /// A structurally valid abstract polytope: single bottom and top,
    /// referential integrity, and the diamond property.
    pub open spec fn valid(self) -> bool {
        self.has_min_max() && self.incidences_ok() && self.dyadic()
    }

    /// Two posets describe the same incidence structure.
    pub open spec fn same_model(a: Abstract, b: Abstract) -> bool {
        a.spec_rank() == b.spec_rank() && (forall|r: int|
            -1 <= r <= a.spec_rank() ==> #[trigger] a.count(r) == b.count(r)) && (forall|
            r: int,
            i: int,
        |
            -1 <= r <= a.spec_rank() && 0 <= i < a.count(r) ==> #[trigger] a.subs(r, i) == b.subs(
                r,
                i,
            ))
    }

    /// The rank of the polytope.
    pub fn rank(&self) -> (r: isize)
        requires
            self.bounded(),
        ensures
            r == self.spec_rank(),
    {
        self.0.rank()
    }

    /// The number of elements of a given rank; zero outside the stored
    /// ranks.
    pub fn el_count(&self, r: isize) -> (c: usize)
        requires
            self.bounded(),
        ensures
            c == self.count(r as int),
    {
        match self.0.get(r) {
            Some(els) => els.0.len(),
            None => 0,
        }
    }

    /// The element counts of every stored rank.
    pub fn el_counts(&self) -> (c: RankVec<usize>)
        requires
            self.bounded(),
        ensures
            c.0@.len() == self.layers().len(),
            forall|r: int| -1 <= r <= self.spec_rank() ==> #[trigger] c.at(r) == self.count(r),
    {
        let mut counts: Vec<usize> = Vec::new();
        let n = self.0.0.len();
        for l in 0..n
            invariant
                n == self.layers().len(),
                counts@.len() == l,
                forall|j: int| 0 <= j < l ==> counts@[j] == self.layers()[j].0@.len(),
        {
            counts.push(self.0.0[l].0.len());
        }
        RankVec(counts)
    }

    /// A poset with the same incidence structure.
    #[verifier::rlimit(50)]
    #[verifier::spinoff_prover]
    pub fn duplicate(&self) -> (r: Abstract)
        ensures
            r.layers().len() == self.layers().len(),
            Abstract::same_model(*self, r),
            Abstract::same_model(r, *self),
    {
        let mut layers: Vec<ElementList> = Vec::new();
        let n = self.0.0.len();
        for l in 0..n
            invariant
                n == self.layers().len(),
                layers@.len() == l,
                forall|j: int| 0 <= j < l ==> #[trigger] layers@[j].0@.len() == self.layers()[j].0@.len(),
                forall|j: int, i: int|
                    0 <= j < l && 0 <= i < layers@[j].0@.len() ==> #[trigger] layers@[j].0@[i].subs@
                        == self.layers()[j].0@[i].subs@,
        {
            let copy = self.0.0[l].duplicate();
            let ghost li = l as int;
            assert(copy.0@.len() == self.layers()[li].0@.len());
            assert forall|i: int| 0 <= i < copy.0@.len() implies copy.0@[i].subs@
                == self.layers()[li].0@[i].subs@ by {
                assert(copy.subs_seq()[i] == copy.0@[i].subs@);
                assert(self.layers()[li].subs_seq()[i] == self.layers()[li].0@[i].subs@);
            }
            let ghost layers_before = layers@;
            layers.push(copy);
            proof {
                assert(layers@[li] == copy);
                assert forall|j: int| 0 <= j < l + 1 implies #[trigger] layers@[j].0@.len()
                    == self.layers()[j].0@.len() by {
                    if j < li {
                        assert(layers@[j] == layers_before[j]);
                    }
                }
                assert forall|j: int, i: int|
                    0 <= j < l + 1 && 0 <= i < layers@[j].0@.len() implies #[trigger] layers@[j].0@[i].subs@
                    == self.layers()[j].0@[i].subs@ by {
                    if j < li {
                        assert(layers@[j] == layers_before[j]);
                    }
                }
            }
        }
        Abstract(RankVec(layers))
    }

    /// The unique polytope of rank −1: a single minimal element.
    pub fn nullitope() -> (r: Abstract)
        ensures
            r.spec_rank() == -1,
            r.count(-1) == 1,
            r.subs(-1, 0) == Seq::<usize>::empty(),
            r.bounded(),
            r.valid(),
            r.dyadic_full(),
            r.covering(),
    {
        let mut layers: Vec<ElementList> = Vec::new();
        layers.push(ElementList::min());
        let r = Abstract(RankVec(layers));
        assert(r.count(-1) == 1);
        r
    }

    /// Appends the minimal element to an empty poset: the first step of
    /// building a polytope layer by layer.
    pub fn push_min(&mut self)
        requires
            old(self).layers().len() == 0,
        ensures
            final(self).spec_rank() == -1,
            final(self).count(-1) == 1,
            final(self).subs(-1, 0) == Seq::<usize>::empty(),
            final(self).bounded(),
    {
        self.0.push(ElementList::min());
    }

    /// Appends the vertex layer: each vertex lies over the single
    /// minimal element.
    pub fn push_vertices(&mut self, vertex_count: usize)
        requires
            old(self).spec_rank() == -1,
        ensures
            final(self).spec_rank() == 0,
            final(self).count(-1) == old(self).count(-1),
            final(self).subs(-1, 0) == old(self).subs(-1, 0),
            final(self).count(0) == vertex_count,
            forall|i: int| 0 <= i < vertex_count ==> final(self).subs(0, i) == seq![0usize],
            final(self).bounded(),
    {
        self.0.push(ElementList::vertices(vertex_count));
    }

    /// Appends the maximal element over every element of the current
    /// top rank.
    pub fn push_max(&mut self)
        requires
            old(self).bounded(),
            old(self).layers().len() >= 1,
            old(self).layers().len() < isize::MAX,
        ensures
            final(self).spec_rank() == old(self).spec_rank() + 1,
            forall|r: int| -1 <= r <= old(self).spec_rank() ==> #[trigger] final(self).count(r)
                == old(self).count(r),
            forall|r: int, i: int|
                -1 <= r <= old(self).spec_rank() && 0 <= i < old(self).count(r)
                    ==> #[trigger] final(self).subs(r, i) == old(self).subs(r, i),
            final(self).count(final(self).spec_rank()) == 1,
            final(self).subs(final(self).spec_rank(), 0).len() == old(self).count(
                old(self).spec_rank(),
            ),
            forall|k: int|
                0 <= k < old(self).count(old(self).spec_rank()) ==> final(self).subs(
                    final(self).spec_rank(),
                    0,
                )[k] == k,
            final(self).bounded(),
    {
        let facet_count = self.el_count(self.rank());
        self.0.push(ElementList::max(facet_count));
    }

    /// The unique polytope of rank 0.
    pub fn point() -> (r: Abstract)
        ensures
            r.spec_rank() == 0,
            r.count(-1) == 1,
            r.count(0) == 1,
            r.subs(-1, 0) == Seq::<usize>::empty(),
            r.subs(0, 0) == seq![0usize],
            r.bounded(),
            r.valid(),
            r.dyadic_full(),
            r.covering(),
    {
        let mut p = Abstract(RankVec(Vec::new()));
        p.push_min();
        p.push_vertices(1);
        assert(p.subs(0, 0) == seq![0usize]);
        assert(p.valid());
        assert(p.has_parent(0, 0)) by {
            assert(p.subs(0, 0)[0] == 0);
        }
        p
    }

    /// The unique polytope of rank 1: two vertices joined by one edge.
    pub fn dyad() -> (r: Abstract)
        ensures
            r.spec_rank() == 1,
            r.count(-1) == 1,
            r.count(0) == 2,
            r.count(1) == 1,
            r.subs(-1, 0) == Seq::<usize>::empty(),
            forall|i: int| 0 <= i < 2 ==> r.subs(0, i) == seq![0usize],
            r.subs(1, 0) == seq![0usize, 1usize],
            r.bounded(),
            r.valid(),
            r.dyadic_full(),
            r.covering(),
    {
        let mut p = Abstract(RankVec(Vec::new()));
        p.push_min();
        p.push_vertices(2);
        p.push_max();
        assert(p.subs(1, 0) =~= seq![0usize, 1usize]);
        assert forall|r2: int, i: int, x: int|
            1 <= r2 <= p.spec_rank() && 0 <= i < p.count(r2) && 0 <= x < p.count(r2 - 2) implies (
        #[trigger] p.gc_count(r2, i, x) == 0 || p.gc_count(r2, i, x) == 2) by {
            assert(r2 == 1 && i == 0 && x == 0);
            let s = p.subs(1, 0);
            let bel = p.layer_subs(0);
            assert(p.count(0) == 2);
            assert(p.layers()[1].0@.len() == 2);
            assert(bel == p.layers()[1].subs_seq());
            assert(p.layers()[1].subs_seq()[0] == p.layers()[1].0@[0].subs@);
            assert(p.layers()[1].subs_seq()[1] == p.layers()[1].0@[1].subs@);
            assert(bel[0] == p.subs(0, 0));
            assert(bel[1] == p.subs(0, 1));
            lemma_count_in_single(0usize, 0);
            assert(count_in(bel[0], 0) == 1);
            assert(count_in(bel[1], 0) == 1);
            assert(gc_of(s, bel, 0, 0) == 0);
            assert(gc_of(s, bel, 0, 1) == count_in(bel[s[0] as int], 0));
            assert(gc_of(s, bel, 0, 2) == gc_of(s, bel, 0, 1) + count_in(bel[s[1] as int], 0));
            assert(p.gc_count(1, 0, 0) == 2);
        }
        assert(p.dyadic_full());
        assert(p.valid());
        assert forall|r: int, j: int| 0 <= r <= 1 && 0 <= j < p.count(r - 1) implies p.has_parent(
            r,
            j,
        ) by {
            if r == 0 {
                assert(p.subs(0, 0)[0] == 0);
            } else {
                assert(p.subs(1, 0)[j] == j);
            }
        }
        p
    }
}

/// A poset with the layer shapes of `Abstract::polygon(n)` is a valid
/// covering polytope.
#[verifier::rlimit(100)]
#[verifier::spinoff_prover]
proof fn lemma_polygon_shape_valid(p: Abstract, n: usize)
    requires
        2 <= n,
        n <= usize::MAX - 2,
        p.spec_rank() == 2,
        p.count(-1) == 1,
        p.count(0) == n,
        p.count(1) == n,
        p.count(2) == 1,
        p.subs(-1, 0) == Seq::<usize>::empty(),
        forall|i: int| 0 <= i < n ==> p.subs(0, i) == seq![0usize],
        forall|i: int|
            0 <= i < n ==> #[trigger] p.subs(1, i) == seq![
                (((i + 1) % (n as int)) as usize),
                (((i + 2) % (n as int)) as usize),
            ],
        p.subs(2, 0).len() == n,
        forall|k: int| 0 <= k < n ==> p.subs(2, 0)[k] == k,
    ensures
        p.valid(),
        p.dyadic_full(),
        p.covering(),
{
    let ni = n as int;
    assert(p.has_min_max());
    assert forall|r: int, i: int, k: int|
        -1 <= r <= p.spec_rank() && 0 <= i < p.count(r) && 0 <= k < p.subs(r, i).len() implies (
    #[trigger] p.subs(r, i)[k] as int) < p.count(r - 1) by {
        if r == 0 {
            assert(p.subs(0, i) == seq![0usize]);
        } else if r == 1 {
            assert(p.subs(1, i) == seq![(((i + 1) % ni) as usize), (((i + 2) % ni) as usize)]);
        } else if r == 2 {
            assert(p.subs(2, 0)[k] == k);
        }
    }
    assert forall|r: int, i: int, x: int|
        1 <= r <= p.spec_rank() && 0 <= i < p.count(r) && 0 <= x < p.count(r - 2) implies (
    #[trigger] p.gc_count(r, i, x) == 0 || p.gc_count(r, i, x) == 2) by {
        if r == 1 {
            assert(x == 0);
            let s = p.subs(1, i);
            let bel = p.layer_subs(0);
            assert(s == seq![(((i + 1) % ni) as usize), (((i + 2) % ni) as usize)]);
            assert(s.len() == 2);
            let a = s[0] as int;
            let b = s[1] as int;
            assert(0 <= a < ni && 0 <= b < ni);
            assert(bel[a] == p.layers()[1].subs_seq()[a]);
            assert(bel[a] == p.subs(0, a));
            assert(bel[b] == p.subs(0, b));
            lemma_count_in_single(0usize, 0);
            assert(count_in(bel[a], 0) == 1);
            assert(count_in(bel[b], 0) == 1);
            assert(gc_of(s, bel, 0, 0) == 0);
            assert(gc_of(s, bel, 0, 1) == count_in(bel[s[0] as int], 0));
            assert(gc_of(s, bel, 0, 2) == gc_of(s, bel, 0, 1) + count_in(bel[s[1] as int], 0));
            assert(p.gc_count(1, i, 0) == 2);
        } else {
            // The top element: each vertex lies on exactly the two
            // edges around it.
            assert(r == 2 && i == 0 && 0 <= x < ni);
            let s = p.subs(2, 0);
            let bel = p.layer_subs(1);
            assert(s.len() == ni);
            assert(forall|k: int| 0 <= k < s.len() ==> (#[trigger] s[k] as int) == k);
            assert forall|t: int| 0 <= t < s.len() implies (#[trigger] s[t] as int) < ni by {}
            lemma_gc_of_group(s, bel, x, ni, ni);
            assert(s.take(ni) =~= s);
            let f = |u: int| count_in(s.take(ni), u) * count_in(bel[u], x);
            let u1 = if x >= 1 {
                x - 1
            } else {
                ni - 1
            };
            let u2 = if x >= 2 {
                x - 2
            } else {
                x + ni - 2
            };
            assert(u1 != u2 && 0 <= u1 < ni && 0 <= u2 < ni);
            let h1 = |u: int|
                if u == u1 {
                    1int
                } else {
                    0int
                };
            let h2 = |u: int|
                (if u == u1 {
                    1int
                } else {
                    0int
                }) + (if u == u2 {
                    1int
                } else {
                    0int
                });
            assert forall|u: int| 0 <= u < ni implies #[trigger] f(u) == h2(u) by {
                lemma_count_in_identity(s, u);
                assert(count_in(s, u) == 1);
                assert(bel[u] == p.layers()[2].subs_seq()[u]);
                assert(bel[u] == p.subs(1, u));
                assert(p.subs(1, u) == seq![(((u + 1) % ni) as usize), (((u + 2) % ni) as usize)]);
                let ea = ((u + 1) % ni) as usize;
                let eb = ((u + 2) % ni) as usize;
                lemma_count_in_pair(ea, eb, x);
                assert((u + 1) % ni == if u + 1 < ni {
                    u + 1
                } else {
                    u + 1 - ni
                }) by (nonlinear_arith)
                    requires
                        0 <= u < ni,
                        ni >= 2,
                ;
                assert((u + 2) % ni == if u + 2 < ni {
                    u + 2
                } else {
                    u + 2 - ni
                }) by (nonlinear_arith)
                    requires
                        0 <= u < ni,
                        ni >= 2,
                ;
                assert((ea == x) <==> (u == u1));
                assert((eb == x) <==> (u == u2));
            }
            let h0 = |u: int| 0int;
            lemma_sum_upto_zero(h0, ni);
            lemma_sum_upto_update(h0, h1, ni, u1, 1);
            lemma_sum_upto_update(h1, h2, ni, u2, 1);
            lemma_sum_upto_congruence(f, h2, ni);
            assert(p.gc_count(2, 0, x) == gc_of(s, bel, x, ni));
            assert(p.gc_count(2, 0, x) == 2);
        }
    }
    assert(p.dyadic());
    assert(p.dyadic_full());
    assert forall|r: int, j: int|
        0 <= r <= p.spec_rank() && 0 <= j < p.count(r - 1) implies #[trigger] p.has_parent(
        r,
        j,
    ) by {
        if r == 0 {
            assert(p.subs(0, 0) == seq![0usize]);
            assert(p.subs(0, 0)[0] == j);
            assert(p.has_parent(0, j));
        } else if r == 1 {
            let i = if j == 0 {
                ni - 1
            } else {
                j - 1
            };
            assert(p.subs(1, i) == seq![(((i + 1) % ni) as usize), (((i + 2) % ni) as usize)]);
            if j == 0 {
                assert(ni % ni == 0) by (nonlinear_arith)
                    requires
                        ni >= 2,
                ;
            } else {
                assert(j % ni == j) by (nonlinear_arith)
                    requires
                        0 <= j < ni,
                ;
            }
            assert((i + 1) % ni == j);
            assert(p.subs(1, i)[0] == j);
            assert(p.has_parent(1, j));
        } else {
            assert(p.subs(2, 0)[j] == j);
            assert(p.has_parent(2, j));
        }
    }
}

/// Whether every subelement index in `els` falls short of `below`, the
/// number of elements one rank down.
fn check_layer(els: &ElementList, below: usize) -> (b: bool)
    ensures
        b == (forall|i: int, k: int|
            0 <= i < els.0@.len() && 0 <= k < els.0@[i].subs@.len() ==> (#[trigger] els.0@[i].subs@[k] as int)
                < below),
{
    let n = els.0.len();
    for i in 0..n
        invariant
            n == els.0@.len(),
            forall|i2: int, k: int|
                0 <= i2 < i && 0 <= k < els.0@[i2].subs@.len() ==> (#[trigger] els.0@[i2].subs@[k] as int)
                    < below,
    {
        let m = els.0[i].subs.len();
        for k in 0..m
            invariant
                n == els.0@.len(),
                i < n,
                m == els.0@[i as int].subs@.len(),
                forall|i2: int, k2: int|
                    0 <= i2 < i && 0 <= k2 < els.0@[i2].subs@.len() ==> (
                    #[trigger] els.0@[i2].subs@[k2] as int) < below,
                forall|k2: int|
                    0 <= k2 < k ==> (#[trigger] els.0@[i as int].subs@[k2] as int) < below,
        {
            if els.0[i].subs[k] >= below {
                return false;
            }
        }
    }
    true
}

/// Whether the grandchild multiset of `el` (through the elements of
/// `below` that its subelements select) holds every grandchild either
/// twice or not at all.
fn element_dyadic(el: &Element, below: &ElementList, n_grand: usize) -> (b: bool)
    requires
        forall|k: int| 0 <= k < el.subs@.len() ==> (#[trigger] el.subs@[k] as int) < below.0@.len(),
        forall|j: int, k: int|
            0 <= j < below.0@.len() && 0 <= k < below.0@[j].subs@.len() ==> (
            #[trigger] below.0@[j].subs@[k] as int) < n_grand,
    ensures
        b == (forall|x: int|
            0 <= x < n_grand ==> (#[trigger] gc_of(el.subs@, below.subs_seq(), x, el.subs@.len() as int)
                == 0 || gc_of(el.subs@, below.subs_seq(), x, el.subs@.len() as int) == 2)),
{
    let ghost subs = el.subs@;
    let ghost bel = below.subs_seq();
    let mut counters: Vec<u8> = Vec::new();
    for z in 0..n_grand
        invariant
            counters@.len() == z,
            forall|x: int| 0 <= x < z ==> counters@[x] == 0,
    {
        counters.push(0);
    }
    proof {
        assert forall|x: int| 0 <= x < n_grand implies counters@[x] as int == gc_of(
            subs,
            bel,
            x,
            0,
        ) by {}
    }
    let m = el.subs.len();
    for t in 0..m
        invariant
            m == subs.len(),
            subs == el.subs@,
            bel == below.subs_seq(),
            counters@.len() == n_grand,
            forall|k: int| 0 <= k < subs.len() ==> (#[trigger] subs[k] as int) < below.0@.len(),
            forall|j: int, k: int|
                0 <= j < below.0@.len() && 0 <= k < below.0@[j].subs@.len() ==> (
                #[trigger] below.0@[j].subs@[k] as int) < n_grand,
            forall|x: int|
                0 <= x < n_grand ==> #[trigger] counters@[x] as int == gc_of(subs, bel, x, t as int),
            forall|x: int| 0 <= x < n_grand ==> counters@[x] <= 2,
    {
        let y = el.subs[t];
        assert(bel[y as int] == below.0@[y as int].subs@);
        let ghost ysubs = below.0@[y as int].subs@;
        proof {
            assert(ysubs.take(0) =~= Seq::<usize>::empty());
            assert(count_in(Seq::<usize>::empty(), 0) == 0);
            assert forall|x: int| 0 <= x < n_grand implies count_in(ysubs.take(0), x) == 0 by {}
        }
        let ylen = below.0[y].subs.len();
        for k in 0..ylen
            invariant
                m == subs.len(),
                subs == el.subs@,
                bel == below.subs_seq(),
                t < m,
                y == subs[t as int],
                (y as int) < below.0@.len(),
                ysubs == below.0@[y as int].subs@,
                ylen == ysubs.len(),
                counters@.len() == n_grand,
                forall|j: int, k2: int|
                    0 <= j < below.0@.len() && 0 <= k2 < below.0@[j].subs@.len() ==> (
                    #[trigger] below.0@[j].subs@[k2] as int) < n_grand,
                forall|x: int|
                    0 <= x < n_grand ==> #[trigger] counters@[x] as int == gc_of(subs, bel, x, t as int)
                        + count_in(ysubs.take(k as int), x),
                forall|x: int| 0 <= x < n_grand ==> counters@[x] <= 2,
        {
            let x = below.0[y].subs[k];
            proof {
                lemma_count_in_take_step(ysubs, x as int, k as int);
            }
            if counters[x] >= 2 {
                proof {
                    let xi = x as int;
                    lemma_count_in_take_mono(ysubs, xi, k as int + 1, ysubs.len() as int);
                    lemma_count_in_take_full(ysubs, xi);
                    assert(gc_of(subs, bel, xi, t as int + 1) == gc_of(subs, bel, xi, t as int)
                        + count_in(bel[subs[t as int] as int], xi));
                    assert(gc_of(subs, bel, xi, t as int + 1) >= 3);
                    lemma_gc_of_mono(subs, bel, xi, t as int + 1, m as int);
                    assert(gc_of(subs, bel, xi, m as int) >= 3);
                    assert(0 <= xi < n_grand);
                    assert(gc_of(el.subs@, below.subs_seq(), xi, el.subs@.len() as int) >= 3);
                }
                return false;
            }
            let c = counters[x];
            counters.set(x, c + 1);
            proof {
                assert forall|x2: int| 0 <= x2 < n_grand implies counters@[x2] as int == gc_of(
                    subs,
                    bel,
                    x2,
                    t as int,
                ) + count_in(ysubs.take(k as int + 1), x2) by {
                    lemma_count_in_take_step(ysubs, x2, k as int);
                }
            }
        }
        proof {
            assert forall|x: int| 0 <= x < n_grand implies counters@[x] as int == gc_of(
                subs,
                bel,
                x,
                t as int + 1,
            ) by {
                lemma_count_in_take_full(ysubs, x);
                assert(ysubs.take(ysubs.len() as int) =~= ysubs);
                assert(gc_of(subs, bel, x, t as int + 1) == gc_of(subs, bel, x, t as int)
                    + count_in(bel[subs[t as int] as int], x));
            }
        }
    }
    for x in 0..n_grand
        invariant
            counters@.len() == n_grand,
            m == subs.len(),
            subs == el.subs@,
            bel == below.subs_seq(),
            forall|x2: int|
                0 <= x2 < n_grand ==> #[trigger] counters@[x2] as int == gc_of(subs, bel, x2, m as int),
            forall|x2: int| 0 <= x2 < n_grand ==> counters@[x2] <= 2,
            forall|x2: int| 0 <= x2 < x ==> counters@[x2] != 1,
    {
        if counters[x] == 1 {
            proof {
                assert(gc_of(el.subs@, below.subs_seq(), x as int, el.subs@.len() as int) == 1);
            }
            return false;
        }
    }
    proof {
        assert forall|x: int| 0 <= x < n_grand implies (#[trigger] gc_of(
            el.subs@,
            below.subs_seq(),
            x,
            el.subs@.len() as int,
        ) == 0 || gc_of(el.subs@, below.subs_seq(), x, el.subs@.len() as int) == 2) by {
            assert(counters@[x] as int == gc_of(subs, bel, x, m as int));
            assert(counters@[x] != 1 && counters@[x] <= 2);
        }
    }
    true
}

impl Abstract {
    /// Whether the poset has exactly one minimal and one maximal
    /// element.
    pub fn has_min_max_elements(&self) -> (b: bool)
        requires
            self.bounded(),
        ensures
            b == self.has_min_max(),
    {
        self.el_count(-1) == 1 && self.el_count(self.rank()) == 1
    }

    /// Whether every subelement index, at every rank, resolves to an
    /// element one rank below.
    pub fn check_incidences(&self) -> (b: bool)
        requires
            self.bounded(),
        ensures
            b == self.incidences_ok(),
    {
        let n = self.0.0.len();
        for l in 0..n
            invariant
                n == self.layers().len(),
                self.bounded(),
                forall|r: int, i: int, k: int|
                    -1 <= r < l - 1 && 0 <= i < self.count(r) && 0 <= k < self.subs(r, i).len()
                        ==> (#[trigger] self.subs(r, i)[k] as int) < self.count(r - 1),
        {
            let below: usize = if l == 0 {
                0
            } else {
                self.0.0[l - 1].0.len()
            };
            if !check_layer(&self.0.0[l], below) {
                proof {
                    let ghost r = l as int - 1;
                    let (i, k): (int, int) = choose|i: int, k: int|
                        0 <= i < self.layers()[r + 1].0@.len() && 0 <= k
                            < self.layers()[r + 1].0@[i].subs@.len() && !((
                        #[trigger] self.layers()[r + 1].0@[i].subs@[k] as int) < below);
                    assert(self.subs(r, i)[k] as int >= self.count(r - 1));
                }
                return false;
            }
        }
        true
    }

    /// Whether the poset satisfies the diamond property.
    pub fn is_dyadic(&self) -> (b: bool)
        requires
            self.bounded(),
            self.incidences_ok(),
        ensures
            b == self.dyadic(),
    {
        let n = self.0.0.len();
        let upper: usize = if n >= 3 {
            n - 1
        } else {
            2
        };
        for l in 2..upper
            invariant
                n == self.layers().len(),
                upper == if n >= 3 {
                    (n - 1) as int
                } else {
                    2
                },
                self.bounded(),
                self.incidences_ok(),
                forall|r: int, i: int, x: int|
                    1 <= r < l - 1 && 0 <= i < self.count(r) && 0 <= x < self.count(r - 2) ==> (
                    #[trigger] self.gc_count(r, i, x) == 0 || self.gc_count(r, i, x) == 2),
        {
            let ghost r = l as int - 1;
            let c = self.0.0[l].0.len();
            let n_grand = self.0.0[l - 2].0.len();
            for i in 0..c
                invariant
                    n == self.layers().len(),
                    2 <= l < upper,
                    upper == (n - 1) as int,
                    r == l as int - 1,
                    c == self.count(r),
                    n_grand == self.count(r - 2),
                    self.bounded(),
                    self.incidences_ok(),
                    forall|r2: int, i2: int, x: int|
                        1 <= r2 < l - 1 && 0 <= i2 < self.count(r2) && 0 <= x < self.count(r2 - 2)
                            ==> (#[trigger] self.gc_count(r2, i2, x) == 0 || self.gc_count(
                            r2,
                            i2,
                            x,
                        ) == 2),
                    forall|i2: int, x: int|
                        0 <= i2 < i && 0 <= x < self.count(r - 2) ==> (#[trigger] self.gc_count(
                            r,
                            i2,
                            x,
                        ) == 0 || self.gc_count(r, i2, x) == 2),
            {
                let el = &self.0.0[l].0[i];
                let below = &self.0.0[l - 1];
                proof {
                    assert forall|k: int| 0 <= k < el.subs@.len() implies (
                    #[trigger] el.subs@[k] as int) < below.0@.len() by {
                        assert(self.subs(r, i as int)[k] == el.subs@[k]);
                    }
                    assert forall|j: int, k: int|
                        0 <= j < below.0@.len() && 0 <= k < below.0@[j].subs@.len() implies (
                    #[trigger] below.0@[j].subs@[k] as int) < n_grand by {
                        assert(self.subs(r - 1, j)[k] == below.0@[j].subs@[k]);
                    }
                }
                if !element_dyadic(el, below, n_grand) {
                    proof {
                        let x = choose|x: int|
                            0 <= x < n_grand && !((#[trigger] gc_of(
                                el.subs@,
                                below.subs_seq(),
                                x,
                                el.subs@.len() as int,
                            )) == 0 || gc_of(el.subs@, below.subs_seq(), x, el.subs@.len() as int)
                                == 2);
                        assert(self.gc_count(r, i as int, x) == gc_of(
                            el.subs@,
                            below.subs_seq(),
                            x,
                            el.subs@.len() as int,
                        ));
                        assert(!self.dyadic());
                    }
                    return false;
                }
                proof {
                    assert forall|x: int| 0 <= x < self.count(r - 2) implies (
                    #[trigger] self.gc_count(r, i as int, x) == 0 || self.gc_count(r, i as int, x)
                        == 2) by {
                        assert(gc_of(el.subs@, below.subs_seq(), x, el.subs@.len() as int) == 0
                            || gc_of(el.subs@, below.subs_seq(), x, el.subs@.len() as int) == 2);
                        assert(self.gc_count(r, i as int, x) == gc_of(
                            el.subs@,
                            below.subs_seq(),
                            x,
                            el.subs@.len() as int,
                        ));
                    }
                }
            }
        }
        true
    }

    /// The polygon with `n` sides: a single cycle of `n` vertices and
    /// `n` edges, edge `i` joining vertices `(i + 1) % n` and
    /// `(i + 2) % n`.
    pub fn polygon(n: usize) -> (r: Abstract)
        requires
            2 <= n,
            n <= usize::MAX - 2,
        ensures
            r.spec_rank() == 2,
            r.count(-1) == 1,
            r.count(0) == n,
            r.count(1) == n,
            r.count(2) == 1,
            r.subs(-1, 0) == Seq::<usize>::empty(),
            forall|i: int| 0 <= i < n ==> r.subs(0, i) == seq![0usize],
            forall|i: int|
                0 <= i < n ==> #[trigger] r.subs(1, i) == seq![
                    (((i + 1) % (n as int)) as usize),
                    (((i + 2) % (n as int)) as usize),
                ],
            r.subs(2, 0).len() == n,
            forall|k: int| 0 <= k < n ==> r.subs(2, 0)[k] == k,
            r.bounded(),
            r.valid(),
            r.dyadic_full(),
            r.covering(),
    {
        let mut p = Abstract(RankVec(Vec::new()));
        p.push_min();
        p.push_vertices(n);
        let ghost p2 = p;
        let mut edges: Vec<Element> = Vec::new();
        for i in 0..n
            invariant
                2 <= n <= usize::MAX - 2,
                edges@.len() == i,
                forall|j: int|
                    0 <= j < i ==> #[trigger] edges@[j].subs@ == seq![
                        (((j + 1) % (n as int)) as usize),
                        (((j + 2) % (n as int)) as usize),
                    ],
        {
            let mut subs: Vec<usize> = Vec::new();
            subs.push((i + 1) % n);
            subs.push((i + 2) % n);
            assert(subs@ =~= seq![
                (((i + 1) % (n as int)) as usize),
                (((i + 2) % (n as int)) as usize),
            ]);
            edges.push(Element { subs });
        }
        let ghost edges_snap = edges@;
        p.0.push(ElementList(edges));
        let ghost p3 = p;
        p.push_max();
        proof {
            assert(p3.layers() == p2.layers().push(p3.layers()[2]));
            assert(p3.layers()[2].0@ == edges_snap);
            assert(p3.spec_rank() == 1);
            assert(p3.layers()[0] == p2.layers()[0]);
            assert(p3.layers()[1] == p2.layers()[1]);
            assert(p3.count(-1) == 1 && p3.count(0) == n && p3.count(1) == n);
            assert(p.spec_rank() == 2);
            assert(p.count(-1) == 1 && p.count(0) == n && p.count(1) == n && p.count(2) == 1);
            assert forall|i: int| 0 <= i < n implies p.subs(0, i) == seq![0usize] by {
                assert(p3.subs(0, i) == p2.subs(0, i));
                assert(p2.subs(0, i) == seq![0usize]);
                assert(p.subs(0, i) == p3.subs(0, i));
            }
            assert forall|i: int|
                0 <= i < n implies #[trigger] p.subs(1, i) == seq![
                (((i + 1) % (n as int)) as usize),
                (((i + 2) % (n as int)) as usize),
            ] by {
                assert(p3.subs(1, i) == edges_snap[i].subs@);
                assert(p.subs(1, i) == p3.subs(1, i));
            }
            assert(p3.subs(-1, 0) == p2.subs(-1, 0));
            assert(p.subs(-1, 0) == p3.subs(-1, 0));
            lemma_polygon_shape_valid(p, n);
        }
        p
    }

    /// The ditope: the maximal element duplicated, with a new top
    /// covering both copies.
    pub fn ditope(&self) -> (r: Abstract)
        requires
            self.bounded(),
            self.layers().len() >= 1,
            self.layers().len() + 1 <= isize::MAX,
            self.count(self.spec_rank()) == 1,
        ensures
            r.spec_rank() == self.spec_rank() + 1,
            r.bounded(),
            forall|rr: int| -1 <= rr < self.spec_rank() ==> #[trigger] r.count(rr) == self.count(
                rr,
            ),
            forall|rr: int, i: int|
                -1 <= rr < self.spec_rank() && 0 <= i < self.count(rr) ==> #[trigger] r.subs(rr, i)
                    == self.subs(rr, i),
            r.count(self.spec_rank()) == 2,
            r.subs(self.spec_rank(), 0) == self.subs(self.spec_rank(), 0),
            r.subs(self.spec_rank(), 1) == self.subs(self.spec_rank(), 0),
            r.count(self.spec_rank() + 1) == 1,
            r.subs(self.spec_rank() + 1, 0) == seq![0usize, 1usize],
    {
        let mut d = self.duplicate();
        let ghost d0 = d;
        let rank = self.rank();
        let mut top = d.0.index(rank).duplicate();
        let ghost top0 = top;
        let copy = top.0[0].duplicate();
        top.0.push(copy);
        d.0.set(rank, top);
        d.0.push(ElementList::max(2));
        proof {
            assert(d.subs(self.spec_rank() + 1, 0) =~= seq![0usize, 1usize]);
            assert(top0.subs_seq()[0] == top0.0@[0].subs@);
            assert(d0.layers()[rank + 1].subs_seq()[0] == d0.subs(rank as int, 0));
            assert(d0.subs(rank as int, 0) == self.subs(rank as int, 0));
            assert(d.subs(self.spec_rank(), 0) == self.subs(self.spec_rank(), 0));
            assert(d.subs(self.spec_rank(), 1) == self.subs(self.spec_rank(), 0));
            assert forall|rr: int, i: int|
                -1 <= rr < self.spec_rank() && 0 <= i < self.count(rr) implies #[trigger] d.subs(
                rr,
                i,
            ) == self.subs(rr, i) by {
                assert(d.layers()[rr + 1] == d0.layers()[rr + 1]);
                assert(d0.subs(rr, i) == self.subs(rr, i));
            }
        }
        d
    }

    /// Replaces the polytope by its ditope.
    pub fn ditope_mut(&mut self)
        requires
            old(self).bounded(),
            old(self).layers().len() >= 1,
            old(self).layers().len() + 1 <= isize::MAX,
            old(self).count(old(self).spec_rank()) == 1,
        ensures
            final(self).spec_rank() == old(self).spec_rank() + 1,
            final(self).bounded(),
            forall|rr: int|
                -1 <= rr < old(self).spec_rank() ==> #[trigger] final(self).count(rr) == old(
                    self,
                ).count(rr),
            final(self).count(old(self).spec_rank()) == 2,
            final(self).count(old(self).spec_rank() + 1) == 1,
    {
        let d = self.ditope();
        *self = d;
    }

    /// The hosotope: the minimal element duplicated into two vertices,
    /// every old vertex now lying over both, with a new minimal element
    /// below.
    pub fn hosotope(&self) -> (r: Abstract)
        requires
            self.bounded(),
            self.layers().len() + 1 <= isize::MAX,
            self.spec_rank() >= 0,
            self.count(-1) == 1,
            forall|i: int| 0 <= i < self.count(0) ==> #[trigger] self.subs(0, i) == seq![0usize],
        ensures
            r.spec_rank() == self.spec_rank() + 1,
            r.bounded(),
            r.count(-1) == 1,
            r.subs(-1, 0) == Seq::<usize>::empty(),
            r.count(0) == 2,
            r.subs(0, 0) == seq![0usize],
            r.subs(0, 1) == seq![0usize],
            r.count(1) == self.count(0),
            forall|i: int| 0 <= i < self.count(0) ==> #[trigger] r.subs(1, i) == seq![
                0usize,
                1usize,
            ],
            forall|rr: int| 1 <= rr <= self.spec_rank() ==> #[trigger] r.count(rr + 1)
                == self.count(rr),
            forall|rr: int, i: int|
                1 <= rr <= self.spec_rank() && 0 <= i < self.count(rr) ==> #[trigger] r.subs(
                    rr + 1,
                    i,
                ) == self.subs(rr, i),
    {
        let mut layers: Vec<ElementList> = Vec::new();
        layers.push(ElementList::min());
        layers.push(ElementList::vertices(2));
        let vc = self.el_count(0);
        let mut doubled: Vec<Element> = Vec::new();
        for i in 0..vc
            invariant
                doubled@.len() == i,
                forall|j: int| 0 <= j < i ==> #[trigger] doubled@[j].subs@ == seq![0usize, 1usize],
        {
            let mut subs: Vec<usize> = Vec::new();
            subs.push(0);
            subs.push(1);
            let e = Element { subs };
            assert(e.subs@ =~= seq![0usize, 1usize]);
            doubled.push(e);
        }
        layers.push(ElementList(doubled));
        let n = self.0.0.len();
        for l in 2..n
            invariant
                n == self.layers().len(),
                layers@.len() == l + 1,
                layers@[0].0@.len() == 1,
                layers@[0].0@[0].subs@ == Seq::<usize>::empty(),
                layers@[1].0@.len() == 2,
                layers@[1].0@[0].subs@ == seq![0usize],
                layers@[1].0@[1].subs@ == seq![0usize],
                layers@[2].0@.len() == self.count(0),
                forall|j: int| 0 <= j < self.count(0) ==> #[trigger] layers@[2].0@[j].subs@ == seq![
                    0usize,
                    1usize,
                ],
                forall|l2: int| 2 <= l2 < l ==> (#[trigger] layers@[l2 + 1]).0@.len()
                    == self.layers()[l2].0@.len(),
                forall|l2: int, i: int|
                    2 <= l2 < l && 0 <= i < self.layers()[l2].0@.len() ==> #[trigger] layers@[l2
                        + 1].0@[i].subs@ == self.layers()[l2].0@[i].subs@,
                self.bounded(),
        {
            let copy = self.0.0[l].duplicate();
            let ghost li = l as int;
            assert forall|i: int| 0 <= i < copy.0@.len() implies copy.0@[i].subs@
                == self.layers()[li].0@[i].subs@ by {
                assert(copy.subs_seq()[i] == copy.0@[i].subs@);
                assert(self.layers()[li].subs_seq()[i] == self.layers()[li].0@[i].subs@);
            }
            layers.push(copy);
        }
        let r = Abstract(RankVec(layers));
        proof {
            assert(r.count(-1) == 1 && r.count(0) == 2 && r.count(1) == self.count(0));
        }
        r
    }

    /// Replaces the polytope by its hosotope.
    pub fn hosotope_mut(&mut self)
        requires
            old(self).bounded(),
            old(self).layers().len() + 1 <= isize::MAX,
            old(self).spec_rank() >= 0,
            old(self).count(-1) == 1,
            forall|i: int| 0 <= i < old(self).count(0) ==> #[trigger] old(self).subs(0, i) == seq![
                0usize,
            ],
        ensures
            final(self).spec_rank() == old(self).spec_rank() + 1,
            final(self).bounded(),
            final(self).count(-1) == 1,
            final(self).count(0) == 2,
            final(self).count(1) == old(self).count(0),
            forall|rr: int| 1 <= rr <= old(self).spec_rank() ==> #[trigger] final(self).count(
                rr + 1,
            ) == old(self).count(rr),
    {
        let h = self.hosotope();
        *self = h;
    }

    /// The indices one rank below `r` that lie under some element of
    /// `s`, a set of indices of rank `r`.
    pub open spec fn step_down(self, r: int, s: Set<usize>) -> Set<usize> {
        Set::new(
            |x: usize|
                exists|i: usize, k: int|
                    s.contains(i) && 0 <= k < self.subs(r, i as int).len() && self.subs(
                        r,
                        i as int,
                    )[k] == x,
        )
    }

    /// The vertex indices reachable from `s`, a set of indices of rank
    /// `r`, by walking subelement lists down to rank 0.
    pub open spec fn vertex_closure(self, r: int, s: Set<usize>) -> Set<usize>
        decreases r,
    {
        if r <= 0 {
            s
        } else {
            self.vertex_closure(r - 1, self.step_down(r, s))
        }
    }

    /// The indices of the vertices below the element `idx` of rank
    /// `rank`, in ascending order; the nullitope has none.
    #[verifier::loop_isolation(false)]
    pub fn get_element_vertices(&self, rank: isize, idx: usize) -> (r: Option<Vec<usize>>)
        requires
            self.bounded(),
            self.incidences_ok(),
            -1 <= rank <= self.spec_rank(),
            rank >= 0 ==> (idx as int) < self.count(rank as int),
        ensures
            (rank == -1) <==> (r is None),
            r is Some ==> (r->Some_0)@.to_set() == self.vertex_closure(
                rank as int,
                Set::<usize>::empty().insert(idx),
            ),
            r is Some ==> (r->Some_0)@.len() == self.vertex_closure(
                rank as int,
                Set::<usize>::empty().insert(idx),
            ).len(),
            r is Some ==> forall|k1: int, k2: int|
                0 <= k1 < k2 < (r->Some_0)@.len() ==> (r->Some_0)@[k1] < (r->Some_0)@[k2],
            r is Some ==> forall|k: int|
                0 <= k < (r->Some_0)@.len() ==> ((r->Some_0)@[k] as int) < self.count(0),
    {
        if rank == -1 {
            return None;
        }
        let mut indices: Vec<usize> = Vec::new();
        indices.push(idx);
        let ghost s0 = Set::<usize>::empty().insert(idx);
        proof {
            crate::counting::lemma_empty_to_set();
            crate::counting::lemma_push_to_set(Seq::<usize>::empty(), idx);
            assert(indices@ =~= Seq::<usize>::empty().push(idx));
        }
        // The storage position of the rank the frontier lives at.
        let mut level: usize = (rank + 1) as usize;
        while level > 1
            invariant
                1 <= level <= rank + 1,
                self.vertex_closure(level as int - 1, indices@.to_set()) == self.vertex_closure(
                    rank as int,
                    s0,
                ),
                forall|k: int| 0 <= k < indices@.len() ==> (#[trigger] indices@[k] as int)
                    < self.count(level as int - 1),
                forall|k1: int, k2: int|
                    0 <= k1 < k2 < indices@.len() ==> indices@[k1] < indices@[k2],
            decreases level,
        {
            let ghost cr = level as int - 1;
            let ghost frontier = indices@.to_set();
            let below_count = self.0.0[level - 1].0.len();
            assert(below_count == self.count(cr - 1));
            let mut marker: Vec<bool> = Vec::new();
            for z in 0..below_count
                invariant
                    marker@.len() == z,
                    forall|x: int| 0 <= x < z ==> !(#[trigger] marker@[x]),
            {
                marker.push(false);
            }
            let fl = indices.len();
            for t in 0..fl
                invariant
                    fl == indices@.len(),
                    marker@.len() == below_count,
                    forall|x: usize|
                        (x as int) < below_count ==> ((#[trigger] marker@[x as int]) == exists|
                            tt: int,
                            kk: int,
                        |
                            0 <= tt < t && 0 <= kk < self.subs(cr, indices@[tt] as int).len()
                                && self.subs(cr, indices@[tt] as int)[kk] == x),
            {
                let i = indices[t];
                let m = self.0.0[level].0[i].subs.len();
                assert(m == self.subs(cr, i as int).len());
                for k in 0..m
                    invariant
                        fl == indices@.len(),
                        t < fl,
                        i == indices@[t as int],
                        (i as int) < self.count(cr),
                        m == self.subs(cr, i as int).len(),
                        marker@.len() == below_count,
                        forall|x: usize|
                            (x as int) < below_count ==> ((#[trigger] marker@[x as int]) == exists|
                                tt: int,
                                kk: int,
                            |
                                0 <= tt < t + 1 && 0 <= kk < self.subs(
                                    cr,
                                    indices@[tt] as int,
                                ).len() && self.subs(cr, indices@[tt] as int)[kk] == x && (tt < t
                                    || kk < k)),
                {
                    let x = self.0.0[level].0[i].subs[k];
                    assert((x as int) < below_count) by {
                        assert(self.subs(cr, i as int)[k as int] == x);
                    }
                    let ghost marker_before = marker@;
                    marker.set(x, true);
                    proof {
                        assert(self.subs(cr, indices@[t as int] as int)[k as int] == x);
                        assert forall|x2: usize| (x2 as int) < below_count implies ((
                        #[trigger] marker@[x2 as int]) == exists|tt: int, kk: int|
                            0 <= tt < t + 1 && 0 <= kk < self.subs(cr, indices@[tt] as int).len()
                                && self.subs(cr, indices@[tt] as int)[kk] == x2 && (tt < t || kk < k
                                + 1)) by {
                            if x2 == x {
                                assert(marker@[x2 as int]);
                            } else {
                                assert(marker@[x2 as int] == marker_before[x2 as int]);
                            }
                        }
                    }
                }
            }
            let mut nxt: Vec<usize> = Vec::new();
            for j in 0..below_count
                invariant
                    marker@.len() == below_count,
                    forall|k1: int, k2: int| 0 <= k1 < k2 < nxt@.len() ==> nxt@[k1] < nxt@[k2],
                    forall|k: int| 0 <= k < nxt@.len() ==> (#[trigger] nxt@[k] as int) < j,
                    forall|x: usize|
                        (x as int) < j ==> (marker@[x as int] == nxt@.to_set().contains(x)),
            {
                if marker[j] {
                    let ghost nxt_before = nxt@;
                    nxt.push(j);
                    proof {
                        crate::counting::lemma_push_to_set(nxt_before, j);
                    }
                } else {
                    proof {
                        assert(!nxt@.to_set().contains(j as usize)) by {
                            if nxt@.to_set().contains(j as usize) {
                                let k = choose|k: int|
                                    0 <= k < nxt@.len() && nxt@[k] == j as usize;
                            }
                        }
                    }
                }
            }
            proof {
                let stepped = self.step_down(cr, frontier);
                assert forall|x: usize| nxt@.to_set().contains(x) implies stepped.contains(x) by {
                    let k = choose|k: int| 0 <= k < nxt@.len() && nxt@[k] == x;
                    assert(marker@[x as int]);
                    let (tt, kk): (int, int) = choose|tt: int, kk: int|
                        0 <= tt < fl && 0 <= kk < self.subs(cr, indices@[tt] as int).len()
                            && self.subs(cr, indices@[tt] as int)[kk] == x && (tt < fl || kk
                            < self.subs(cr, indices@[tt] as int).len());
                    assert(frontier.contains(indices@[tt]));
                }
                assert forall|x: usize| stepped.contains(x) implies nxt@.to_set().contains(x) by {
                    let (i, k): (usize, int) = choose|i: usize, k: int|
                        frontier.contains(i) && 0 <= k < self.subs(cr, i as int).len()
                            && self.subs(cr, i as int)[k] == x;
                    let tt = choose|tt: int| 0 <= tt < indices@.len() && indices@[tt] == i;
                    assert((x as int) < below_count) by {
                        assert(self.subs(cr, i as int)[k] == x);
                        assert((i as int) < self.count(cr));
                    }
                    assert(marker@[x as int]);
                }
                assert(nxt@.to_set() =~= stepped);
                assert(self.vertex_closure(cr, frontier) == self.vertex_closure(cr - 1, stepped));
            }
            indices = nxt;
            level = level - 1;
        }
        proof {
            assert(self.vertex_closure(0, indices@.to_set()) == indices@.to_set());
            // A strictly ascending list repeats nothing, so its length
            // is the size of the vertex set it walks out.
            assert(indices@.no_duplicates()) by {
                assert forall|k1: int, k2: int|
                    0 <= k1 < indices@.len() && 0 <= k2 < indices@.len() && k1 != k2
                        implies indices@[k1] != indices@[k2] by {
                    if k1 < k2 {
                        assert(indices@[k1] < indices@[k2]);
                    } else {
                        assert(indices@[k2] < indices@[k1]);
                    }
                }
            }
            indices@.unique_seq_to_set();
        }
        Some(indices)
    }

    /// Runs every validity check: single bottom and top, referential
    /// integrity, and the diamond property.
    pub fn full_check(&self) -> (b: bool)
        requires
            self.bounded(),
        ensures
            b == self.valid(),
    {
        if !self.has_min_max_elements() {
            return false;
        }
        if !self.check_incidences() {
            return false;
        }
        self.is_dyadic()
    }
}

} // verus!
