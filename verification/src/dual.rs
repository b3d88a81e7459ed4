use vstd::prelude::*;

use crate::counting::count_in;
use crate::counting::lemma_count_in_concat;
use crate::counting::lemma_count_in_repeat;
use crate::counting::lemma_count_in_take_full;
use crate::counting::lemma_count_in_take_step;
use crate::counting::repeat_val;
use crate::element::Element;
use crate::element::ElementList;
use crate::poset::Abstract;
use crate::ranked::RankVec;

verus! {

/// The transpose of the incidence relation at rank `rr` of `p`,
/// restricted to its first `j` elements: for each element index in
/// ascending order, one copy of that index for every occurrence of `i`
/// in its subelement list.
pub open spec fn transpose_row(p: Abstract, rr: int, i: int, j: int) -> Seq<usize>
    decreases j,
{
    if j <= 0 {
        Seq::<usize>::empty()
    } else {
        transpose_row(p, rr, i, j - 1) + repeat_val((j - 1) as usize, count_in(p.subs(rr, j - 1), i))
    }
}

/// The subelement list that element `i` receives in the dual, read off
/// from the elements one rank above it in the original: its
/// superelement indices in ascending order, with multiplicity.
pub open spec fn transpose_subs(p: Abstract, rr: int, i: int) -> Seq<usize> {
    transpose_row(p, rr, i, p.count(rr))
}

/// Every entry of a transpose row indexes one of the elements it was
/// read from.
pub proof fn lemma_transpose_row_entries(p: Abstract, rr: int, i: int, j: int)
    requires
        j >= 0,
    ensures
        forall|k: int|
            0 <= k < transpose_row(p, rr, i, j).len() ==> (#[trigger] transpose_row(
                p,
                rr,
                i,
                j,
            )[k] as int) < j,
    decreases j,
{
    if j > 0 {
        lemma_transpose_row_entries(p, rr, i, j - 1);
        let a = transpose_row(p, rr, i, j - 1);
        let b = repeat_val((j - 1) as usize, count_in(p.subs(rr, j - 1), i));
        assert forall|k: int| 0 <= k < transpose_row(p, rr, i, j).len() implies (
        #[trigger] transpose_row(p, rr, i, j)[k] as int) < j by {
            if k < a.len() {
                assert(transpose_row(p, rr, i, j)[k] == a[k]);
            } else {
                assert(transpose_row(p, rr, i, j)[k] == b[k - a.len()]);
                assert(b[k - a.len()] == (j - 1) as usize);
            }
        }
    }
}

/// The multiplicity of `x` in a transpose row is the multiplicity of
/// `i` among the subelements of element `x`.
pub proof fn lemma_transpose_row_count(p: Abstract, rr: int, i: int, j: int, x: int)
    requires
        0 <= j <= usize::MAX,
    ensures
        count_in(transpose_row(p, rr, i, j), x) == if 0 <= x < j {
            count_in(p.subs(rr, x), i)
        } else {
            0int
        },
    decreases j,
{
    if j <= 0 {
        assert(transpose_row(p, rr, i, j) == Seq::<usize>::empty());
        assert(count_in(Seq::<usize>::empty(), x) == 0);
    } else {
        crate::counting::lemma_count_in_nonneg(p.subs(rr, j - 1), i);
        lemma_transpose_row_count(p, rr, i, j - 1, x);
        lemma_count_in_concat(
            transpose_row(p, rr, i, j - 1),
            repeat_val((j - 1) as usize, count_in(p.subs(rr, j - 1), i)),
            x,
        );
        lemma_count_in_repeat((j - 1) as usize, count_in(p.subs(rr, j - 1), i), x);
    }
}

impl Abstract {
    /// The combinatorial dual: the same elements with the incidence
    /// relation transposed and the rank order reversed, built fresh by
    /// reading the original one rank pair at a time.
    pub fn dual(&self) -> (d: Abstract)
        requires
            self.bounded(),
            self.incidences_ok(),
        ensures
            d.spec_rank() == self.spec_rank(),
            d.bounded(),
            d.incidences_ok(),
            forall|k: int|
                -1 <= k <= self.spec_rank() ==> #[trigger] d.count(k) == self.count(
                    self.spec_rank() - 1 - k,
                ),
            forall|k: int, i: int|
                -1 <= k <= self.spec_rank() && 0 <= i < d.count(k) ==> #[trigger] d.subs(k, i)
                    == transpose_subs(*self, self.spec_rank() - k, i),
    {
        let ghost rk = self.spec_rank();
        let n = self.0.0.len();
        let mut layers: Vec<ElementList> = Vec::new();
        for ll in 0..n
            invariant
                n == self.layers().len(),
                n <= isize::MAX,
                rk == self.spec_rank(),
                self.incidences_ok(),
                layers@.len() == ll,
                forall|l2: int|
                    0 <= l2 < ll ==> #[trigger] layers@[l2].0@.len() == self.count(rk - l2),
                forall|l2: int, i: int|
                    0 <= l2 < ll && 0 <= i < layers@[l2].0@.len() ==> #[trigger] layers@[l2].0@[i].subs@
                        == transpose_subs(*self, rk - l2 + 1, i),
        {
            let ghost rr = rk - ll + 1;
            let cnt = self.0.0[n - 1 - ll].0.len();
            assert(cnt == self.count(rk - ll));
            let mut buckets: Vec<Element> = Vec::new();
            for z in 0..cnt
                invariant
                    buckets@.len() == z,
                    forall|i: int| 0 <= i < z ==> #[trigger] buckets@[i].subs@ =~= Seq::<
                        usize,
                    >::empty(),
            {
                buckets.push(Element { subs: Vec::new() });
            }
            if ll >= 1 {
                let src_idx = n - ll;
                let m = self.0.0[src_idx].0.len();
                assert(m == self.count(rr));
                for j in 0..m
                    invariant
                        n == self.layers().len(),
                        1 <= ll < n,
                        src_idx == n - ll,
                        rr == rk - ll + 1,
                        rk == self.spec_rank(),
                        self.incidences_ok(),
                        m == self.count(rr),
                        cnt == self.count(rr - 1),
                        buckets@.len() == cnt,
                        forall|i: int|
                            0 <= i < cnt ==> #[trigger] buckets@[i].subs@ == transpose_row(
                                *self,
                                rr,
                                i,
                                j as int,
                            ),
                {
                    let ghost jsubs = self.subs(rr, j as int);
                    let w = self.0.0[src_idx].0[j].subs.len();
                    assert(w == jsubs.len());
                    for t in 0..w
                        invariant
                            n == self.layers().len(),
                            1 <= ll < n,
                            src_idx == n - ll,
                            rr == rk - ll + 1,
                            rk == self.spec_rank(),
                            self.incidences_ok(),
                            j < m,
                            m == self.count(rr),
                            cnt == self.count(rr - 1),
                            jsubs == self.subs(rr, j as int),
                            w == jsubs.len(),
                            buckets@.len() == cnt,
                            forall|i: int|
                                0 <= i < cnt ==> #[trigger] buckets@[i].subs@ == transpose_row(
                                    *self,
                                    rr,
                                    i,
                                    j as int,
                                ) + repeat_val(j, count_in(jsubs.take(t as int), i)),
                    {
                        let i = self.0.0[src_idx].0[j].subs[t];
                        assert((i as int) < cnt) by {
                            assert(self.subs(rr, j as int)[t as int] == i);
                        }
                        let b = &mut buckets[i];
                        b.subs.push(j);
                        proof {
                            assert forall|i2: int| 0 <= i2 < cnt implies #[trigger] buckets@[i2].subs@
                                == transpose_row(*self, rr, i2, j as int) + repeat_val(
                                j,
                                count_in(jsubs.take(t as int + 1), i2),
                            ) by {
                                lemma_count_in_take_step(jsubs, i2, t as int);
                                crate::counting::lemma_count_in_nonneg(jsubs.take(t as int), i2);
                                if i2 == i as int {
                                    assert(repeat_val(j, count_in(jsubs.take(t as int + 1), i2))
                                        =~= repeat_val(
                                        j,
                                        count_in(jsubs.take(t as int), i2),
                                    ).push(j));
                                    assert(buckets@[i2].subs@ == (transpose_row(*self, rr, i2, j as int)
                                        + repeat_val(j, count_in(jsubs.take(t as int), i2))).push(
                                        j,
                                    ));
                                    assert((transpose_row(*self, rr, i2, j as int) + repeat_val(
                                        j,
                                        count_in(jsubs.take(t as int), i2),
                                    )).push(j) =~= transpose_row(*self, rr, i2, j as int)
                                        + repeat_val(
                                        j,
                                        count_in(jsubs.take(t as int), i2),
                                    ).push(j));
                                } else {
                                    assert(buckets@[i2].subs@ == transpose_row(*self, rr, i2, j as int)
                                        + repeat_val(j, count_in(jsubs.take(t as int), i2)));
                                }
                            }
                        }
                    }
                    proof {
                        assert forall|i: int| 0 <= i < cnt implies #[trigger] buckets@[i].subs@
                            == transpose_row(*self, rr, i, j as int + 1) by {
                            lemma_count_in_take_full(jsubs, i);
                            assert(jsubs.take(jsubs.len() as int) =~= jsubs);
                            assert(transpose_row(*self, rr, i, j as int + 1) == transpose_row(
                                *self,
                                rr,
                                i,
                                j as int,
                            ) + repeat_val(j, count_in(self.subs(rr, j as int), i)));
                        }
                    }
                }
            }
            proof {
                assert forall|i: int| 0 <= i < cnt implies #[trigger] buckets@[i].subs@
                    == transpose_subs(*self, rr, i) by {
                    if ll == 0 {
                        assert(self.count(rr) == 0);
                        assert(transpose_row(*self, rr, i, 0) =~= Seq::<usize>::empty());
                    }
                }
            }
            layers.push(ElementList(buckets));
        }
        let d = Abstract(RankVec(layers));
        proof {
            // Each transposed entry indexes the layer it was read from,
            // which is the dual's own layer one rank down.
            assert forall|k: int, i: int, t: int|
                -1 <= k <= d.spec_rank() && 0 <= i < d.count(k) && 0 <= t < d.subs(k, i).len()
                    implies (#[trigger] d.subs(k, i)[t] as int) < d.count(k - 1) by {
                assert(d.subs(k, i) == transpose_subs(*self, rk - k, i));
                lemma_transpose_row_entries(*self, rk - k, i, self.count(rk - k));
                assert((d.subs(k, i)[t] as int) < self.count(rk - k));
                assert(d.count(k - 1) == self.count(rk - k));
            }
        }
        d
    }

    /// Replaces the polytope by its combinatorial dual.
    pub fn dual_mut(&mut self)
        requires
            old(self).bounded(),
            old(self).incidences_ok(),
        ensures
            final(self).spec_rank() == old(self).spec_rank(),
            final(self).bounded(),
            final(self).incidences_ok(),
            forall|k: int|
                -1 <= k <= old(self).spec_rank() ==> #[trigger] final(self).count(k) == old(
                    self,
                ).count(old(self).spec_rank() - 1 - k),
            forall|k: int, i: int|
                -1 <= k <= old(self).spec_rank() && 0 <= i < final(self).count(k)
                    ==> #[trigger] final(self).subs(k, i) == transpose_subs(
                    *old(self),
                    old(self).spec_rank() - k,
                    i,
                ),
    {
        let d = self.dual();
        *self = d;
    }
}

} // verus!
