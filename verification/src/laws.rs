use vstd::prelude::*;

use crate::counting::count_in;
use crate::counting::gc_of;
use crate::counting::lemma_count_in_image_hit;
use crate::counting::lemma_count_in_nodup;
use crate::counting::lemma_gc_of_concat;
use crate::counting::lemma_gc_of_group;
use crate::counting::lemma_gc_of_indicator;
use crate::counting::lemma_gc_of_termwise;
use crate::counting::lemma_gc_of_zero_terms;
use crate::counting::lemma_sum_upto_congruence;
use crate::dual::lemma_transpose_row_count;
use crate::dual::lemma_transpose_row_entries;
use crate::dual::transpose_subs;
use crate::poset::Abstract;
use crate::product::imin;
use crate::product::is_product_of;
use crate::product::lemma_count_upto_mono;
use crate::product::lemma_pair_subs_count;
use crate::product::lemma_prod_index_bound;
use crate::product::lemma_prod_index_fits;
use crate::product::lemma_prod_index_injective;
use crate::product::lemma_prod_index_inverse;
use crate::product::moff;
use crate::product::offset;
use crate::product::offset_memo;
use crate::product::pair_placed;
use crate::product::phigh;
use crate::product::plow;
use crate::product::prod_index;
use crate::product::prod_rank_total;
use crate::product::prod_subs;
use crate::product::product_ready;
use crate::product::qhigh;
use crate::product::rank_count_raw;

verus! {

/// The relation `Abstract::dual` establishes between a poset and its
/// dual, stated over the model alone: counts reversed and the
/// incidence relation transposed.
pub open spec fn is_dual_of(d: Abstract, p: Abstract) -> bool {
    &&& d.spec_rank() == p.spec_rank()
    &&& (forall|k: int|
        -1 <= k <= p.spec_rank() ==> #[trigger] d.count(k) == p.count(p.spec_rank() - 1 - k))
    &&& (forall|k: int, i: int|
        -1 <= k <= p.spec_rank() && 0 <= i < d.count(k) ==> #[trigger] d.subs(k, i)
            == transpose_subs(p, p.spec_rank() - k, i))
}

/// Referential integrity reads nothing but the incidence model: two
/// posets with the same rank, counts and subelement lists pass or fail
/// it together.
pub proof fn lemma_incidences_congruence(a: Abstract, b: Abstract)
    requires
        Abstract::same_model(a, b),
        Abstract::same_model(b, a),
    ensures
        a.incidences_ok() == b.incidences_ok(),
{
    if a.incidences_ok() {
        assert forall|r: int, i: int, k: int|
            -1 <= r <= b.spec_rank() && 0 <= i < b.count(r) && 0 <= k < b.subs(r, i).len()
                implies (#[trigger] b.subs(r, i)[k] as int) < b.count(r - 1) by {
            assert(b.subs(r, i) == a.subs(r, i));
            assert((a.subs(r, i)[k] as int) < a.count(r - 1));
        }
    }
    if b.incidences_ok() {
        assert forall|r: int, i: int, k: int|
            -1 <= r <= a.spec_rank() && 0 <= i < a.count(r) && 0 <= k < a.subs(r, i).len()
                implies (#[trigger] a.subs(r, i)[k] as int) < a.count(r - 1) by {
            assert(a.subs(r, i) == b.subs(r, i));
            assert((b.subs(r, i)[k] as int) < b.count(r - 1));
        }
    }
}

/// Taking the dual twice restores every element count: the counts are
/// reversed once and then reversed back.
pub proof fn lemma_dual_involution_counts(p: Abstract, d: Abstract, dd: Abstract)
    requires
        is_dual_of(d, p),
        is_dual_of(dd, d),
    ensures
        dd.spec_rank() == p.spec_rank(),
        forall|k: int| -1 <= k <= p.spec_rank() ==> #[trigger] dd.count(k) == p.count(k),
{
    assert forall|k: int| -1 <= k <= p.spec_rank() implies #[trigger] dd.count(k) == p.count(
        k,
    ) by {
        assert(dd.count(k) == d.count(d.spec_rank() - 1 - k));
        assert(d.count(p.spec_rank() - 1 - k) == p.count(p.spec_rank() - 1 - (p.spec_rank() - 1
            - k)));
    }
}

/// The dual of a sound poset is sound: it keeps a single bottom and a
/// single top, and every transposed subelement index stays in range.
pub proof fn lemma_dual_preserves_soundness(p: Abstract, d: Abstract)
    requires
        is_dual_of(d, p),
        p.has_min_max(),
        p.incidences_ok(),
    ensures
        d.has_min_max(),
        d.incidences_ok(),
{
    let rank = p.spec_rank();
    assert(d.count(-1) == p.count(rank));
    assert(d.count(rank) == p.count(-1));
    assert forall|k: int, i: int, t: int|
        -1 <= k <= d.spec_rank() && 0 <= i < d.count(k) && 0 <= t < d.subs(k, i).len() implies (
    #[trigger] d.subs(k, i)[t] as int) < d.count(k - 1) by {
        assert(d.subs(k, i) == transpose_subs(p, rank - k, i));
        lemma_transpose_row_entries(p, rank - k, i, p.count(rank - k));
        assert((d.subs(k, i)[t] as int) < p.count(rank - k));
        assert(d.count(k - 1) == p.count(rank - k));
    }
}

/// Taking the dual preserves the diamond property, in its form that
/// also holds the maximal elements to the rule: the count of elements
/// between a dual element and one of its dual grandchildren is the
/// count between the same two elements of the original, read the other
/// way up.  The property restricted to interior ranks alone would not
/// carry over: the dual's rank-1 sections mirror the original's
/// top-rank sections, which that restriction leaves unchecked.
pub proof fn lemma_dual_preserves_dyadic(p: Abstract, d: Abstract)
    requires
        is_dual_of(d, p),
        p.incidences_ok(),
        p.counts_bounded(),
        p.dyadic_full(),
    ensures
        d.dyadic_full(),
        d.dyadic(),
{
    let rank = p.spec_rank();
    assert forall|k: int, i: int, x: int|
        1 <= k <= d.spec_rank() && 0 <= i < d.count(k) && 0 <= x < d.count(k - 2) implies (
    #[trigger] d.gc_count(k, i, x) == 0 || d.gc_count(k, i, x) == 2) by {
        let s = rank - k;
        let n = p.count(s);
        let dsubs = d.subs(k, i);
        let dbelow = d.layer_subs(k - 1);
        assert(dsubs == transpose_subs(p, s, i));
        lemma_transpose_row_entries(p, s, i, n);
        assert(d.gc_count(k, i, x) == gc_of(dsubs, dbelow, x, dsubs.len() as int));
        lemma_gc_of_group(dsubs, dbelow, x, dsubs.len() as int, n);
        assert(dsubs.take(dsubs.len() as int) =~= dsubs);
        let g = |u: int| count_in(p.subs(s, u), i) * count_in(p.subs(s + 1, x), u);
        let fd = |u: int| count_in(dsubs.take(dsubs.len() as int), u) * count_in(dbelow[u], x);
        assert forall|u: int| 0 <= u < n implies #[trigger] fd(u) == g(u) by {
            lemma_transpose_row_count(p, s, i, n, u);
            assert(count_in(dsubs, u) == count_in(p.subs(s, u), i));
            assert(d.count(k - 1) == n);
            assert(dbelow[u] == d.subs(k - 1, u));
            assert(d.subs(k - 1, u) == transpose_subs(p, s + 1, u));
            lemma_transpose_row_count(p, s + 1, u, p.count(s + 1), x);
            assert(count_in(dbelow[u], x) == count_in(p.subs(s + 1, x), u));
            assert(count_in(p.subs(s, u), i) * count_in(p.subs(s + 1, x), u) == count_in(
                p.subs(s + 1, x),
                u,
            ) * count_in(p.subs(s, u), i)) by (nonlinear_arith);
        }
        lemma_sum_upto_congruence(fd, g, n);
        // The same grouping applied to the original's section, one rank
        // pair up.
        let psubs = p.subs(s + 1, x);
        assert(0 <= x < p.count(s + 1));
        assert forall|t: int| 0 <= t < psubs.len() implies (#[trigger] psubs[t] as int) < n by {
            assert((p.subs(s + 1, x)[t] as int) < p.count(s));
        }
        lemma_gc_of_group(psubs, p.layer_subs(s), i, psubs.len() as int, n);
        assert(psubs.take(psubs.len() as int) =~= psubs);
        let fp = |u: int| count_in(psubs.take(psubs.len() as int), u) * count_in(
            p.layer_subs(s)[u],
            i,
        );
        assert forall|u: int| 0 <= u < n implies #[trigger] fp(u) == g(u) by {
            assert(p.layer_subs(s)[u] == p.subs(s, u));
            assert(count_in(psubs, u) * count_in(p.subs(s, u), i) == count_in(p.subs(s, u), i)
                * count_in(psubs, u)) by (nonlinear_arith);
        }
        lemma_sum_upto_congruence(fp, g, n);
        assert(p.gc_count(s + 1, x, i) == gc_of(psubs, p.layer_subs(s), i, psubs.len() as int));
        assert(d.gc_count(k, i, x) == p.gc_count(s + 1, x, i));
        assert(1 <= s + 1 <= rank);
        assert(0 <= i < p.count(s - 1));
        assert(p.gc_count(s + 1, x, i) == 0 || p.gc_count(s + 1, x, i) == 2);
    }
}

/// A product of sound polytopes is sound: it has a single bottom and a
/// single top, and every subelement index of every layer, paired or
/// synthesized, resolves one rank down.
#[verifier::rlimit(100)]
#[verifier::spinoff_prover]
pub proof fn lemma_product_preserves_soundness(
    p: Abstract,
    q: Abstract,
    r: Abstract,
    min: bool,
    max: bool,
)
    requires
        is_product_of(r, p, q, min, max),
        product_ready(p, q, min, max),
        p.has_min_max(),
        q.has_min_max(),
        !max ==> p.spec_rank() >= 0 && q.spec_rank() >= 0,
    ensures
        r.has_min_max(),
        r.incidences_ok(),
{
    let total = prod_rank_total(p, q, min, max);
    let low = plow(min);
    let hp = phigh(p, max);
    let hq = qhigh(q, max);
    assert(r.count(-1) == 1) by {
        if min {
            if !(!max && total == -1) {
                assert(imin(hp, -1 - moff(min) - low) == -1);
                assert(offset_memo(p, q, min, max, -1, -1) == p.count(-1) * q.count(-1));
            }
        }
    }
    assert(r.count(total) == 1) by {
        if max {
            assert(imin(hp, total - moff(min) - low) == hp);
            assert(total - moff(min) - hp == hq);
            assert(offset_memo(p, q, min, max, hp, hq) == p.count(hp) * q.count(hq));
        }
    }
    assert(r.has_min_max());
    assert forall|rho: int, j: int, k: int|
        -1 <= rho <= r.spec_rank() && 0 <= j < r.count(rho) && 0 <= k < r.subs(rho, j).len() implies (
    #[trigger] r.subs(rho, j)[k] as int) < r.count(rho - 1) by {
        if !max && rho == total {
            assert(r.subs(total, 0)[k] == k);
        } else if !min && rho == -1 {
            assert(r.subs(-1, 0) == Seq::<usize>::empty());
        } else if !min && rho == 0 {
            assert(r.subs(0, j) == seq![0usize]);
            assert(r.count(-1) == 1);
        } else {
            // A pair layer: position `j` is the index of some pair, and
            // the pair's subelements are product indices one rank down.
            assert(r.count(rho) == rank_count_raw(p, q, min, max, rho));
            lemma_prod_index_inverse(p, q, min, max, rho, j, hp);
            let (pr, pi, qr, qi): (int, int, int, int) = choose|pr: int, pi: int, qr: int, qi: int|
                {
                    &&& plow(min) <= pr <= phigh(p, max)
                    &&& plow(min) <= qr <= qhigh(q, max)
                    &&& 0 <= pi < p.count(pr)
                    &&& 0 <= qi < q.count(qr)
                    &&& pr + qr + moff(min) == rho
                    &&& #[trigger] prod_index(p, q, min, max, pr, pi, qr, qi) == j
                };
            assert(pair_placed(p, q, min, max, r.layers()[rho + 1].0@, pr, pi, qr, qi));
            let subs = prod_subs(p, q, min, max, pr, pi, qr, qi);
            assert(r.subs(rho, j) == subs);
            let alen: int = if pr != 0 || min {
                p.subs(pr, pi).len() as int
            } else {
                0
            };
            let idx: int = if k < alen {
                let s = p.subs(pr, pi)[k] as int;
                assert(s < p.count(pr - 1));
                assert(pr - 1 >= low) by {
                    if pr - 1 < low {
                        assert(p.count(pr - 1) == 0);
                    }
                }
                lemma_prod_index_bound(p, q, min, max, pr - 1, s, qr, qi);
                lemma_count_upto_mono(p, q, min, max, rho - 1, pr - 1, hp);
                prod_index(p, q, min, max, pr - 1, s, qr, qi)
            } else {
                let s = q.subs(qr, qi)[k - alen] as int;
                assert(s < q.count(qr - 1));
                assert(qr - 1 >= low) by {
                    if qr - 1 < low {
                        assert(q.count(qr - 1) == 0);
                    }
                }
                lemma_prod_index_bound(p, q, min, max, pr, pi, qr - 1, s);
                lemma_count_upto_mono(p, q, min, max, rho - 1, pr, hp);
                prod_index(p, q, min, max, pr, pi, qr - 1, s)
            };
            assert(0 <= idx && idx < rank_count_raw(p, q, min, max, rho - 1));
            assert(idx <= usize::MAX) by {
                let pr2 = imin(hp, rho - 1 - moff(min) - low);
                assert(rank_count_raw(p, q, min, max, rho - 1) == offset(
                    p,
                    q,
                    min,
                    max,
                    pr2,
                    rho - 1 - moff(min) - pr2,
                ));
            }
            assert(r.subs(rho, j)[k] as int == idx);
            assert(idx < r.count(rho - 1)) by {
                if !min && rho - 1 == 0 {
                    // With pairs present the raw count of the vertex
                    // rank equals the synthesized vertex count.
                    assert(hp >= 0);
                    assert(imin(hp, 0 - moff(min) - low) == 0);
                    assert(offset_memo(p, q, min, max, 0, 0) == p.count(0) * q.count(0));
                    assert(rank_count_raw(p, q, min, max, 0) == p.count(0) * q.count(0));
                } else {
                    assert(r.count(rho - 1) == rank_count_raw(p, q, min, max, rho - 1));
                }
            }
        }
    }
}

/// The products that pair the minimal elements preserve the diamond
/// property.  Between a product element and one of its grandchildren
/// lie exactly two elements, or none: a grandchild that drops both of
/// its ranks on one side is reached through that factor's own
/// sections; one that drops a rank on each side is reached exactly
/// twice, once through each factor, which is where duplicate-free
/// subelement lists are needed.  With the maximal elements paired too
/// (the pyramid product) this holds up to and including the top rank;
/// with a synthesized top (the tegum product) it holds at every rank
/// below it, which is all the interior diamond property asks.
#[verifier::rlimit(100)]
#[verifier::spinoff_prover]
pub proof fn lemma_min_product_preserves_dyadic(p: Abstract, q: Abstract, r: Abstract, max: bool)
    requires
        is_product_of(r, p, q, true, max),
        product_ready(p, q, true, max),
        p.dyadic_full(),
        q.dyadic_full(),
        p.no_dup_subs(),
        q.no_dup_subs(),
    ensures
        max ==> r.dyadic_full(),
        r.dyadic(),
{
    let total = prod_rank_total(p, q, true, max);
    let hp = phigh(p, max);
    let upper: int = if max {
        total
    } else {
        total - 1
    };
    assert forall|rho: int, j: int, x: int|
        1 <= rho <= upper && 0 <= j < r.count(rho) && 0 <= x < r.count(rho - 2) implies (
    #[trigger] r.gc_count(rho, j, x) == 0 || r.gc_count(rho, j, x) == 2) by {
        assert(r.count(rho) == rank_count_raw(p, q, true, max, rho));
        assert(r.count(rho - 2) == rank_count_raw(p, q, true, max, rho - 2));
        lemma_prod_index_inverse(p, q, true, max, rho, j, hp);
        let (pr, pi, qr, qi): (int, int, int, int) = choose|pr: int, pi: int, qr: int, qi: int|
            {
                &&& plow(true) <= pr <= phigh(p, max)
                &&& plow(true) <= qr <= qhigh(q, max)
                &&& 0 <= pi < p.count(pr)
                &&& 0 <= qi < q.count(qr)
                &&& pr + qr + moff(true) == rho
                &&& #[trigger] prod_index(p, q, true, max, pr, pi, qr, qi) == j
            };
        lemma_prod_index_inverse(p, q, true, max, rho - 2, x, hp);
        let (xr, xpi, xs, xqi): (int, int, int, int) = choose|xr: int, xpi: int, xs: int, xqi: int|
            {
                &&& plow(true) <= xr <= phigh(p, max)
                &&& plow(true) <= xs <= qhigh(q, max)
                &&& 0 <= xpi < p.count(xr)
                &&& 0 <= xqi < q.count(xs)
                &&& xr + xs + moff(true) == rho - 2
                &&& #[trigger] prod_index(p, q, true, max, xr, xpi, xs, xqi) == x
            };
        assert(pair_placed(p, q, true, max, r.layers()[rho + 1].0@, pr, pi, qr, qi));
        let zsubs = prod_subs(p, q, true, max, pr, pi, qr, qi);
        assert(r.subs(rho, j) == zsubs);
        let sa = p.subs(pr, pi);
        let sb = q.subs(qr, qi);
        let fa = |s: int| prod_index(p, q, true, max, pr - 1, s, qr, qi);
        let fb = |s: int| prod_index(p, q, true, max, pr, pi, qr - 1, s);
        let va = Seq::new(sa.len(), |k: int| fa(sa[k] as int) as usize);
        let vb = Seq::new(sb.len(), |k: int| fb(sb[k] as int) as usize);
        assert(zsubs == va + vb);
        let bel = r.layer_subs(rho - 1);
        assert(r.gc_count(rho, j, x) == gc_of(zsubs, bel, x, zsubs.len() as int));
        lemma_gc_of_concat(va, vb, bel, x);
        assert(gc_of(zsubs, bel, x, zsubs.len() as int) == gc_of(va, bel, x, va.len() as int)
            + gc_of(vb, bel, x, vb.len() as int));
        let na = p.count(pr - 1);
        let nb = q.count(qr - 1);
        // Each entry of the two parts names a middle pair one rank
        // down, whose subelements the product pins; its contribution
        // follows from the pair count law.
        assert forall|t: int| 0 <= t < va.len() implies #[trigger] count_in(bel[va[t] as int], x)
            == (if xr == pr - 2 && xs == qr && xqi == qi {
            count_in(p.subs(pr - 1, sa[t] as int), xpi)
        } else {
            0int
        }) + (if xr == pr - 1 && xs == qr - 1 && xpi == sa[t] as int {
            count_in(sb, xqi)
        } else {
            0int
        }) by {
            assert((sa[t] as int) < na);
            lemma_prod_index_bound(p, q, true, max, pr - 1, sa[t] as int, qr, qi);
            lemma_count_upto_mono(p, q, true, max, rho - 1, pr - 1, hp);
            assert(va[t] as int == fa(sa[t] as int));
            assert(0 <= (va[t] as int) && (va[t] as int) < r.count(rho - 1));
            assert(pair_placed(
                p,
                q,
                true,
                max,
                r.layers()[rho].0@,
                pr - 1,
                sa[t] as int,
                qr,
                qi,
            ));
            assert(bel[va[t] as int] == r.subs(rho - 1, va[t] as int));
            assert(r.subs(rho - 1, va[t] as int) == prod_subs(
                p,
                q,
                true,
                max,
                pr - 1,
                sa[t] as int,
                qr,
                qi,
            ));
            lemma_pair_subs_count(p, q, max, pr - 1, sa[t] as int, qr, qi, xr, xpi, xs, xqi);
        }
        assert forall|t: int| 0 <= t < vb.len() implies #[trigger] count_in(bel[vb[t] as int], x)
            == (if xr == pr - 1 && xs == qr - 1 && xqi == sb[t] as int {
            count_in(sa, xpi)
        } else {
            0int
        }) + (if xr == pr && xs == qr - 2 && xpi == pi {
            count_in(q.subs(qr - 1, sb[t] as int), xqi)
        } else {
            0int
        }) by {
            assert((sb[t] as int) < nb);
            lemma_prod_index_bound(p, q, true, max, pr, pi, qr - 1, sb[t] as int);
            lemma_count_upto_mono(p, q, true, max, rho - 1, pr, hp);
            assert(vb[t] as int == fb(sb[t] as int));
            assert(0 <= (vb[t] as int) && (vb[t] as int) < r.count(rho - 1));
            assert(pair_placed(
                p,
                q,
                true,
                max,
                r.layers()[rho].0@,
                pr,
                pi,
                qr - 1,
                sb[t] as int,
            ));
            assert(bel[vb[t] as int] == r.subs(rho - 1, vb[t] as int));
            assert(r.subs(rho - 1, vb[t] as int) == prod_subs(
                p,
                q,
                true,
                max,
                pr,
                pi,
                qr - 1,
                sb[t] as int,
            ));
            lemma_pair_subs_count(p, q, max, pr, pi, qr - 1, sb[t] as int, xr, xpi, xs, xqi);
        }
        if xr == pr - 2 {
            assert(xs == qr);
            if xqi == qi {
                // A section inside the p factor, seen through the
                // p-moving entries alone.
                assert forall|t: int| 0 <= t < va.len() implies #[trigger] count_in(
                    bel[va[t] as int],
                    x,
                ) == count_in(p.layer_subs(pr - 1)[sa[t] as int], xpi) by {
                    assert(p.layer_subs(pr - 1)[sa[t] as int] == p.subs(pr - 1, sa[t] as int));
                }
                lemma_gc_of_termwise(va, bel, x, sa, p.layer_subs(pr - 1), xpi, sa.len() as int);
                assert(gc_of(sa, p.layer_subs(pr - 1), xpi, sa.len() as int) == p.gc_count(
                    pr,
                    pi,
                    xpi,
                ));
                lemma_gc_of_zero_terms(vb, bel, x, vb.len() as int);
                assert(1 <= pr <= p.spec_rank());
                assert(p.gc_count(pr, pi, xpi) == 0 || p.gc_count(pr, pi, xpi) == 2);
            } else {
                lemma_gc_of_zero_terms(va, bel, x, va.len() as int);
                lemma_gc_of_zero_terms(vb, bel, x, vb.len() as int);
            }
        } else if xr == pr {
            assert(xs == qr - 2);
            if xpi == pi {
                assert forall|t: int| 0 <= t < vb.len() implies #[trigger] count_in(
                    bel[vb[t] as int],
                    x,
                ) == count_in(q.layer_subs(qr - 1)[sb[t] as int], xqi) by {
                    assert(q.layer_subs(qr - 1)[sb[t] as int] == q.subs(qr - 1, sb[t] as int));
                }
                lemma_gc_of_termwise(vb, bel, x, sb, q.layer_subs(qr - 1), xqi, sb.len() as int);
                assert(gc_of(sb, q.layer_subs(qr - 1), xqi, sb.len() as int) == q.gc_count(
                    qr,
                    qi,
                    xqi,
                ));
                lemma_gc_of_zero_terms(va, bel, x, va.len() as int);
                assert(1 <= qr <= q.spec_rank());
                assert(q.gc_count(qr, qi, xqi) == 0 || q.gc_count(qr, qi, xqi) == 2);
            } else {
                lemma_gc_of_zero_terms(va, bel, x, va.len() as int);
                lemma_gc_of_zero_terms(vb, bel, x, vb.len() as int);
            }
        } else if xr == pr - 1 {
            assert(xs == qr - 1);
            // A mixed grandchild: dropped once on each side, reached
            // once through each factor.
            let ca = count_in(sa, xpi);
            let cb = count_in(sb, xqi);
            lemma_prod_index_bound(p, q, true, max, pr - 1, xpi, qr, qi);
            let wa: usize = fa(xpi) as usize;
            assert(wa as int == fa(xpi));
            assert forall|s1: int, s2: int|
                0 <= s1 < na && 0 <= s2 < na && #[trigger] fa(s1) == #[trigger] fa(s2)
                    implies s1 == s2 by {
                lemma_prod_index_injective(p, q, true, max, pr - 1, s1, qr, qi, pr - 1, s2, qr, qi);
            }
            assert forall|t: int| 0 <= t < va.len() implies #[trigger] count_in(
                bel[va[t] as int],
                x,
            ) == (if va[t] == wa {
                cb
            } else {
                0int
            }) by {
                assert((sa[t] as int) < na);
                lemma_prod_index_bound(p, q, true, max, pr - 1, sa[t] as int, qr, qi);
                assert(va[t] as int == fa(sa[t] as int));
                if va[t] == wa {
                    assert(fa(sa[t] as int) == fa(xpi));
                    assert(sa[t] as int == xpi);
                } else {
                    assert(sa[t] as int != xpi);
                }
            }
            lemma_gc_of_indicator(va, bel, x, va.len() as int, wa, cb);
            assert(va.take(va.len() as int) =~= va);
            assert forall|k: int| 0 <= k < sa.len() implies (#[trigger] sa[k] as int) < na by {
                assert((p.subs(pr, pi)[k] as int) < p.count(pr - 1));
            }
            assert forall|k: int| 0 <= k < sa.len() implies (#[trigger] va[k] as int) == fa(
                sa[k] as int,
            ) by {
                lemma_prod_index_fits(p, q, max, pr - 1, sa[k] as int, qr, qi);
            }
            lemma_count_in_image_hit(va, sa, fa, wa as int, xpi, na);
            assert(gc_of(va, bel, x, va.len() as int) == ca * cb);
            let nb2 = q.count(qr - 1);
            lemma_prod_index_bound(p, q, true, max, pr, pi, qr - 1, xqi);
            let wb: usize = fb(xqi) as usize;
            assert(wb as int == fb(xqi));
            assert forall|s1: int, s2: int|
                0 <= s1 < nb2 && 0 <= s2 < nb2 && #[trigger] fb(s1) == #[trigger] fb(s2)
                    implies s1 == s2 by {
                lemma_prod_index_injective(p, q, true, max, pr, pi, qr - 1, s1, pr, pi, qr - 1, s2);
            }
            assert forall|t: int| 0 <= t < vb.len() implies #[trigger] count_in(
                bel[vb[t] as int],
                x,
            ) == (if vb[t] == wb {
                ca
            } else {
                0int
            }) by {
                assert((sb[t] as int) < nb2);
                lemma_prod_index_bound(p, q, true, max, pr, pi, qr - 1, sb[t] as int);
                assert(vb[t] as int == fb(sb[t] as int));
                if vb[t] == wb {
                    assert(fb(sb[t] as int) == fb(xqi));
                    assert(sb[t] as int == xqi);
                } else {
                    assert(sb[t] as int != xqi);
                }
            }
            lemma_gc_of_indicator(vb, bel, x, vb.len() as int, wb, ca);
            assert(vb.take(vb.len() as int) =~= vb);
            assert forall|k: int| 0 <= k < sb.len() implies (#[trigger] sb[k] as int) < nb2 by {
                assert((q.subs(qr, qi)[k] as int) < q.count(qr - 1));
            }
            assert forall|k: int| 0 <= k < sb.len() implies (#[trigger] vb[k] as int) == fb(
                sb[k] as int,
            ) by {
                lemma_prod_index_fits(p, q, max, pr, pi, qr - 1, sb[k] as int);
            }
            lemma_count_in_image_hit(vb, sb, fb, wb as int, xqi, nb2);
            assert(gc_of(vb, bel, x, vb.len() as int) == cb * ca);
            assert(sa.no_duplicates());
            assert(sb.no_duplicates());
            lemma_count_in_nodup(sa, xpi);
            lemma_count_in_nodup(sb, xqi);
            assert(ca * cb + cb * ca == 0 || ca * cb + cb * ca == 2) by (nonlinear_arith)
                requires
                    0 <= ca <= 1,
                    0 <= cb <= 1,
            ;
        } else {
            // A grandchild of any other shape never occurs.
            lemma_gc_of_zero_terms(va, bel, x, va.len() as int);
            lemma_gc_of_zero_terms(vb, bel, x, vb.len() as int);
        }
    }
}

/// The set of the first `n` indices.
pub open spec fn full_below(n: int) -> Set<usize> {
    Set::new(|x: usize| (x as int) < n)
}

/// In a poset with sound incidences where every element has a parent,
/// walking one step down from all of rank `r` reaches all of rank
/// `r − 1`.
pub proof fn lemma_step_down_full(p: Abstract, r: int)
    requires
        p.incidences_ok(),
        p.covering(),
        p.counts_bounded(),
        0 <= r <= p.spec_rank(),
    ensures
        p.step_down(r, full_below(p.count(r))) == full_below(p.count(r - 1)),
{
    assert forall|x: usize| p.step_down(r, full_below(p.count(r))).contains(x) implies full_below(
        p.count(r - 1),
    ).contains(x) by {
        let (i, k): (usize, int) = choose|i: usize, k: int|
            full_below(p.count(r)).contains(i) && 0 <= k < p.subs(r, i as int).len() && p.subs(
                r,
                i as int,
            )[k] == x;
        assert((p.subs(r, i as int)[k] as int) < p.count(r - 1));
    }
    assert forall|x: usize| full_below(p.count(r - 1)).contains(x) implies p.step_down(
        r,
        full_below(p.count(r)),
    ).contains(x) by {
        assert(p.has_parent(r, x as int));
        let (i, k): (int, int) = choose|i: int, k: int|
            0 <= i < p.count(r) && 0 <= k < p.subs(r, i).len() && p.subs(r, i)[k] == x as int;
        assert(0 <= i <= usize::MAX) by {
            assert(p.count(r) <= usize::MAX);
        }
        assert(full_below(p.count(r)).contains(i as usize));
        assert(p.subs(r, (i as usize) as int)[k] == x);
    }
    assert(p.step_down(r, full_below(p.count(r))) =~= full_below(p.count(r - 1)));
}

/// Walking all the way down from all of rank `r` reaches every vertex.
pub proof fn lemma_full_closure(p: Abstract, r: int)
    requires
        p.incidences_ok(),
        p.covering(),
        p.counts_bounded(),
        0 <= r <= p.spec_rank(),
    ensures
        p.vertex_closure(r, full_below(p.count(r))) == full_below(p.count(0)),
    decreases r,
{
    if r == 0 {
    } else {
        lemma_step_down_full(p, r);
        lemma_full_closure(p, r - 1);
    }
}

/// The vertices below the maximal element are all of them: on a sound,
/// covering poset with a single top, the vertex walk from the top
/// element reaches the complete vertex index set.
pub proof fn lemma_max_element_vertices(p: Abstract)
    requires
        p.has_min_max(),
        p.incidences_ok(),
        p.covering(),
        p.counts_bounded(),
        p.spec_rank() >= 0,
    ensures
        p.vertex_closure(p.spec_rank(), Set::<usize>::empty().insert(0)) == full_below(p.count(0)),
{
    let rank = p.spec_rank();
    assert(Set::<usize>::empty().insert(0) =~= full_below(p.count(rank)));
    lemma_full_closure(p, rank);
}

} // verus!
