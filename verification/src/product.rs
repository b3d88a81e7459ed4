use vstd::prelude::*;

use crate::counting::count_in;
use crate::counting::lemma_count_in_concat;
use crate::counting::lemma_count_in_image_hit;
use crate::counting::lemma_count_in_image_miss;
use crate::element::Element;
use crate::element::ElementList;
use crate::poset::Abstract;
use crate::ranked::RankVec;

verus! {

/// The smaller of two integers.
pub open spec fn imin(a: int, b: int) -> int {
    if a <= b {
        a
    } else {
        b
    }
}

/// The lowest factor rank taking part in a product: −1 when the
/// minimal elements are included, 0 otherwise.
pub open spec fn plow(min: bool) -> int {
    if min {
        -1
    } else {
        0
    }
}

/// The highest rank of `p` taking part in a product.
pub open spec fn phigh(p: Abstract, max: bool) -> int {
    p.spec_rank() - if max {
        0int
    } else {
        1int
    }
}

/// A pair of factor ranks `(pr, qr)` lands at product rank
/// `pr + qr + moff(min)`.
pub open spec fn moff(min: bool) -> int {
    if min {
        1
    } else {
        0
    }
}

/// The rank of the product polytope.
pub open spec fn prod_rank_total(p: Abstract, q: Abstract, min: bool, max: bool) -> int {
    p.spec_rank() + q.spec_rank() + 1 - (if min {
        0int
    } else {
        1int
    }) - (if max {
        0int
    } else {
        1int
    })
}

/// How many product elements of rank `pr + qr + moff(min)` arise from
/// pairs whose first rank is at most `pr`: the memoized prefix sums
/// accumulate along the diagonal of constant product rank.
pub open spec fn offset_memo(
    p: Abstract,
    q: Abstract,
    min: bool,
    max: bool,
    pr: int,
    qr: int,
) -> int
    decreases pr - plow(min),
{
    let c = p.count(pr) * q.count(qr);
    if pr <= plow(min) || qr >= qhigh(q, max) {
        c
    } else {
        offset_memo(p, q, min, max, pr - 1, qr + 1) + c
    }
}

/// The highest rank of `q` taking part in a product.
pub open spec fn qhigh(q: Abstract, max: bool) -> int {
    q.spec_rank() - if max {
        0int
    } else {
        1int
    }
}

/// The memoized prefix sum, or zero when `(pr, qr)` falls outside the
/// participating ranks.
pub open spec fn offset(p: Abstract, q: Abstract, min: bool, max: bool, pr: int, qr: int) -> int {
    if plow(min) <= pr <= phigh(p, max) && plow(min) <= qr <= qhigh(q, max) {
        offset_memo(p, q, min, max, pr, qr)
    } else {
        0
    }
}

/// The index, within its product rank, of the element formed from
/// element `pi` of rank `pr` of `p` and element `qi` of rank `qr` of
/// `q`: pairs are ordered first by factor ranks, then lexicographically
/// by factor indices.
pub open spec fn prod_index(
    p: Abstract,
    q: Abstract,
    min: bool,
    max: bool,
    pr: int,
    pi: int,
    qr: int,
    qi: int,
) -> int {
    offset(p, q, min, max, pr - 1, qr + 1) + pi * q.count(qr) + qi
}

/// The subelements of the product element for the pair
/// `((pr, pi), (qr, qi))`: the subelements of the `p` part paired with
/// the unchanged `q` part, then the subelements of the `q` part paired
/// with the unchanged `p` part.  A part that is a minimal element kept
/// out of the product (the flag is off) contributes nothing.
pub open spec fn prod_subs(
    p: Abstract,
    q: Abstract,
    min: bool,
    max: bool,
    pr: int,
    pi: int,
    qr: int,
    qi: int,
) -> Seq<usize> {
    let a = if pr != 0 || min {
        Seq::new(
            p.subs(pr, pi).len(),
            |k: int| prod_index(p, q, min, max, pr - 1, p.subs(pr, pi)[k] as int, qr, qi) as usize,
        )
    } else {
        Seq::<usize>::empty()
    };
    let b = if qr != 0 || min {
        Seq::new(
            q.subs(qr, qi).len(),
            |k: int| prod_index(p, q, min, max, pr, pi, qr - 1, q.subs(qr, qi)[k] as int) as usize,
        )
    } else {
        Seq::<usize>::empty()
    };
    a + b
}

/// How many product elements of rank `rho` arise from pairs whose
/// first rank is at most `pr`.
pub open spec fn count_upto(
    p: Abstract,
    q: Abstract,
    min: bool,
    max: bool,
    rho: int,
    pr: int,
) -> int {
    let lim = rho - moff(min) - plow(min);
    let pr2 = imin(pr, lim);
    offset(p, q, min, max, pr2, rho - moff(min) - pr2)
}

/// The number of product elements of rank `rho` arising from pairs.
pub open spec fn rank_count_raw(p: Abstract, q: Abstract, min: bool, max: bool, rho: int) -> int {
    count_upto(p, q, min, max, rho, phigh(p, max))
}

/// The element count of the product at rank `rho`, with the layers
/// synthesized for an excluded minimal or maximal element in place.
pub open spec fn prod_count(p: Abstract, q: Abstract, min: bool, max: bool, rho: int) -> int {
    let total = prod_rank_total(p, q, min, max);
    if rho < -1 || rho > total {
        0
    } else if !max && rho == total {
        1
    } else if !min && rho == -1 {
        1
    } else if !min && rho == 0 {
        p.count(0) * q.count(0)
    } else {
        rank_count_raw(p, q, min, max, rho)
    }
}

/// Every memoized prefix sum fits a `usize`: the machine-size bound
/// under which the product can be laid out in memory.
pub open spec fn counts_fit(p: Abstract, q: Abstract, min: bool, max: bool) -> bool {
    forall|pr: int, qr: int|
        plow(min) <= pr <= phigh(p, max) && plow(min) <= qr <= qhigh(q, max)
            ==> #[trigger] offset_memo(p, q, min, max, pr, qr) <= usize::MAX
}

/// The element for the pair `((pr, pi), (qr, qi))` sits in `lay` at its
/// product index, with exactly the subelements the product assigns it.
pub open spec fn pair_placed(
    p: Abstract,
    q: Abstract,
    min: bool,
    max: bool,
    lay: Seq<Element>,
    pr: int,
    pi: int,
    qr: int,
    qi: int,
) -> bool {
    let idx = prod_index(p, q, min, max, pr, pi, qr, qi);
    0 <= idx < lay.len() && lay[idx].subs@ == prod_subs(p, q, min, max, pr, pi, qr, qi)
}

/// `r` is the direct product of `p` and `q` under the two flags: its
/// rank, every element count, the subelements of every paired element,
/// and the synthesized bottom, vertex and top layers are all pinned.
pub open spec fn is_product_of(r: Abstract, p: Abstract, q: Abstract, min: bool, max: bool) -> bool {
    &&& r.spec_rank() == prod_rank_total(p, q, min, max)
    &&& r.bounded()
    &&& (forall|rho: int| #[trigger] r.count(rho) == prod_count(p, q, min, max, rho))
    &&& (forall|pr: int, pi: int, qr: int, qi: int|
        plow(min) <= pr <= phigh(p, max) && plow(min) <= qr <= qhigh(q, max) && 0 <= pi < p.count(
            pr,
        ) && 0 <= qi < q.count(qr) && (min || pr + qr + moff(min) != 0) && (max || pr + qr + moff(
            min,
        ) != prod_rank_total(p, q, min, max)) ==> #[trigger] pair_placed(
            p,
            q,
            min,
            max,
            r.layers()[pr + qr + moff(min) + 1].0@,
            pr,
            pi,
            qr,
            qi,
        ))
    &&& (!min ==> r.subs(-1, 0) == Seq::<usize>::empty())
    &&& ((!min && (max || prod_rank_total(p, q, min, max) != 0)) ==> forall|i: int|
        0 <= i < prod_count(p, q, min, max, 0) ==> #[trigger] r.subs(0, i) == seq![0usize])
    &&& (!max ==> r.subs(prod_rank_total(p, q, min, max), 0).len() == prod_count(
        p,
        q,
        min,
        max,
        prod_rank_total(p, q, min, max) - 1,
    ))
    &&& (!max ==> forall|k: int|
        0 <= k < prod_count(p, q, min, max, prod_rank_total(p, q, min, max) - 1)
            ==> #[trigger] r.subs(prod_rank_total(p, q, min, max), 0)[k] == k)
}

/// The inputs on which `Abstract::product` is defined: the factors are
/// sound posets, the ranks admit the chosen flags, and the product fits
/// in memory.
pub open spec fn product_ready(p: Abstract, q: Abstract, min: bool, max: bool) -> bool {
    &&& p.bounded()
    &&& q.bounded()
    &&& p.spec_rank() >= -1
    &&& q.spec_rank() >= -1
    &&& p.incidences_ok()
    &&& q.incidences_ok()
    &&& (!min ==> p.spec_rank() >= 0 && q.spec_rank() >= 0)
    &&& (!max ==> p.spec_rank() + q.spec_rank() >= -1)
    &&& ((!min && !max) ==> p.spec_rank() + q.spec_rank() >= 1)
    &&& counts_fit(p, q, min, max)
    &&& (!min ==> p.count(0) * q.count(0) <= usize::MAX)
    &&& p.layers().len() + q.layers().len() <= isize::MAX as int
}

pub proof fn lemma_offset_memo_nonneg(
    p: Abstract,
    q: Abstract,
    min: bool,
    max: bool,
    pr: int,
    qr: int,
)
    ensures
        offset_memo(p, q, min, max, pr, qr) >= p.count(pr) * q.count(qr) >= 0,
    decreases pr - plow(min),
{
    vstd::arithmetic::mul::lemma_mul_nonnegative(p.count(pr), q.count(qr));
    if !(pr <= plow(min) || qr >= qhigh(q, max)) {
        lemma_offset_memo_nonneg(p, q, min, max, pr - 1, qr + 1);
    }
}

/// Unfolds one memo step: within the participating ranks, the prefix
/// below `(pr, qr)` is exactly the offset at `(pr − 1, qr + 1)`.
pub proof fn lemma_offset_unfold(p: Abstract, q: Abstract, min: bool, max: bool, pr: int, qr: int)
    requires
        plow(min) <= pr <= phigh(p, max),
        plow(min) <= qr <= qhigh(q, max),
    ensures
        offset(p, q, min, max, pr, qr) == offset(p, q, min, max, pr - 1, qr + 1) + p.count(pr)
            * q.count(qr),
{
    if pr <= plow(min) || qr >= qhigh(q, max) {
        assert(offset(p, q, min, max, pr - 1, qr + 1) == 0);
    }
}

/// One step of the running element count at product rank `rho`: moving
/// the bound from `pr − 1` to `pr` adds the pairs `(pr, qr)` when `qr`
/// participates, and nothing otherwise.
pub proof fn lemma_count_upto_step(
    p: Abstract,
    q: Abstract,
    min: bool,
    max: bool,
    rho: int,
    pr: int,
)
    requires
        plow(min) <= pr <= phigh(p, max),
    ensures
        count_upto(p, q, min, max, rho, pr) == count_upto(p, q, min, max, rho, pr - 1) + (if plow(
            min,
        ) <= rho - moff(min) - pr <= qhigh(q, max) {
            p.count(pr) * q.count(rho - moff(min) - pr)
        } else {
            0int
        }),
{
    let low = plow(min);
    let lim = rho - moff(min) - low;
    let qr = rho - moff(min) - pr;
    if qr < low {
        assert(imin(pr, lim) == lim);
        assert(imin(pr - 1, lim) == imin(pr - 1, lim));
        assert(pr - 1 >= lim);
        assert(imin(pr - 1, lim) == lim);
    } else {
        assert(imin(pr, lim) == pr);
        assert(imin(pr - 1, lim) == pr - 1);
        if qr > qhigh(q, max) {
            assert(offset(p, q, min, max, pr, qr) == 0);
            assert(offset(p, q, min, max, pr - 1, qr + 1) == 0);
        } else {
            lemma_offset_unfold(p, q, min, max, pr, qr);
        }
    }
}

/// The running count never shrinks as the rank bound grows.
pub proof fn lemma_count_upto_mono(
    p: Abstract,
    q: Abstract,
    min: bool,
    max: bool,
    rho: int,
    pr1: int,
    pr2: int,
)
    requires
        plow(min) - 1 <= pr1 <= pr2 <= phigh(p, max),
    ensures
        count_upto(p, q, min, max, rho, pr1) <= count_upto(p, q, min, max, rho, pr2),
    decreases pr2 - pr1,
{
    if pr1 < pr2 {
        lemma_count_upto_mono(p, q, min, max, rho, pr1, pr2 - 1);
        lemma_count_upto_step(p, q, min, max, rho, pr2);
        vstd::arithmetic::mul::lemma_mul_nonnegative(p.count(pr2), q.count(rho - moff(min) - pr2));
    }
}

/// The starting value of the running count is zero.
pub proof fn lemma_count_upto_base(p: Abstract, q: Abstract, min: bool, max: bool, rho: int)
    ensures
        count_upto(p, q, min, max, rho, plow(min) - 1) == 0,
{
    let low = plow(min);
    let lim = rho - moff(min) - low;
    let pr2 = imin(low - 1, lim);
    assert(pr2 < low);
}

/// The product index of a pair lies below the running count that
/// includes its rank pair.
pub proof fn lemma_prod_index_bound(
    p: Abstract,
    q: Abstract,
    min: bool,
    max: bool,
    pr: int,
    pi: int,
    qr: int,
    qi: int,
)
    requires
        plow(min) <= pr <= phigh(p, max),
        plow(min) <= qr <= qhigh(q, max),
        0 <= pi < p.count(pr),
        0 <= qi < q.count(qr),
    ensures
        0 <= prod_index(p, q, min, max, pr, pi, qr, qi),
        prod_index(p, q, min, max, pr, pi, qr, qi) + 1 <= count_upto(
            p,
            q,
            min,
            max,
            pr + qr + moff(min),
            pr,
        ),
{
    let rho = pr + qr + moff(min);
    lemma_count_upto_step(p, q, min, max, rho, pr);
    assert(rho - moff(min) - pr == qr);
    assert(count_upto(p, q, min, max, rho, pr) == count_upto(p, q, min, max, rho, pr - 1)
        + p.count(pr) * q.count(qr));
    assert(imin(pr - 1, rho - moff(min) - plow(min)) == pr - 1);
    assert(count_upto(p, q, min, max, rho, pr - 1) == offset(p, q, min, max, pr - 1, qr + 1));
    assert(pi * q.count(qr) + qi + 1 <= p.count(pr) * q.count(qr)) by (nonlinear_arith)
        requires
            0 <= pi < p.count(pr),
            0 <= qi < q.count(qr),
    ;
    vstd::arithmetic::mul::lemma_mul_nonnegative(pi, q.count(qr));
    let off = offset(p, q, min, max, pr - 1, qr + 1);
    assert(off >= 0) by {
        if plow(min) <= pr - 1 && qr + 1 <= qhigh(q, max) {
            lemma_offset_memo_nonneg(p, q, min, max, pr - 1, qr + 1);
        }
    }
}

/// Distinct pairs of one product rank receive distinct indices.
pub proof fn lemma_prod_index_injective(
    p: Abstract,
    q: Abstract,
    min: bool,
    max: bool,
    pr1: int,
    pi1: int,
    qr1: int,
    qi1: int,
    pr2: int,
    pi2: int,
    qr2: int,
    qi2: int,
)
    requires
        plow(min) <= pr1 <= phigh(p, max),
        plow(min) <= qr1 <= qhigh(q, max),
        0 <= pi1 < p.count(pr1),
        0 <= qi1 < q.count(qr1),
        plow(min) <= pr2 <= phigh(p, max),
        plow(min) <= qr2 <= qhigh(q, max),
        0 <= pi2 < p.count(pr2),
        0 <= qi2 < q.count(qr2),
        pr1 + qr1 == pr2 + qr2,
        prod_index(p, q, min, max, pr1, pi1, qr1, qi1) == prod_index(
            p,
            q,
            min,
            max,
            pr2,
            pi2,
            qr2,
            qi2,
        ),
    ensures
        pr1 == pr2,
        pi1 == pi2,
        qr1 == qr2,
        qi1 == qi2,
{
    let rho = pr1 + qr1 + moff(min);
    lemma_prod_index_bound(p, q, min, max, pr1, pi1, qr1, qi1);
    lemma_prod_index_bound(p, q, min, max, pr2, pi2, qr2, qi2);
    if pr1 < pr2 {
        lemma_count_upto_mono(p, q, min, max, rho, pr1, pr2 - 1);
        assert(imin(pr2 - 1, rho - moff(min) - plow(min)) == pr2 - 1);
        assert(count_upto(p, q, min, max, rho, pr2 - 1) == offset(p, q, min, max, pr2 - 1, qr2 + 1));
        vstd::arithmetic::mul::lemma_mul_nonnegative(pi2, q.count(qr2));
        assert(false);
    }
    if pr2 < pr1 {
        lemma_count_upto_mono(p, q, min, max, rho, pr2, pr1 - 1);
        assert(imin(pr1 - 1, rho - moff(min) - plow(min)) == pr1 - 1);
        assert(count_upto(p, q, min, max, rho, pr1 - 1) == offset(p, q, min, max, pr1 - 1, qr1 + 1));
        vstd::arithmetic::mul::lemma_mul_nonnegative(pi1, q.count(qr1));
        assert(false);
    }
    assert(pi1 * q.count(qr1) + qi1 == pi2 * q.count(qr1) + qi2);
    assert(pi1 == pi2 && qi1 == qi2) by (nonlinear_arith)
        requires
            pi1 * q.count(qr1) + qi1 == pi2 * q.count(qr1) + qi2,
            0 <= qi1 < q.count(qr1),
            0 <= qi2 < q.count(qr1),
            pi1 >= 0,
            pi2 >= 0,
    ;
}

/// A min-pairing product's pair index fits the machine's sizes.
pub proof fn lemma_prod_index_fits(
    p: Abstract,
    q: Abstract,
    max: bool,
    pr: int,
    pi: int,
    qr: int,
    qi: int,
)
    requires
        product_ready(p, q, true, max),
        plow(true) <= pr <= phigh(p, max),
        plow(true) <= qr <= qhigh(q, max),
        0 <= pi < p.count(pr),
        0 <= qi < q.count(qr),
    ensures
        0 <= prod_index(p, q, true, max, pr, pi, qr, qi) <= usize::MAX,
{
    lemma_prod_index_bound(p, q, true, max, pr, pi, qr, qi);
    assert(imin(pr, pr + qr + 1 - 1 - plow(true)) == pr);
    assert(count_upto(p, q, true, max, pr + qr + 1, pr) == offset(p, q, true, max, pr, qr));
}

/// How often the index of the pair `((xr, xpi), (xs, xqi))` occurs
/// among the subelements of the pair `((cr, ci), (dr, di))` of a full
/// product: through the `p`-moving part when the target drops the `p`
/// rank and keeps the `q` component, through the `q`-moving part
/// symmetrically, and not at all otherwise.
#[verifier::rlimit(60)]
#[verifier::spinoff_prover]
pub proof fn lemma_pair_subs_count(
    p: Abstract,
    q: Abstract,
    max: bool,
    cr: int,
    ci: int,
    dr: int,
    di: int,
    xr: int,
    xpi: int,
    xs: int,
    xqi: int,
)
    requires
        product_ready(p, q, true, max),
        -1 <= cr <= phigh(p, max),
        0 <= ci < p.count(cr),
        -1 <= dr <= qhigh(q, max),
        0 <= di < q.count(dr),
        -1 <= xr <= phigh(p, max),
        0 <= xpi < p.count(xr),
        -1 <= xs <= qhigh(q, max),
        0 <= xqi < q.count(xs),
        xr + xs == cr + dr - 1,
    ensures
        count_in(
            prod_subs(p, q, true, max, cr, ci, dr, di),
            prod_index(p, q, true, max, xr, xpi, xs, xqi),
        ) == (if xr == cr - 1 && xs == dr && xqi == di {
            count_in(p.subs(cr, ci), xpi)
        } else {
            0int
        }) + (if xr == cr && xs == dr - 1 && xpi == ci {
            count_in(q.subs(dr, di), xqi)
        } else {
            0int
        }),
{
    let x = prod_index(p, q, true, max, xr, xpi, xs, xqi);
    let sa = p.subs(cr, ci);
    let sb = q.subs(dr, di);
    let fa = |s: int| prod_index(p, q, true, max, cr - 1, s, dr, di);
    let fb = |s: int| prod_index(p, q, true, max, cr, ci, dr - 1, s);
    let va = Seq::new(sa.len(), |k: int| fa(sa[k] as int) as usize);
    let vb = Seq::new(sb.len(), |k: int| fb(sb[k] as int) as usize);
    assert(prod_subs(p, q, true, max, cr, ci, dr, di) == va + vb);
    lemma_count_in_concat(va, vb, x);
    let na = p.count(cr - 1);
    let nb = q.count(dr - 1);
    // Every subelement selects a valid pair one rank down, so the two
    // image maps produce genuine, bounded product indices.
    assert forall|k: int| 0 <= k < sa.len() implies (#[trigger] sa[k] as int) < na by {
        assert((p.subs(cr, ci)[k] as int) < p.count(cr - 1));
    }
    assert forall|k: int| 0 <= k < sb.len() implies (#[trigger] sb[k] as int) < nb by {
        assert((q.subs(dr, di)[k] as int) < q.count(dr - 1));
    }
    assert forall|s: int| 0 <= s < na implies 0 <= #[trigger] fa(s) <= usize::MAX by {
        lemma_prod_index_bound(p, q, true, max, cr - 1, s, dr, di);
        assert(imin(cr - 1, cr - 1 + dr + 1 - 1 - plow(true)) == cr - 1);
        assert(count_upto(p, q, true, max, cr - 1 + dr + 1, cr - 1) == offset(
            p,
            q,
            true,
            max,
            cr - 1,
            dr,
        ));
    }
    assert forall|s: int| 0 <= s < nb implies 0 <= #[trigger] fb(s) <= usize::MAX by {
        lemma_prod_index_bound(p, q, true, max, cr, ci, dr - 1, s);
        assert(imin(cr, cr + dr - 1 + 1 - 1 - plow(true)) == cr);
        assert(count_upto(p, q, true, max, cr + dr, cr) == offset(p, q, true, max, cr, dr - 1));
    }
    assert(forall|k: int| 0 <= k < sa.len() ==> (#[trigger] va[k] as int) == fa(sa[k] as int));
    assert(forall|k: int| 0 <= k < sb.len() ==> (#[trigger] vb[k] as int) == fb(sb[k] as int));
    assert forall|s1: int, s2: int|
        0 <= s1 < na && 0 <= s2 < na && #[trigger] fa(s1) == #[trigger] fa(s2) implies s1 == s2 by {
        lemma_prod_index_injective(p, q, true, max, cr - 1, s1, dr, di, cr - 1, s2, dr, di);
    }
    assert forall|s1: int, s2: int|
        0 <= s1 < nb && 0 <= s2 < nb && #[trigger] fb(s1) == #[trigger] fb(s2) implies s1 == s2 by {
        lemma_prod_index_injective(p, q, true, max, cr, ci, dr - 1, s1, cr, ci, dr - 1, s2);
    }
    // The p-moving part.
    if xr == cr - 1 && xs == dr && xqi == di {
        assert(fa(xpi) == x);
        lemma_count_in_image_hit(va, sa, fa, x, xpi, na);
    } else {
        assert forall|s: int| 0 <= s < na implies #[trigger] fa(s) != x by {
            if fa(s) == x {
                lemma_prod_index_injective(p, q, true, max, cr - 1, s, dr, di, xr, xpi, xs, xqi);
            }
        }
        lemma_count_in_image_miss(va, sa, fa, x, na);
    }
    // The q-moving part.
    if xr == cr && xs == dr - 1 && xpi == ci {
        assert(fb(xqi) == x);
        lemma_count_in_image_hit(vb, sb, fb, x, xqi, nb);
    } else {
        assert forall|s: int| 0 <= s < nb implies #[trigger] fb(s) != x by {
            if fb(s) == x {
                lemma_prod_index_injective(p, q, true, max, cr, ci, dr - 1, s, xr, xpi, xs, xqi);
            }
        }
        lemma_count_in_image_miss(vb, sb, fb, x, nb);
    }
}

/// The memoized offsets read the factors only through their element
/// counts.
pub proof fn lemma_offset_memo_counts(
    p: Abstract,
    q1: Abstract,
    q2: Abstract,
    min: bool,
    max: bool,
    pr: int,
    qr: int,
)
    requires
        q1.spec_rank() == q2.spec_rank(),
        forall|r: int| #[trigger] q1.count(r) == q2.count(r),
    ensures
        offset_memo(p, q1, min, max, pr, qr) == offset_memo(p, q2, min, max, pr, qr),
    decreases pr - plow(min),
{
    if !(pr <= plow(min) || qr >= qhigh(q1, max)) {
        lemma_offset_memo_counts(p, q1, q2, min, max, pr - 1, qr + 1);
    }
}

/// Whether `Abstract::product` accepts a pair of factors depends on
/// the second factor only through its incidence model: two posets with
/// the same rank, counts and subelement lists are accepted alike.
pub proof fn lemma_product_ready_congruence(
    p: Abstract,
    q1: Abstract,
    q2: Abstract,
    min: bool,
    max: bool,
)
    requires
        Abstract::same_model(q1, q2),
        Abstract::same_model(q2, q1),
    ensures
        product_ready(p, q1, min, max) == product_ready(p, q2, min, max),
{
    assert(q1.spec_rank() == q2.spec_rank());
    assert forall|r: int| #[trigger] q1.count(r) == q2.count(r) by {
        if -1 <= r <= q1.spec_rank() {
        }
    }
    assert(q1.layers().len() == q2.layers().len());
    assert(q1.incidences_ok() == q2.incidences_ok()) by {
        if q1.incidences_ok() {
            assert forall|r: int, i: int, k: int|
                -1 <= r <= q2.spec_rank() && 0 <= i < q2.count(r) && 0 <= k < q2.subs(r, i).len()
                    implies (#[trigger] q2.subs(r, i)[k] as int) < q2.count(r - 1) by {
                assert(q2.subs(r, i) == q1.subs(r, i));
                assert((q1.subs(r, i)[k] as int) < q1.count(r - 1));
            }
        }
        if q2.incidences_ok() {
            assert forall|r: int, i: int, k: int|
                -1 <= r <= q1.spec_rank() && 0 <= i < q1.count(r) && 0 <= k < q1.subs(r, i).len()
                    implies (#[trigger] q1.subs(r, i)[k] as int) < q1.count(r - 1) by {
                assert(q1.subs(r, i) == q2.subs(r, i));
                assert((q2.subs(r, i)[k] as int) < q2.count(r - 1));
            }
        }
    }
    assert(counts_fit(p, q1, min, max) == counts_fit(p, q2, min, max)) by {
        if counts_fit(p, q1, min, max) {
            assert forall|pr: int, qr: int|
                plow(min) <= pr <= phigh(p, max) && plow(min) <= qr <= qhigh(q2, max)
                    implies #[trigger] offset_memo(p, q2, min, max, pr, qr) <= usize::MAX by {
                lemma_offset_memo_counts(p, q2, q1, min, max, pr, qr);
                assert(offset_memo(p, q1, min, max, pr, qr) <= usize::MAX);
            }
        }
        if counts_fit(p, q2, min, max) {
            assert forall|pr: int, qr: int|
                plow(min) <= pr <= phigh(p, max) && plow(min) <= qr <= qhigh(q1, max)
                    implies #[trigger] offset_memo(p, q1, min, max, pr, qr) <= usize::MAX by {
                lemma_offset_memo_counts(p, q1, q2, min, max, pr, qr);
                assert(offset_memo(p, q2, min, max, pr, qr) <= usize::MAX);
            }
        }
    }
}

/// A pair of factor elements lands at the given index of its product
/// rank.
pub open spec fn some_pair_at(
    p: Abstract,
    q: Abstract,
    min: bool,
    max: bool,
    rho: int,
    j: int,
) -> bool {
    exists|pr: int, pi: int, qr: int, qi: int|
        {
            &&& plow(min) <= pr <= phigh(p, max)
            &&& plow(min) <= qr <= qhigh(q, max)
            &&& 0 <= pi < p.count(pr)
            &&& 0 <= qi < q.count(qr)
            &&& pr + qr + moff(min) == rho
            &&& #[trigger] prod_index(p, q, min, max, pr, pi, qr, qi) == j
        }
}

/// Every position below the pair count of a product rank is the index
/// of some pair: the pair blocks tile the rank without gaps.
#[verifier::rlimit(100)]
#[verifier::spinoff_prover]
pub proof fn lemma_prod_index_inverse(
    p: Abstract,
    q: Abstract,
    min: bool,
    max: bool,
    rho: int,
    j: int,
    pr: int,
)
    requires
        plow(min) - 1 <= pr <= phigh(p, max),
        0 <= j < count_upto(p, q, min, max, rho, pr),
    ensures
        some_pair_at(p, q, min, max, rho, j),
    decreases pr - plow(min) + 1,
{
    lemma_count_upto_base(p, q, min, max, rho);
    if pr >= plow(min) {
        lemma_count_upto_step(p, q, min, max, rho, pr);
        let qr = rho - moff(min) - pr;
        let base = count_upto(p, q, min, max, rho, pr - 1);
        if j < base {
            lemma_prod_index_inverse(p, q, min, max, rho, j, pr - 1);
        } else {
            assert(plow(min) <= qr <= qhigh(q, max));
            let cq = q.count(qr);
            let rest = j - base;
            assert(0 <= rest < p.count(pr) * cq);
            vstd::arithmetic::mul::lemma_mul_nonnegative(p.count(pr), cq);
            assert(cq > 0) by {
                if cq <= 0 {
                    assert(p.count(pr) * cq <= 0) by (nonlinear_arith)
                        requires
                            cq <= 0,
                            p.count(pr) >= 0,
                    ;
                }
            }
            let pi = rest / cq;
            let qi = rest % cq;
            vstd::arithmetic::div_mod::lemma_fundamental_div_mod(rest, cq);
            vstd::arithmetic::div_mod::lemma_mod_bound(rest, cq);
            vstd::arithmetic::div_mod::lemma_div_pos_is_pos(rest, cq);
            vstd::arithmetic::mul::lemma_mul_is_commutative(cq, pi);
            assert(rest == pi * cq + qi);
            assert(pi >= 0);
            assert(0 <= qi < cq);
            assert(pi < p.count(pr)) by (nonlinear_arith)
                requires
                    rest == pi * cq + qi,
                    0 <= qi < cq,
                    rest < p.count(pr) * cq,
                    pi >= 0,
            ;
            assert(imin(pr - 1, rho - moff(min) - plow(min)) == pr - 1);
            assert(base == offset(p, q, min, max, pr - 1, qr + 1));
            assert(prod_index(p, q, min, max, pr, pi, qr, qi) == j);
        }
    }
}

/// Reads the memoized offset table at `(pr, qr)`, or zero outside the
/// participating ranks.
fn offset_lookup(
    memo: &Vec<Vec<usize>>,
    Ghost(p): Ghost<Abstract>,
    Ghost(q): Ghost<Abstract>,
    min: bool,
    max: bool,
    low: isize,
    hi_p: isize,
    hi_q: isize,
    pr: isize,
    qr: isize,
) -> (v: usize)
    requires
        low == plow(min),
        hi_p == phigh(p, max),
        hi_q == qhigh(q, max),
        hi_p < isize::MAX,
        hi_q < isize::MAX,
        memo@.len() == if hi_p >= low {
            hi_p - low + 1
        } else {
            0
        },
        forall|a: int| 0 <= a < memo@.len() ==> (#[trigger] memo@[a])@.len() == if hi_q >= low {
            hi_q - low + 1
        } else {
            0
        },
        forall|a: int, b: int|
            0 <= a < memo@.len() && 0 <= b < memo@[a]@.len() ==> (#[trigger] memo@[a]@[b]) as int
                == offset_memo(p, q, min, max, low + a, low + b),
    ensures
        v == offset(p, q, min, max, pr as int, qr as int),
{
    if pr < low || pr > hi_p || qr < low || qr > hi_q {
        0
    } else {
        memo[(pr - low) as usize][(qr - low) as usize]
    }
}

impl Abstract {
    /// The direct product of two polytopes.  With `min` off the
    /// factors' minimal elements stay out of the pairing and a minimal
    /// element and a fresh vertex layer are synthesized; `max` works the
    /// same way at the top.  Product elements of one rank are ordered
    /// first by the rank of their `p` part, then lexicographically by
    /// the factor indices.
    pub fn product(p: &Abstract, q: &Abstract, min: bool, max: bool) -> (r: Abstract)
        requires
            product_ready(*p, *q, min, max),
        ensures
            is_product_of(r, *p, *q, min, max),
    {
        Abstract::product_core(p, q, min, max)
    }

    #[verifier::loop_isolation(false)]
    #[verifier::rlimit(100)]
    fn product_core(p: &Abstract, q: &Abstract, min: bool, max: bool) -> (r: Abstract)
        requires
            product_ready(*p, *q, min, max),
        ensures
            r.spec_rank() == prod_rank_total(*p, *q, min, max),
            r.bounded(),
            forall|rho: int| #[trigger] r.count(rho) == prod_count(*p, *q, min, max, rho),
            forall|pr: int, pi: int, qr: int, qi: int|
                plow(min) <= pr <= phigh(*p, max) && plow(min) <= qr <= qhigh(*q, max) && 0 <= pi
                    < p.count(pr) && 0 <= qi < q.count(qr) && (min || pr + qr + moff(min) != 0) && (
                max || pr + qr + moff(min) != prod_rank_total(*p, *q, min, max))
                    ==> #[trigger] pair_placed(
                    *p,
                    *q,
                    min,
                    max,
                    r.layers()[pr + qr + moff(min) + 1].0@,
                    pr,
                    pi,
                    qr,
                    qi,
                ),
            !min ==> r.subs(-1, 0) == Seq::<usize>::empty(),
            (!min && (max || prod_rank_total(*p, *q, min, max) != 0)) ==> forall|i: int|
                0 <= i < prod_count(*p, *q, min, max, 0) ==> #[trigger] r.subs(0, i)
                    == seq![0usize],
            !max ==> r.subs(prod_rank_total(*p, *q, min, max), 0).len() == prod_count(
                *p,
                *q,
                min,
                max,
                prod_rank_total(*p, *q, min, max) - 1,
            ),
            !max ==> forall|k: int|
                0 <= k < prod_count(*p, *q, min, max, prod_rank_total(*p, *q, min, max) - 1)
                    ==> #[trigger] r.subs(prod_rank_total(*p, *q, min, max), 0)[k] == k,
    {
        let ghost gp = *p;
        let ghost gq = *q;
        let p_rank = p.rank();
        let q_rank = q.rank();
        let mb_min: isize = if min {
            0
        } else {
            1
        };
        let mb_max: isize = if max {
            0
        } else {
            1
        };
        let rank: isize = p_rank + q_rank + 1 - mb_min - mb_max;
        assert(rank == prod_rank_total(gp, gq, min, max));
        assert(rank >= -1);
        let low: isize = if min {
            -1
        } else {
            0
        };
        let hi_p: isize = p_rank - mb_max;
        let hi_q: isize = q_rank - mb_max;
        let pa: usize = if hi_p >= low {
            (hi_p - low + 1) as usize
        } else {
            0
        };
        let qa: usize = if hi_q >= low {
            (hi_q - low + 1) as usize
        } else {
            0
        };
        // The offset table, indexed by the two participating ranks
        // rebased to zero.
        let memo = build_offset_memo(p, q, min, max, low, hi_p, hi_q, pa, qa);
        // The element layers, one product rank at a time.
        let total_layers: usize = (rank + 2) as usize;
        let mut layers: Vec<ElementList> = Vec::new();
        for l in 0..total_layers
            invariant
                layers@.len() == l,
                forall|l2: int|
                    0 <= l2 < l ==> (#[trigger] layers@[l2]).0@.len() == rank_count_raw(
                        gp,
                        gq,
                        min,
                        max,
                        l2 - 1,
                    ),
                forall|pr: int, pi: int, qr: int, qi: int|
                    plow(min) <= pr <= phigh(gp, max) && plow(min) <= qr <= qhigh(gq, max) && 0
                        <= pi < gp.count(pr) && 0 <= qi < gq.count(qr) && pr + qr + moff(min) + 1
                        < l ==> #[trigger] pair_placed(
                        gp,
                        gq,
                        min,
                        max,
                        layers@[pr + qr + moff(min) + 1].0@,
                        pr,
                        pi,
                        qr,
                        qi,
                    ),
        {
            let rho_e: isize = (l as isize) - 1;
            let cur = build_rank_layer(&memo, p, q, min, max, low, hi_p, hi_q, pa, rho_e);
            layers.push(ElementList(cur));
        }
        // Synthesizes the layers that the flags kept out of the pairing.
        if !min {
            let vc = p.el_count(0) * q.el_count(0);
            layers.set(0, ElementList::min());
            layers.set(1, ElementList::vertices(vc));
        }
        if !max {
            let fc: usize = if total_layers >= 2 {
                layers[total_layers - 2].0.len()
            } else {
                0
            };
            proof {
                assert(fc == prod_count(gp, gq, min, max, rank as int - 1));
            }
            layers.set(total_layers - 1, ElementList::max(fc));
        }
        let r = Abstract(RankVec(layers));
        proof {
            assert forall|rho: int| #[trigger] r.count(rho) == prod_count(gp, gq, min, max, rho) by {
                if -1 <= rho <= rank as int {
                    assert(r.count(rho) == r.layers()[rho + 1].0@.len());
                }
            }
            assert forall|pr: int, pi: int, qr: int, qi: int|
                plow(min) <= pr <= phigh(gp, max) && plow(min) <= qr <= qhigh(gq, max) && 0 <= pi
                    < gp.count(pr) && 0 <= qi < gq.count(qr) && (min || pr + qr + moff(min) != 0)
                    && (max || pr + qr + moff(min) != prod_rank_total(gp, gq, min, max))
                    implies #[trigger] pair_placed(
                gp,
                gq,
                min,
                max,
                r.layers()[pr + qr + moff(min) + 1].0@,
                pr,
                pi,
                qr,
                qi,
            ) by {
                let rho2 = pr + qr + moff(min);
                assert(0 <= rho2 + 1 < total_layers);
                if !min {
                    assert(rho2 >= 0);
                    assert(rho2 != 0);
                }
            }
        }
        r
    }
}

/// Builds the offset table: entry `(a, b)` holds the memoized prefix
/// sum for the participating rank pair `(low + a, low + b)`.
#[verifier::loop_isolation(false)]
fn build_offset_memo(
    p: &Abstract,
    q: &Abstract,
    min: bool,
    max: bool,
    low: isize,
    hi_p: isize,
    hi_q: isize,
    pa: usize,
    qa: usize,
) -> (memo: Vec<Vec<usize>>)
    requires
        p.bounded(),
        q.bounded(),
        counts_fit(*p, *q, min, max),
        low == plow(min),
        hi_p == phigh(*p, max),
        hi_q == qhigh(*q, max),
        hi_p < isize::MAX,
        hi_q < isize::MAX,
        pa == if hi_p >= low {
            hi_p - low + 1
        } else {
            0
        },
        qa == if hi_q >= low {
            hi_q - low + 1
        } else {
            0
        },
    ensures
        memo@.len() == pa,
        forall|a: int| 0 <= a < memo@.len() ==> (#[trigger] memo@[a])@.len() == qa,
        forall|a: int, b: int|
            0 <= a < memo@.len() && 0 <= b < memo@[a]@.len() ==> (#[trigger] memo@[a]@[b]) as int
                == offset_memo(*p, *q, min, max, low + a, low + b),
{
    let ghost gp = *p;
    let ghost gq = *q;
    let mut memo: Vec<Vec<usize>> = Vec::new();
    for a in 0..pa
        invariant
            memo@.len() == a,
            forall|a2: int| 0 <= a2 < a ==> (#[trigger] memo@[a2])@.len() == qa,
            forall|a2: int, b: int|
                0 <= a2 < a && 0 <= b < qa ==> (#[trigger] memo@[a2]@[b]) as int == offset_memo(
                    gp,
                    gq,
                    min,
                    max,
                    low + a2,
                    low + b,
                ),
    {
        let mut row: Vec<usize> = Vec::new();
        for b in 0..qa
            invariant
                memo@.len() == a,
                a < pa,
                forall|a2: int| 0 <= a2 < a ==> (#[trigger] memo@[a2])@.len() == qa,
                forall|a2: int, b2: int|
                    0 <= a2 < a && 0 <= b2 < qa ==> (#[trigger] memo@[a2]@[b2]) as int
                        == offset_memo(gp, gq, min, max, low + a2, low + b2),
                row@.len() == b,
                forall|b2: int|
                    0 <= b2 < b ==> (#[trigger] row@[b2]) as int == offset_memo(
                        gp,
                        gq,
                        min,
                        max,
                        low + a as int,
                        low + b2,
                    ),
        {
            let pr: isize = low + (a as isize);
            let qr: isize = low + (b as isize);
            let cp = p.el_count(pr);
            let cq = q.el_count(qr);
            proof {
                lemma_offset_memo_nonneg(gp, gq, min, max, pr as int, qr as int);
                assert(offset_memo(gp, gq, min, max, pr as int, qr as int) <= usize::MAX);
                if !(pr as int <= plow(min) || qr as int >= qhigh(gq, max)) {
                    lemma_offset_memo_nonneg(gp, gq, min, max, pr as int - 1, qr as int + 1);
                }
            }
            let c: usize = cp * cq;
            let v: usize = if a == 0 || b == qa - 1 {
                c
            } else {
                memo[a - 1][b + 1] + c
            };
            row.push(v);
        }
        memo.push(row);
    }
    memo
}

/// Builds the layer of product elements at rank `rho_e`, in order of
/// the rank of their `p` part, then of the pair of factor indices.
#[verifier::loop_isolation(false)]
#[verifier::rlimit(60)]
fn build_rank_layer(
    memo: &Vec<Vec<usize>>,
    p: &Abstract,
    q: &Abstract,
    min: bool,
    max: bool,
    low: isize,
    hi_p: isize,
    hi_q: isize,
    pa: usize,
    rho_e: isize,
) -> (cur: Vec<Element>)
    requires
        p.bounded(),
        q.bounded(),
        p.incidences_ok(),
        q.incidences_ok(),
        counts_fit(*p, *q, min, max),
        low == plow(min),
        hi_p == phigh(*p, max),
        hi_q == qhigh(*q, max),
        hi_p < isize::MAX,
        hi_q < isize::MAX,
        -1 <= rho_e as int,
        rho_e as int <= prod_rank_total(*p, *q, min, max),
        p.layers().len() + q.layers().len() <= isize::MAX as int,
        p.spec_rank() >= -1,
        q.spec_rank() >= -1,
        pa == if hi_p >= low {
            hi_p - low + 1
        } else {
            0
        },
        memo@.len() == pa,
        forall|a: int| 0 <= a < memo@.len() ==> (#[trigger] memo@[a])@.len() == if hi_q >= low {
            hi_q - low + 1
        } else {
            0
        },
        forall|a: int, b: int|
            0 <= a < memo@.len() && 0 <= b < memo@[a]@.len() ==> (#[trigger] memo@[a]@[b]) as int
                == offset_memo(*p, *q, min, max, low + a, low + b),
    ensures
        cur@.len() == rank_count_raw(*p, *q, min, max, rho_e as int),
        forall|pr: int, pi: int, qr: int, qi: int|
            plow(min) <= pr <= phigh(*p, max) && plow(min) <= qr <= qhigh(*q, max) && 0 <= pi
                < p.count(pr) && 0 <= qi < q.count(qr) && pr + qr + moff(min) == rho_e as int
                ==> #[trigger] pair_placed(*p, *q, min, max, cur@, pr, pi, qr, qi),
{
    let ghost gp = *p;
    let ghost gq = *q;
    let ghost rho = rho_e as int;
    let mut cur: Vec<Element> = Vec::new();
    proof {
        lemma_count_upto_base(gp, gq, min, max, rho);
    }
    for a in 0..pa
        invariant
            cur@.len() == count_upto(gp, gq, min, max, rho, low + a as int - 1),
            forall|pr: int, pi: int, qr: int, qi: int|
                plow(min) <= pr <= phigh(gp, max) && plow(min) <= qr <= qhigh(gq, max) && 0 <= pi
                    < gp.count(pr) && 0 <= qi < gq.count(qr) && pr + qr + moff(min) == rho && pr
                    < low + a as int ==> #[trigger] pair_placed(gp, gq, min, max, cur@, pr, pi, qr, qi),
    {
        let pr: isize = low + (a as isize);
        let qr: isize = rho_e - pr - mb_min_off(min);
        assert(qr as int == rho - moff(min) - pr as int);
        if qr >= low && qr <= hi_q {
            let cp = p.el_count(pr);
            let cq = q.el_count(qr);
            let ghost base = count_upto(gp, gq, min, max, rho, pr as int - 1);
            proof {
                assert(imin(pr as int - 1, rho - moff(min) - plow(min)) == pr as int - 1);
                assert(base == offset(gp, gq, min, max, pr as int - 1, qr as int + 1));
                assert(cur@.len() == count_upto(gp, gq, min, max, rho, low + a as int - 1));
                assert(pr as int == low + a as int);
                assert(cur@.len() == base);
                assert(cur@.len() == base + 0int * (cq as int));
            }
            for pi in 0..cp
                invariant
                    a < pa,
                    pr == low + a as int,
                    qr as int == rho - moff(min) - pr as int,
                    plow(min) <= qr as int <= qhigh(gq, max),
                    cp == gp.count(pr as int),
                    cq == gq.count(qr as int),
                    base == offset(gp, gq, min, max, pr as int - 1, qr as int + 1),
                    base == count_upto(gp, gq, min, max, rho, pr as int - 1),
                    cur@.len() == base + pi as int * cq as int,
                    forall|pr2: int, pi2: int, qr2: int, qi2: int|
                        plow(min) <= pr2 <= phigh(gp, max) && plow(min) <= qr2 <= qhigh(gq, max)
                            && 0 <= pi2 < gp.count(pr2) && 0 <= qi2 < gq.count(qr2) && pr2 + qr2
                            + moff(min) == rho && (pr2 < pr as int || (pr2 == pr as int && pi2
                            < pi as int)) ==> #[trigger] pair_placed(
                            gp,
                            gq,
                            min,
                            max,
                            cur@,
                            pr2,
                            pi2,
                            qr2,
                            qi2,
                        ),
            {
                proof {
                    vstd::arithmetic::mul::lemma_mul_is_distributive_add_other_way(
                        cq as int,
                        pi as int,
                        1,
                    );
                }
                for qi in 0..cq
                    invariant
                        a < pa,
                        pr == low + a as int,
                        qr as int == rho - moff(min) - pr as int,
                        plow(min) <= qr as int <= qhigh(gq, max),
                        cp == gp.count(pr as int),
                        cq == gq.count(qr as int),
                        pi < cp,
                        base == offset(gp, gq, min, max, pr as int - 1, qr as int + 1),
                        base == count_upto(gp, gq, min, max, rho, pr as int - 1),
                        cur@.len() == base + pi as int * cq as int + qi as int,
                        forall|pr2: int, pi2: int, qr2: int, qi2: int|
                            plow(min) <= pr2 <= phigh(gp, max) && plow(min) <= qr2 <= qhigh(
                                gq,
                                max,
                            ) && 0 <= pi2 < gp.count(pr2) && 0 <= qi2 < gq.count(qr2) && pr2 + qr2
                                + moff(min) == rho && (pr2 < pr as int || (pr2 == pr as int && (pi2
                                < pi as int || (pi2 == pi as int && qi2 < qi as int))))
                                ==> #[trigger] pair_placed(gp, gq, min, max, cur@, pr2, pi2, qr2, qi2),
                {
                    let subs = build_pair_subs(memo, p, q, min, max, low, hi_p, hi_q, pr, pi, qr, qi);
                    proof {
                        lemma_prod_index_bound(
                            gp,
                            gq,
                            min,
                            max,
                            pr as int,
                            pi as int,
                            qr as int,
                            qi as int,
                        );
                        assert(prod_index(gp, gq, min, max, pr as int, pi as int, qr as int, qi as int)
                            == cur@.len());
                    }
                    let ghost cur_before = cur@;
                    cur.push(Element { subs });
                    proof {
                        assert(pair_placed(gp, gq, min, max, cur@, pr as int, pi as int, qr as int, qi as int));
                        assert forall|pr2: int, pi2: int, qr2: int, qi2: int|
                            plow(min) <= pr2 <= phigh(gp, max) && plow(min) <= qr2 <= qhigh(
                                gq,
                                max,
                            ) && 0 <= pi2 < gp.count(pr2) && 0 <= qi2 < gq.count(qr2) && pr2 + qr2
                                + moff(min) == rho && (pr2 < pr as int || (pr2 == pr as int && (pi2
                                < pi as int || (pi2 == pi as int && qi2 < qi as int + 1))))
                                implies #[trigger] pair_placed(gp, gq, min, max, cur@, pr2, pi2, qr2, qi2) by {
                            if pr2 == pr as int && pi2 == pi as int && qi2 == qi as int {
                            } else {
                                assert(pair_placed(gp, gq, min, max, cur_before, pr2, pi2, qr2, qi2));
                                let idx = prod_index(gp, gq, min, max, pr2, pi2, qr2, qi2);
                                assert(cur@[idx] == cur_before[idx]);
                            }
                        }
                    }
                }
            }
            proof {
                lemma_count_upto_step(gp, gq, min, max, rho, pr as int);
                vstd::arithmetic::mul::lemma_mul_nonnegative(cp as int, cq as int);
            }
        } else {
            proof {
                lemma_count_upto_step(gp, gq, min, max, rho, pr as int);
            }
        }
    }
    proof {
        if pa == 0 {
            lemma_count_upto_base(gp, gq, min, max, rho);
            if plow(min) - 1 <= phigh(gp, max) {
                lemma_count_upto_mono(gp, gq, min, max, rho, plow(min) - 1, phigh(gp, max));
            }
            assert(cur@.len() == rank_count_raw(gp, gq, min, max, rho));
        } else {
            assert(low + pa as int - 1 == phigh(gp, max));
            assert(cur@.len() == rank_count_raw(gp, gq, min, max, rho));
        }
    }
    cur
}

/// The index a pair receives within its product rank: the offset of its
/// rank pair plus its lexicographic position in the index grid.
#[verifier::loop_isolation(false)]
fn pair_index(
    memo: &Vec<Vec<usize>>,
    Ghost(p): Ghost<Abstract>,
    q: &Abstract,
    min: bool,
    max: bool,
    low: isize,
    hi_p: isize,
    hi_q: isize,
    pr: isize,
    pi: usize,
    qr: isize,
    qi: usize,
) -> (v: usize)
    requires
        q.bounded(),
        counts_fit(p, *q, min, max),
        low == plow(min),
        hi_p == phigh(p, max),
        hi_q == qhigh(*q, max),
        hi_p < isize::MAX,
        hi_q < isize::MAX,
        low <= pr as int <= hi_p as int,
        low <= qr as int <= hi_q as int,
        0 <= pi < p.count(pr as int),
        0 <= qi < q.count(qr as int),
        memo@.len() == if hi_p >= low {
            hi_p - low + 1
        } else {
            0
        },
        forall|a: int| 0 <= a < memo@.len() ==> (#[trigger] memo@[a])@.len() == if hi_q >= low {
            hi_q - low + 1
        } else {
            0
        },
        forall|a: int, b: int|
            0 <= a < memo@.len() && 0 <= b < memo@[a]@.len() ==> (#[trigger] memo@[a]@[b]) as int
                == offset_memo(p, *q, min, max, low + a, low + b),
    ensures
        v as int == prod_index(p, *q, min, max, pr as int, pi as int, qr as int, qi as int),
{
    let off = offset_lookup(memo, Ghost(p), Ghost(*q), min, max, low, hi_p, hi_q, pr - 1, qr + 1);
    proof {
        lemma_prod_index_bound(p, *q, min, max, pr as int, pi as int, qr as int, qi as int);
        let rho = pr as int + qr as int + moff(min);
        assert(imin(pr as int, rho - moff(min) - plow(min)) == pr as int);
        assert(count_upto(p, *q, min, max, rho, pr as int) == offset(
            p,
            *q,
            min,
            max,
            pr as int,
            qr as int,
        ));
        assert(offset_memo(p, *q, min, max, pr as int, qr as int) <= usize::MAX);
        vstd::arithmetic::mul::lemma_mul_nonnegative(pi as int, q.count(qr as int));
    }
    off + pi * q.el_count(qr) + qi
}

/// Builds the subelement list of the product element for the pair
/// `((pr, pi), (qr, qi))`.
#[verifier::loop_isolation(false)]
fn build_pair_subs(
    memo: &Vec<Vec<usize>>,
    p: &Abstract,
    q: &Abstract,
    min: bool,
    max: bool,
    low: isize,
    hi_p: isize,
    hi_q: isize,
    pr: isize,
    pi: usize,
    qr: isize,
    qi: usize,
) -> (subs: Vec<usize>)
    requires
        p.bounded(),
        q.bounded(),
        p.incidences_ok(),
        q.incidences_ok(),
        counts_fit(*p, *q, min, max),
        low == plow(min),
        hi_p == phigh(*p, max),
        hi_q == qhigh(*q, max),
        hi_p < isize::MAX,
        hi_q < isize::MAX,
        low <= pr as int <= hi_p as int,
        low <= qr as int <= hi_q as int,
        0 <= pi < p.count(pr as int),
        0 <= qi < q.count(qr as int),
        memo@.len() == if hi_p >= low {
            hi_p - low + 1
        } else {
            0
        },
        forall|a: int| 0 <= a < memo@.len() ==> (#[trigger] memo@[a])@.len() == if hi_q >= low {
            hi_q - low + 1
        } else {
            0
        },
        forall|a: int, b: int|
            0 <= a < memo@.len() && 0 <= b < memo@[a]@.len() ==> (#[trigger] memo@[a]@[b]) as int
                == offset_memo(*p, *q, min, max, low + a, low + b),
    ensures
        subs@ == prod_subs(*p, *q, min, max, pr as int, pi as int, qr as int, qi as int),
{
    let ghost gp = *p;
    let ghost gq = *q;
    let ghost psubs = p.subs(pr as int, pi as int);
    let ghost qsubs = q.subs(qr as int, qi as int);
    let mut subs: Vec<usize> = Vec::new();
    if pr != 0 || min {
        let m = p.0.0[(pr + 1) as usize].0[pi].subs.len();
        assert(m == psubs.len());
        for k in 0..m
            invariant
                subs@.len() == k,
                forall|k2: int|
                    0 <= k2 < k ==> (#[trigger] subs@[k2]) as int == prod_index(
                        gp,
                        gq,
                        min,
                        max,
                        pr as int - 1,
                        psubs[k2] as int,
                        qr as int,
                        qi as int,
                    ),
        {
            let s = p.0.0[(pr + 1) as usize].0[pi].subs[k];
            assert((s as int) < p.count(pr as int - 1)) by {
                assert(p.subs(pr as int, pi as int)[k as int] == s);
            }
            proof {
                if pr as int - 1 < plow(min) {
                    assert(p.count(pr as int - 1) == 0);
                }
            }
            let idx = pair_index(
                memo,
                Ghost(gp),
                q,
                min,
                max,
                low,
                hi_p,
                hi_q,
                pr - 1,
                s,
                qr,
                qi,
            );
            subs.push(idx);
        }
    }
    let ghost alen = subs@.len() as int;
    if qr != 0 || min {
        let w = q.0.0[(qr + 1) as usize].0[qi].subs.len();
        assert(w == qsubs.len());
        for k in 0..w
            invariant
                subs@.len() == alen + k,
                forall|k2: int|
                    0 <= k2 < alen ==> (#[trigger] subs@[k2]) as int == prod_index(
                        gp,
                        gq,
                        min,
                        max,
                        pr as int - 1,
                        psubs[k2] as int,
                        qr as int,
                        qi as int,
                    ),
                forall|k2: int|
                    0 <= k2 < k ==> (#[trigger] subs@[alen + k2]) as int == prod_index(
                        gp,
                        gq,
                        min,
                        max,
                        pr as int,
                        pi as int,
                        qr as int - 1,
                        qsubs[k2] as int,
                    ),
        {
            let s = q.0.0[(qr + 1) as usize].0[qi].subs[k];
            assert((s as int) < q.count(qr as int - 1)) by {
                assert(q.subs(qr as int, qi as int)[k as int] == s);
            }
            proof {
                if qr as int - 1 < plow(min) {
                    assert(q.count(qr as int - 1) == 0);
                }
            }
            let idx = pair_index(
                memo,
                Ghost(gp),
                q,
                min,
                max,
                low,
                hi_p,
                hi_q,
                pr,
                pi,
                qr - 1,
                s,
            );
            subs.push(idx);
        }
    }
    proof {
        let want = prod_subs(gp, gq, min, max, pr as int, pi as int, qr as int, qi as int);
        assert(want.len() == subs@.len());
        assert forall|k: int| 0 <= k < subs@.len() implies subs@[k] == want[k] by {
            if k < alen {
                assert(subs@[k] as int == prod_index(
                    gp,
                    gq,
                    min,
                    max,
                    pr as int - 1,
                    psubs[k] as int,
                    qr as int,
                    qi as int,
                ));
            } else {
                assert(subs@[alen + (k - alen)] as int == prod_index(
                    gp,
                    gq,
                    min,
                    max,
                    pr as int,
                    pi as int,
                    qr as int - 1,
                    qsubs[k - alen] as int,
                ));
            }
        }
        assert(subs@ =~= want);
    }
    subs
}

/// The flag offset as a machine integer.
fn mb_min_off(min: bool) -> (v: isize)
    ensures
        v as int == moff(min),
{
    if min {
        1
    } else {
        0
    }
}

} // verus!
