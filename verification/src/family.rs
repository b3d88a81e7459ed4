use vstd::prelude::*;

use crate::poset::Abstract;
use crate::product::counts_fit;
use crate::product::imin;
use crate::product::is_product_of;
use crate::product::lemma_offset_memo_nonneg;
use crate::product::offset_memo;
use crate::product::phigh;
use crate::product::plow;
use crate::product::lemma_product_ready_congruence;
use crate::product::product_ready;
use crate::product::qhigh;

verus! {

/// The four binary product families, told apart by whether the
/// factors' minimal and maximal elements take part in the pairing.
#[derive(Debug, Clone, Copy, PartialEq, Eq)]
pub enum ProductKind {
    Pyramid,
    Prism,
    Tegum,
    Comb,
}

impl ProductKind {
    /// Whether this product pairs the factors' minimal elements.
    pub open spec fn spec_min(self) -> bool {
        self is Pyramid || self is Tegum
    }

    /// Whether this product pairs the factors' maximal elements.
    pub open spec fn spec_max(self) -> bool {
        self is Pyramid || self is Prism
    }

    /// The two flags of this product family.
    pub fn flags(&self) -> (f: (bool, bool))
        ensures
            f.0 == self.spec_min(),
            f.1 == self.spec_max(),
    {
        match self {
            ProductKind::Pyramid => (true, true),
            ProductKind::Prism => (false, true),
            ProductKind::Tegum => (true, false),
            ProductKind::Comb => (false, false),
        }
    }
}

/// The poset is the nullitope: one minimal element and nothing else.
pub open spec fn is_nullitope_model(m: Abstract) -> bool {
    m.spec_rank() == -1 && m.count(-1) == 1 && m.subs(-1, 0) == Seq::<usize>::empty()
}

/// The poset is the point: one minimal element under one vertex.
pub open spec fn is_point_model(m: Abstract) -> bool {
    m.spec_rank() == 0 && m.count(-1) == 1 && m.count(0) == 1 && m.subs(-1, 0) == Seq::<
        usize,
    >::empty() && m.subs(0, 0) == seq![0usize]
}

/// The poset is the dyad: two vertices under one edge.
pub open spec fn is_dyad_model(m: Abstract) -> bool {
    m.spec_rank() == 1 && m.count(-1) == 1 && m.count(0) == 2 && m.count(1) == 1 && m.subs(
        -1,
        0,
    ) == Seq::<usize>::empty() && m.subs(0, 0) == seq![0usize] && m.subs(0, 1) == seq![0usize]
        && m.subs(1, 0) == seq![0usize, 1usize]
}

/// The identity element of a product family: the nullitope for the
/// pyramid product, the point for the other three.
pub open spec fn kind_identity_model(kind: ProductKind, m: Abstract) -> bool {
    if kind is Pyramid {
        is_nullitope_model(m)
    } else {
        is_point_model(m)
    }
}

/// The chain `chain` witnesses that `m` is the right fold of the
/// binary product of `kind` over `factors`: it starts, on the right,
/// at the last factor and takes one product per remaining factor.
pub open spec fn chain_witnesses(
    kind: ProductKind,
    factors: Seq<Abstract>,
    m: Abstract,
    chain: Seq<Abstract>,
) -> bool {
    &&& chain.len() == factors.len()
    &&& factors.len() >= 1
    &&& Abstract::same_model(factors[factors.len() - 1], chain[factors.len() - 1])
    &&& Abstract::same_model(chain[factors.len() - 1], factors[factors.len() - 1])
    &&& (forall|j: int|
        0 <= j < factors.len() - 1 ==> #[trigger] is_product_of(
            chain[j],
            factors[j],
            chain[j + 1],
            kind.spec_min(),
            kind.spec_max(),
        ))
    &&& m == chain[0]
}

/// `m` is the right fold of the binary product of `kind` over
/// `factors`.
pub open spec fn fold_of(kind: ProductKind, factors: Seq<Abstract>, m: Abstract) -> bool {
    exists|chain: Seq<Abstract>| #[trigger] chain_witnesses(kind, factors, m, chain)
}

/// The fold of `kind` over `factors` stalls at position `m`: some
/// chain folds the factors after `m`, but the product that would take
/// factor `m − 1` into the fold is not one `Abstract::product` accepts.
pub open spec fn fold_stalls_at(kind: ProductKind, factors: Seq<Abstract>, m: int) -> bool {
    exists|chain: Seq<Abstract>|
        #![trigger chain.len()]
        {
            &&& 1 <= m < factors.len()
            &&& chain_witnesses(kind, factors.skip(m), chain[0], chain)
            &&& !product_ready(factors[m - 1], chain[0], kind.spec_min(), kind.spec_max())
        }
}

/// `pt` shows that `m` is the pyramid over `base`.
pub open spec fn pyramid_witness(m: Abstract, base: Abstract, pt: Abstract) -> bool {
    is_point_model(pt) && is_product_of(m, base, pt, true, true)
}

/// `dy` shows that `m` is the prism over `base`.
pub open spec fn prism_witness(m: Abstract, base: Abstract, dy: Abstract) -> bool {
    is_dyad_model(dy) && is_product_of(m, base, dy, false, true)
}

/// `dy` shows that `m` is the tegum over `base`.
pub open spec fn tegum_witness(m: Abstract, base: Abstract, dy: Abstract) -> bool {
    is_dyad_model(dy) && is_product_of(m, base, dy, true, false)
}

/// `fs` shows that `m` is a fold of `kind` over `k` copies of a shape
/// singled out by `dyads`: dyads when it is set, points otherwise.
pub open spec fn uniform_fold_witness(
    kind: ProductKind,
    m: Abstract,
    fs: Seq<Abstract>,
    k: int,
    dyads: bool,
) -> bool {
    &&& fs.len() == k
    &&& (forall|i: int|
        0 <= i < fs.len() ==> if dyads {
            is_dyad_model(#[trigger] fs[i])
        } else {
            is_point_model(#[trigger] fs[i])
        })
    &&& fold_of(kind, fs, m)
}

/// `fs` and `m` show why a fold of `kind` over `k` copies of a shape
/// singled out by `dyads` came out absent: the factors are uniform and
/// the fold stalls at position `m`.
pub open spec fn uniform_stall_witness(
    kind: ProductKind,
    fs: Seq<Abstract>,
    k: int,
    dyads: bool,
    m: int,
) -> bool {
    &&& fs.len() == k
    &&& (forall|i: int|
        0 <= i < fs.len() ==> if dyads {
            is_dyad_model(#[trigger] fs[i])
        } else {
            is_point_model(#[trigger] fs[i])
        })
    &&& fold_stalls_at(kind, fs, m)
}

/// Two posets that are both the point have the same incidence model.
pub proof fn lemma_point_models_agree(a: Abstract, b: Abstract)
    requires
        is_point_model(a),
        is_point_model(b),
    ensures
        Abstract::same_model(a, b),
        Abstract::same_model(b, a),
{
    assert forall|r: int, i: int| -1 <= r <= a.spec_rank() && 0 <= i < a.count(r) implies
        #[trigger] a.subs(r, i) == b.subs(r, i) by {
        if r == -1 {
            assert(a.subs(-1, 0) == b.subs(-1, 0));
        } else {
            assert(a.subs(0, 0) == b.subs(0, 0));
        }
    }
    assert forall|r: int, i: int| -1 <= r <= b.spec_rank() && 0 <= i < b.count(r) implies
        #[trigger] b.subs(r, i) == a.subs(r, i) by {
        if r == -1 {
            assert(b.subs(-1, 0) == a.subs(-1, 0));
        } else {
            assert(b.subs(0, 0) == a.subs(0, 0));
        }
    }
}

/// Two posets that are both the dyad have the same incidence model.
pub proof fn lemma_dyad_models_agree(a: Abstract, b: Abstract)
    requires
        is_dyad_model(a),
        is_dyad_model(b),
    ensures
        Abstract::same_model(a, b),
        Abstract::same_model(b, a),
{
    assert forall|r: int, i: int| -1 <= r <= a.spec_rank() && 0 <= i < a.count(r) implies
        #[trigger] a.subs(r, i) == b.subs(r, i) by {
        if r == -1 {
            assert(a.subs(-1, 0) == b.subs(-1, 0));
        } else if r == 0 {
            if i == 0 {
                assert(a.subs(0, 0) == b.subs(0, 0));
            } else {
                assert(a.subs(0, 1) == b.subs(0, 1));
            }
        } else {
            assert(a.subs(1, 0) == b.subs(1, 0));
        }
    }
    assert forall|r: int, i: int| -1 <= r <= b.spec_rank() && 0 <= i < b.count(r) implies
        #[trigger] b.subs(r, i) == a.subs(r, i) by {
        if r == -1 {
            assert(b.subs(-1, 0) == a.subs(-1, 0));
        } else if r == 0 {
            if i == 0 {
                assert(b.subs(0, 0) == a.subs(0, 0));
            } else {
                assert(b.subs(0, 1) == a.subs(0, 1));
            }
        } else {
            assert(b.subs(1, 0) == a.subs(1, 0));
        }
    }
}

/// Whether `Abstract::product` accepts these factors and flags: the
/// sizes are re-checked with wide arithmetic, so the test itself cannot
/// overflow.
#[verifier::loop_isolation(false)]
#[verifier::rlimit(100)]
pub fn can_product(p: &Abstract, q: &Abstract, min: bool, max: bool) -> (b: bool)
    ensures
        b == product_ready(*p, *q, min, max),
{
    let pl = p.0.0.len();
    let ql = q.0.0.len();
    if pl > (isize::MAX as usize) || ql > (isize::MAX as usize) {
        return false;
    }
    if pl < 1 || ql < 1 {
        return false;
    }
    if (pl as u128) + (ql as u128) > (isize::MAX as u128) {
        return false;
    }
    if !p.check_incidences() || !q.check_incidences() {
        return false;
    }
    let p_rank = p.rank();
    let q_rank = q.rank();
    let sum: i128 = (p_rank as i128) + (q_rank as i128);
    if !min && (p_rank < 0 || q_rank < 0) {
        return false;
    }
    if !max && sum < -1 {
        return false;
    }
    if !min && !max && sum < 1 {
        return false;
    }
    if !min {
        let v0 = p.el_count(0) as u128;
        let v1 = q.el_count(0) as u128;
        proof {
            assert(v0 * v1 <= (usize::MAX as int) * (usize::MAX as int)) by (nonlinear_arith)
                requires
                    0 <= v0 <= usize::MAX,
                    0 <= v1 <= usize::MAX,
            ;
            assert((usize::MAX as int) * (usize::MAX as int) < u128::MAX as int) by (nonlinear_arith);
        }
        if v0 * v1 > (usize::MAX as u128) {
            return false;
        }
    }
    // Re-runs the offset recurrence in 128-bit arithmetic, capped just
    // above the machine limit, to decide whether every prefix sum fits.
    let low: isize = if min {
        -1
    } else {
        0
    };
    let hi_p: isize = p_rank - if max {
        0
    } else {
        1
    };
    let hi_q: isize = q_rank - if max {
        0
    } else {
        1
    };
    let pa: usize = if hi_p >= low {
        (hi_p - low + 1) as usize
    } else {
        0
    };
    let qa: usize = if hi_q >= low {
        (hi_q - low + 1) as usize
    } else {
        0
    };
    let cap: u128 = (usize::MAX as u128) + 1;
    let ghost gp = *p;
    let ghost gq = *q;
    let mut wide: Vec<Vec<u128>> = Vec::new();
    let mut ok = true;
    for a in 0..pa
        invariant
            wide@.len() == a,
            forall|a2: int| 0 <= a2 < a ==> (#[trigger] wide@[a2])@.len() == qa,
            forall|a2: int, b2: int|
                0 <= a2 < a && 0 <= b2 < qa ==> (#[trigger] wide@[a2]@[b2]) as int == imin(
                    offset_memo(gp, gq, min, max, low + a2, low + b2),
                    usize::MAX as int + 1,
                ),
            ok == (forall|a2: int, b2: int|
                0 <= a2 < a && 0 <= b2 < qa ==> #[trigger] offset_memo(
                    gp,
                    gq,
                    min,
                    max,
                    low + a2,
                    low + b2,
                ) <= usize::MAX),
    {
        let mut row: Vec<u128> = Vec::new();
        let mut row_ok = true;
        for b in 0..qa
            invariant
                wide@.len() == a,
                a < pa,
                forall|a2: int| 0 <= a2 < a ==> (#[trigger] wide@[a2])@.len() == qa,
                forall|a2: int, b2: int|
                    0 <= a2 < a && 0 <= b2 < qa ==> (#[trigger] wide@[a2]@[b2]) as int == imin(
                        offset_memo(gp, gq, min, max, low + a2, low + b2),
                        usize::MAX as int + 1,
                    ),
                row@.len() == b,
                forall|b2: int|
                    0 <= b2 < b ==> (#[trigger] row@[b2]) as int == imin(
                        offset_memo(gp, gq, min, max, low + a as int, low + b2),
                        usize::MAX as int + 1,
                    ),
                row_ok == (forall|b2: int|
                    0 <= b2 < b ==> #[trigger] offset_memo(gp, gq, min, max, low + a as int, low + b2)
                        <= usize::MAX),
        {
            let pr: isize = low + (a as isize);
            let qr: isize = low + (b as isize);
            let cp = p.el_count(pr) as u128;
            let cq = q.el_count(qr) as u128;
            proof {
                assert(cp * cq <= (usize::MAX as int) * (usize::MAX as int)) by (nonlinear_arith)
                    requires
                        0 <= cp <= usize::MAX,
                        0 <= cq <= usize::MAX,
                ;
                assert((usize::MAX as int) * (usize::MAX as int) < u128::MAX as int - (usize::MAX as int) - 1)
                    by (nonlinear_arith);
            }
            let c: u128 = cp * cq;
            proof {
                lemma_offset_memo_nonneg(gp, gq, min, max, pr as int, qr as int);
                if !(pr as int <= plow(min) || qr as int >= qhigh(gq, max)) {
                    lemma_offset_memo_nonneg(gp, gq, min, max, pr as int - 1, qr as int + 1);
                }
            }
            let v: u128 = if a == 0 || b == qa - 1 {
                c
            } else {
                wide[a - 1][b + 1] + c
            };
            let v = if v > cap {
                cap
            } else {
                v
            };
            if v > (usize::MAX as u128) {
                row_ok = false;
            }
            row.push(v);
        }
        if !row_ok {
            ok = false;
        }
        wide.push(row);
    }
    proof {
        if ok {
            assert forall|pr: int, qr: int|
                plow(min) <= pr <= phigh(gp, max) && plow(min) <= qr <= qhigh(gq, max)
                    implies #[trigger] offset_memo(gp, gq, min, max, pr, qr) <= usize::MAX by {
                let a2 = pr - low;
                let b2 = qr - low;
                assert(offset_memo(gp, gq, min, max, low + a2, low + b2) <= usize::MAX);
            }
        }
    }
    ok
}

impl Abstract {
    /// The pyramid product of two polytopes.
    pub fn duopyramid(p: &Abstract, q: &Abstract) -> (r: Abstract)
        requires
            product_ready(*p, *q, true, true),
        ensures
            is_product_of(r, *p, *q, true, true),
    {
        Abstract::product(p, q, true, true)
    }

    /// The prism product of two polytopes.
    pub fn duoprism(p: &Abstract, q: &Abstract) -> (r: Abstract)
        requires
            product_ready(*p, *q, false, true),
        ensures
            is_product_of(r, *p, *q, false, true),
    {
        Abstract::product(p, q, false, true)
    }

    /// The tegum product of two polytopes.
    pub fn duotegum(p: &Abstract, q: &Abstract) -> (r: Abstract)
        requires
            product_ready(*p, *q, true, false),
        ensures
            is_product_of(r, *p, *q, true, false),
    {
        Abstract::product(p, q, true, false)
    }

    /// The comb product of two polytopes.
    pub fn duocomb(p: &Abstract, q: &Abstract) -> (r: Abstract)
        requires
            product_ready(*p, *q, false, false),
        ensures
            is_product_of(r, *p, *q, false, false),
    {
        Abstract::product(p, q, false, false)
    }

    /// The pyramid over this polytope: its pyramid product with a
    /// point.  Absent only when the result would not fit in memory.
    pub fn pyramid(&self) -> (r: Option<Abstract>)
        ensures
            r is Some ==> exists|w: Abstract| #[trigger] pyramid_witness(r->Some_0, *self, w),
            r is None ==> forall|w: Abstract|
                is_point_model(w) ==> !product_ready(*self, w, true, true),
    {
        let pt = Abstract::point();
        if can_product(self, &pt, true, true) {
            let m = Abstract::product(self, &pt, true, true);
            let r = Some(m);
            proof {
                assert(pyramid_witness(r->Some_0, *self, pt));
            }
            r
        } else {
            proof {
                assert forall|w: Abstract| is_point_model(w) implies !product_ready(
                    *self,
                    w,
                    true,
                    true,
                ) by {
                    lemma_point_models_agree(w, pt);
                    lemma_product_ready_congruence(*self, w, pt, true, true);
                }
            }
            None
        }
    }

    /// The prism over this polytope: its prism product with a dyad.
    /// Absent only when the result would not fit in memory.
    pub fn prism(&self) -> (r: Option<Abstract>)
        ensures
            r is Some ==> exists|w: Abstract| #[trigger] prism_witness(r->Some_0, *self, w),
            r is None ==> forall|w: Abstract|
                is_dyad_model(w) ==> !product_ready(*self, w, false, true),
    {
        let dy = Abstract::dyad();
        if can_product(self, &dy, false, true) {
            let m = Abstract::product(self, &dy, false, true);
            let r = Some(m);
            proof {
                assert(prism_witness(r->Some_0, *self, dy));
            }
            r
        } else {
            proof {
                assert forall|w: Abstract| is_dyad_model(w) implies !product_ready(
                    *self,
                    w,
                    false,
                    true,
                ) by {
                    lemma_dyad_models_agree(w, dy);
                    lemma_product_ready_congruence(*self, w, dy, false, true);
                }
            }
            None
        }
    }

    /// The tegum over this polytope: its tegum product with a dyad.
    /// Absent only when the result would not fit in memory.
    pub fn tegum(&self) -> (r: Option<Abstract>)
        ensures
            r is Some ==> exists|w: Abstract| #[trigger] tegum_witness(r->Some_0, *self, w),
            r is None ==> forall|w: Abstract|
                is_dyad_model(w) ==> !product_ready(*self, w, true, false),
    {
        let dy = Abstract::dyad();
        if can_product(self, &dy, true, false) {
            let m = Abstract::product(self, &dy, true, false);
            let r = Some(m);
            proof {
                assert(tegum_witness(r->Some_0, *self, dy));
            }
            r
        } else {
            proof {
                assert forall|w: Abstract| is_dyad_model(w) implies !product_ready(
                    *self,
                    w,
                    true,
                    false,
                ) by {
                    lemma_dyad_models_agree(w, dy);
                    lemma_product_ready_congruence(*self, w, dy, true, false);
                }
            }
            None
        }
    }

    /// Folds the binary product of `kind` over the factors, from the
    /// right.  No factors give the family's identity element and one
    /// factor gives that factor back; the fold is absent only when an
    /// intermediate product would not fit in memory or a factor is not
    /// a sound poset.
    #[verifier::loop_isolation(false)]
    pub fn multiproduct(kind: ProductKind, factors: &Vec<Abstract>) -> (r: Option<Abstract>)
        ensures
            factors@.len() == 0 ==> matches!(r, Some(m) if kind_identity_model(kind, m)),
            factors@.len() >= 1 ==> match r {
                Some(m) => fold_of(kind, factors@, m),
                None => exists|m: int| #[trigger] fold_stalls_at(kind, factors@, m),
            },
    {
        let n = factors.len();
        if n == 0 {
            if matches!(kind, ProductKind::Pyramid) {
                return Some(Abstract::nullitope());
            } else {
                return Some(Abstract::point());
            }
        }
        let (f_min, f_max) = kind.flags();
        let mut acc = factors[n - 1].duplicate();
        let ghost fseq = factors@;
        let ghost chain0: Seq<Abstract> = seq![acc];
        let mut chain: Ghost<Seq<Abstract>> = Ghost(chain0);
        let mut left: usize = n - 1;
        while left > 0
            invariant
                0 <= left <= n - 1,
                n == fseq.len(),
                fseq == factors@,
                chain@.len() == n - left,
                chain@[0] == acc,
                Abstract::same_model(fseq[n - 1], chain@[n - 1 - left as int]),
                Abstract::same_model(chain@[n - 1 - left as int], fseq[n - 1]),
                forall|j: int|
                    #![trigger chain@[j]]
                    0 <= j < n - 1 - left as int ==> is_product_of(
                        chain@[j],
                        fseq[left as int + j],
                        chain@[j + 1],
                        kind.spec_min(),
                        kind.spec_max(),
                    ),
            decreases left,
        {
            left = left - 1;
            if can_product(&factors[left], &acc, f_min, f_max) {
                let ghost old_chain = chain@;
                let ghost old_acc = acc;
                let next = Abstract::product(&factors[left], &acc, f_min, f_max);
                acc = next;
                proof {
                    chain@ = seq![acc] + old_chain;
                    assert(chain@[0] == acc);
                    assert forall|i: int| 1 <= i < chain@.len() implies chain@[i] == old_chain[i
                        - 1] by {}
                    assert(is_product_of(acc, fseq[left as int], old_chain[0], kind.spec_min(), kind.spec_max()));
                    assert forall|j: int|
                        #![trigger chain@[j]]
                        0 <= j < n - 1 - left as int implies is_product_of(
                        chain@[j],
                        fseq[left as int + j],
                        chain@[j + 1],
                        kind.spec_min(),
                        kind.spec_max(),
                    ) by {
                        if j == 0 {
                            assert(chain@[0] == acc);
                            assert(chain@[1] == old_chain[0]);
                            assert(old_chain[0] == old_acc);
                        } else {
                            assert(is_product_of(
                                old_chain[j - 1],
                                fseq[left as int + 1 + (j - 1)],
                                old_chain[j],
                                kind.spec_min(),
                                kind.spec_max(),
                            ));
                            assert(chain@[j] == old_chain[j - 1]);
                            assert(chain@[j + 1] == old_chain[j]);
                        }
                    }
                }
            } else {
                proof {
                    let m = left as int + 1;
                    let tail = fseq.skip(m);
                    assert(tail.len() == chain@.len());
                    assert forall|j: int| 0 <= j < tail.len() implies #[trigger] tail[j] == fseq[m
                        + j] by {}
                    assert(chain_witnesses(kind, tail, chain@[0], chain@)) by {
                        assert(Abstract::same_model(tail[tail.len() - 1], chain@[tail.len() - 1]));
                        assert forall|j: int|
                            0 <= j < tail.len() - 1 implies #[trigger] is_product_of(
                            chain@[j],
                            tail[j],
                            chain@[j + 1],
                            kind.spec_min(),
                            kind.spec_max(),
                        ) by {
                            assert(chain@[j] == chain@[j]);
                            assert(is_product_of(
                                chain@[j],
                                fseq[m + j],
                                chain@[j + 1],
                                kind.spec_min(),
                                kind.spec_max(),
                            ));
                        }
                    }
                    assert(!product_ready(fseq[m - 1], chain@[0], kind.spec_min(), kind.spec_max()));
                    assert(fold_stalls_at(kind, factors@, m));
                }
                return None;
            }
        }
        proof {
            assert(chain_witnesses(kind, factors@, acc, chain@));
        }
        Some(acc)
    }

    /// The pyramid product of a list of polytopes; the empty product is
    /// the nullitope.
    pub fn multipyramid(factors: &Vec<Abstract>) -> (r: Option<Abstract>)
        ensures
            factors@.len() == 0 ==> matches!(r, Some(m) if is_nullitope_model(m)),
            factors@.len() >= 1 ==> match r {
                Some(m) => fold_of(ProductKind::Pyramid, factors@, m),
                None => exists|m: int| #[trigger] fold_stalls_at(ProductKind::Pyramid, factors@, m),
            },
    {
        Abstract::multiproduct(ProductKind::Pyramid, factors)
    }

    /// The prism product of a list of polytopes; the empty product is
    /// the point.
    pub fn multiprism(factors: &Vec<Abstract>) -> (r: Option<Abstract>)
        ensures
            factors@.len() == 0 ==> matches!(r, Some(m) if is_point_model(m)),
            factors@.len() >= 1 ==> match r {
                Some(m) => fold_of(ProductKind::Prism, factors@, m),
                None => exists|m: int| #[trigger] fold_stalls_at(ProductKind::Prism, factors@, m),
            },
    {
        Abstract::multiproduct(ProductKind::Prism, factors)
    }

    /// The tegum product of a list of polytopes; the empty product is
    /// the point.
    pub fn multitegum(factors: &Vec<Abstract>) -> (r: Option<Abstract>)
        ensures
            factors@.len() == 0 ==> matches!(r, Some(m) if is_point_model(m)),
            factors@.len() >= 1 ==> match r {
                Some(m) => fold_of(ProductKind::Tegum, factors@, m),
                None => exists|m: int| #[trigger] fold_stalls_at(ProductKind::Tegum, factors@, m),
            },
    {
        Abstract::multiproduct(ProductKind::Tegum, factors)
    }

    /// The comb product of a list of polytopes; the empty product is
    /// the point.
    pub fn multicomb(factors: &Vec<Abstract>) -> (r: Option<Abstract>)
        ensures
            factors@.len() == 0 ==> matches!(r, Some(m) if is_point_model(m)),
            factors@.len() >= 1 ==> match r {
                Some(m) => fold_of(ProductKind::Comb, factors@, m),
                None => exists|m: int| #[trigger] fold_stalls_at(ProductKind::Comb, factors@, m),
            },
    {
        Abstract::multiproduct(ProductKind::Comb, factors)
    }

    /// The simplex of a given rank: the pyramid product of `rank + 1`
    /// points.  Absent only when an intermediate product would not fit
    /// in memory.
    pub fn simplex(rank: isize) -> (r: Option<Abstract>)
        requires
            -1 <= rank,
            rank < isize::MAX,
        ensures
            rank == -1 ==> matches!(r, Some(m) if is_nullitope_model(m)),
            rank >= 0 ==> match r {
                Some(m) => exists|fs: Seq<Abstract>| #[trigger] uniform_fold_witness(
                    ProductKind::Pyramid,
                    m,
                    fs,
                    rank + 1,
                    false,
                ),
                None => exists|fs: Seq<Abstract>, m: int| #[trigger] uniform_stall_witness(
                    ProductKind::Pyramid,
                    fs,
                    rank + 1,
                    false,
                    m,
                ),
            },
    {
        let k = (rank + 1) as usize;
        let mut factors: Vec<Abstract> = Vec::new();
        for i in 0..k
            invariant
                factors@.len() == i,
                forall|j: int| 0 <= j < i ==> is_point_model(#[trigger] factors@[j]),
        {
            factors.push(Abstract::point());
        }
        let r = Abstract::multipyramid(&factors);
        proof {
            if rank >= 0 && r is Some {
                assert(uniform_fold_witness(ProductKind::Pyramid, r->Some_0, factors@, rank + 1, false));
            }
            if rank >= 0 && r is None {
                let m = choose|m: int| #[trigger] fold_stalls_at(ProductKind::Pyramid, factors@, m);
                assert(uniform_stall_witness(ProductKind::Pyramid, factors@, rank + 1, false, m));
            }
        }
        r
    }

    /// The hypercube of a given rank: the prism product of `rank`
    /// dyads, or the nullitope at rank −1.  Absent only when an
    /// intermediate product would not fit in memory.
    pub fn hypercube(rank: isize) -> (r: Option<Abstract>)
        requires
            -1 <= rank,
        ensures
            rank == -1 ==> matches!(r, Some(m) if is_nullitope_model(m)),
            rank == 0 ==> matches!(r, Some(m) if is_point_model(m)),
            rank >= 1 ==> match r {
                Some(m) => exists|fs: Seq<Abstract>| #[trigger] uniform_fold_witness(
                    ProductKind::Prism,
                    m,
                    fs,
                    rank as int,
                    true,
                ),
                None => exists|fs: Seq<Abstract>, m: int| #[trigger] uniform_stall_witness(
                    ProductKind::Prism,
                    fs,
                    rank as int,
                    true,
                    m,
                ),
            },
    {
        if rank == -1 {
            return Some(Abstract::nullitope());
        }
        let k = rank as usize;
        let mut factors: Vec<Abstract> = Vec::new();
        for i in 0..k
            invariant
                factors@.len() == i,
                forall|j: int| 0 <= j < i ==> is_dyad_model(#[trigger] factors@[j]),
        {
            factors.push(Abstract::dyad());
        }
        let r = Abstract::multiprism(&factors);
        proof {
            if rank >= 1 && r is Some {
                assert(uniform_fold_witness(ProductKind::Prism, r->Some_0, factors@, rank as int, true));
            }
            if rank >= 1 && r is None {
                let m = choose|m: int| #[trigger] fold_stalls_at(ProductKind::Prism, factors@, m);
                assert(uniform_stall_witness(ProductKind::Prism, factors@, rank as int, true, m));
            }
        }
        r
    }

    /// The orthoplex of a given rank: the tegum product of `rank`
    /// dyads, or the nullitope at rank −1.  Absent only when an
    /// intermediate product would not fit in memory.
    pub fn orthoplex(rank: isize) -> (r: Option<Abstract>)
        requires
            -1 <= rank,
        ensures
            rank == -1 ==> matches!(r, Some(m) if is_nullitope_model(m)),
            rank == 0 ==> matches!(r, Some(m) if is_point_model(m)),
            rank >= 1 ==> match r {
                Some(m) => exists|fs: Seq<Abstract>| #[trigger] uniform_fold_witness(
                    ProductKind::Tegum,
                    m,
                    fs,
                    rank as int,
                    true,
                ),
                None => exists|fs: Seq<Abstract>, m: int| #[trigger] uniform_stall_witness(
                    ProductKind::Tegum,
                    fs,
                    rank as int,
                    true,
                    m,
                ),
            },
    {
        if rank == -1 {
            return Some(Abstract::nullitope());
        }
        let k = rank as usize;
        let mut factors: Vec<Abstract> = Vec::new();
        for i in 0..k
            invariant
                factors@.len() == i,
                forall|j: int| 0 <= j < i ==> is_dyad_model(#[trigger] factors@[j]),
        {
            factors.push(Abstract::dyad());
        }
        let r = Abstract::multitegum(&factors);
        proof {
            if rank >= 1 && r is Some {
                assert(uniform_fold_witness(ProductKind::Tegum, r->Some_0, factors@, rank as int, true));
            }
            if rank >= 1 && r is None {
                let m = choose|m: int| #[trigger] fold_stalls_at(ProductKind::Tegum, factors@, m);
                assert(uniform_stall_witness(ProductKind::Tegum, factors@, rank as int, true, m));
            }
        }
        r
    }
}

} // verus!
