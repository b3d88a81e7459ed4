use vstd::prelude::*;

verus! {

/// Number of occurrences of `x` among the entries of `s`.
pub open spec fn count_in(s: Seq<usize>, x: int) -> int
    decreases s.len(),
{
    if s.len() == 0 {
        0
    } else {
        count_in(s.drop_last(), x) + if s.last() == x {
            1int
        } else {
            0int
        }
    }
}

pub proof fn lemma_count_in_nonneg(s: Seq<usize>, x: int)
    ensures
        count_in(s, x) >= 0,
    decreases s.len(),
{
    if s.len() > 0 {
        lemma_count_in_nonneg(s.drop_last(), x);
    }
}

/// Extending a prefix by one entry raises the count by one exactly when
/// that entry is `x`.
pub proof fn lemma_count_in_take_step(s: Seq<usize>, x: int, k: int)
    requires
        0 <= k < s.len(),
    ensures
        count_in(s.take(k + 1), x) == count_in(s.take(k), x) + if s[k] == x {
            1int
        } else {
            0int
        },
{
    assert(s.take(k + 1).drop_last() =~= s.take(k));
    assert(s.take(k + 1).last() == s[k]);
}

pub proof fn lemma_count_in_take_full(s: Seq<usize>, x: int)
    ensures
        count_in(s.take(s.len() as int), x) == count_in(s, x),
{
    assert(s.take(s.len() as int) =~= s);
}

/// Counts over prefixes grow with the prefix.
pub proof fn lemma_count_in_take_mono(s: Seq<usize>, x: int, k1: int, k2: int)
    requires
        0 <= k1 <= k2 <= s.len(),
    ensures
        count_in(s.take(k1), x) <= count_in(s.take(k2), x),
    decreases k2 - k1,
{
    if k1 < k2 {
        lemma_count_in_take_mono(s, x, k1, k2 - 1);
        lemma_count_in_take_step(s, x, k2 - 1);
    }
}

pub proof fn lemma_count_in_single(v: usize, x: int)
    ensures
        count_in(seq![v], x) == if v == x {
            1int
        } else {
            0int
        },
{
    assert(seq![v].drop_last() =~= Seq::<usize>::empty());
    assert(count_in(Seq::<usize>::empty(), x) == 0);
    assert(seq![v].last() == v);
}

/// The sequence holding `c` copies of `v` (empty when `c` is negative).
pub open spec fn repeat_val(v: usize, c: int) -> Seq<usize> {
    Seq::new(if c >= 0 {
        c as nat
    } else {
        0
    }, |t: int| v)
}

pub proof fn lemma_count_in_concat(a: Seq<usize>, b: Seq<usize>, x: int)
    ensures
        count_in(a + b, x) == count_in(a, x) + count_in(b, x),
    decreases b.len(),
{
    if b.len() == 0 {
        assert(a + b =~= a);
    } else {
        lemma_count_in_concat(a, b.drop_last(), x);
        assert((a + b).drop_last() =~= a + b.drop_last());
        assert((a + b).last() == b.last());
    }
}

pub proof fn lemma_count_in_repeat(v: usize, c: int, x: int)
    ensures
        count_in(repeat_val(v, c), x) == if x == v && c > 0 {
            c
        } else {
            0int
        },
    decreases c,
{
    if c <= 0 {
        assert(repeat_val(v, c) =~= Seq::<usize>::empty());
    } else {
        lemma_count_in_repeat(v, c - 1, x);
        assert(repeat_val(v, c).drop_last() =~= repeat_val(v, c - 1));
        assert(repeat_val(v, c).last() == v);
    }
}

/// The combined multiplicity of `x` among the subelement lists of the
/// first `k` subelements of an element: entry `t` of `subs` picks the
/// list `below[subs[t]]`, and each occurrence of `x` there counts once.
pub open spec fn gc_of(subs: Seq<usize>, below: Seq<Seq<usize>>, x: int, k: int) -> int
    decreases k,
{
    if k <= 0 {
        0
    } else {
        gc_of(subs, below, x, k - 1) + count_in(below[subs[k - 1] as int], x)
    }
}

pub proof fn lemma_gc_of_mono(subs: Seq<usize>, below: Seq<Seq<usize>>, x: int, k1: int, k2: int)
    requires
        k1 <= k2,
    ensures
        gc_of(subs, below, x, k1) <= gc_of(subs, below, x, k2),
    decreases k2 - k1,
{
    if k1 < k2 {
        lemma_gc_of_mono(subs, below, x, k1, k2 - 1);
        lemma_count_in_nonneg(below[subs[k2 - 1] as int], x);
    }
}

/// The multiplicity of `x` in a sequence that stores each index at its
/// own position.
pub proof fn lemma_count_in_identity(s: Seq<usize>, x: int)
    requires
        forall|k: int| 0 <= k < s.len() ==> (#[trigger] s[k] as int) == k,
    ensures
        count_in(s, x) == if 0 <= x < s.len() {
            1int
        } else {
            0int
        },
    decreases s.len(),
{
    if s.len() > 0 {
        let d = s.drop_last();
        assert(forall|k: int| 0 <= k < d.len() ==> (#[trigger] d[k] as int) == k);
        lemma_count_in_identity(d, x);
        assert(s.last() as int == s.len() - 1);
    }
}

/// The multiplicity of `x` in a two-entry sequence.
pub proof fn lemma_count_in_pair(a: usize, b: usize, x: int)
    ensures
        count_in(seq![a, b], x) == (if a == x {
            1int
        } else {
            0int
        }) + (if b == x {
            1int
        } else {
            0int
        }),
{
    assert(seq![a, b].drop_last() =~= seq![a]);
    assert(seq![a, b].last() == b);
    lemma_count_in_single(a, x);
}

/// The sum of `f` over the indices `0 .. n`.
pub open spec fn sum_upto(f: spec_fn(int) -> int, n: int) -> int
    decreases n,
{
    if n <= 0 {
        0
    } else {
        sum_upto(f, n - 1) + f(n - 1)
    }
}

pub proof fn lemma_sum_upto_zero(f: spec_fn(int) -> int, n: int)
    requires
        forall|u: int| 0 <= u < n ==> #[trigger] f(u) == 0,
    ensures
        sum_upto(f, n) == 0,
    decreases n,
{
    if n > 0 {
        lemma_sum_upto_zero(f, n - 1);
    }
}

pub proof fn lemma_sum_upto_congruence(f: spec_fn(int) -> int, g: spec_fn(int) -> int, n: int)
    requires
        forall|u: int| 0 <= u < n ==> #[trigger] f(u) == g(u),
    ensures
        sum_upto(f, n) == sum_upto(g, n),
    decreases n,
{
    if n > 0 {
        lemma_sum_upto_congruence(f, g, n - 1);
    }
}

/// Raising one summand by `c` raises the sum by `c`.
pub proof fn lemma_sum_upto_update(
    f: spec_fn(int) -> int,
    g: spec_fn(int) -> int,
    n: int,
    u0: int,
    c: int,
)
    requires
        0 <= u0 < n,
        g(u0) == f(u0) + c,
        forall|u: int| 0 <= u < n && u != u0 ==> #[trigger] g(u) == f(u),
    ensures
        sum_upto(g, n) == sum_upto(f, n) + c,
    decreases n,
{
    if u0 == n - 1 {
        lemma_sum_upto_congruence(f, g, n - 1);
    } else {
        lemma_sum_upto_update(f, g, n - 1, u0, c);
    }
}

/// Grouping the grandchild count by the subelement it runs through:
/// each index `u` below `n` contributes once per occurrence in `subs`,
/// each time adding the multiplicity of `x` in `below[u]`.
pub proof fn lemma_gc_of_group(subs: Seq<usize>, below: Seq<Seq<usize>>, x: int, k: int, n: int)
    requires
        0 <= k <= subs.len(),
        n >= 0,
        forall|t: int| 0 <= t < k ==> (#[trigger] subs[t] as int) < n,
    ensures
        gc_of(subs, below, x, k) == sum_upto(
            |u: int| count_in(subs.take(k), u) * count_in(below[u], x),
            n,
        ),
    decreases k,
{
    let fk = |u: int| count_in(subs.take(k), u) * count_in(below[u], x);
    if k == 0 {
        assert(subs.take(0) =~= Seq::<usize>::empty());
        assert forall|u: int| 0 <= u < n implies #[trigger] fk(u) == 0 by {
            assert(count_in(subs.take(0), u) == 0);
        }
        lemma_sum_upto_zero(fk, n);
    } else {
        lemma_gc_of_group(subs, below, x, k - 1, n);
        let fp = |u: int| count_in(subs.take(k - 1), u) * count_in(below[u], x);
        let u0 = subs[k - 1] as int;
        let c = count_in(below[u0], x);
        assert forall|u: int| 0 <= u < n && u != u0 implies #[trigger] fk(u) == fp(u) by {
            lemma_count_in_take_step(subs, u, k - 1);
        }
        assert(fk(u0) == fp(u0) + c) by {
            lemma_count_in_take_step(subs, u0, k - 1);
            assert((count_in(subs.take(k - 1), u0) + 1) * count_in(below[u0], x) == count_in(
                subs.take(k - 1),
                u0,
            ) * count_in(below[u0], x) + count_in(below[u0], x)) by (nonlinear_arith);
        }
        lemma_sum_upto_update(fp, fk, n, u0, c);
        assert(gc_of(subs, below, x, k) == gc_of(subs, below, x, k - 1) + count_in(
            below[subs[k - 1] as int],
            x,
        ));
    }
}

/// A sequence without duplicates holds any value at most once.
pub proof fn lemma_count_in_nodup(s: Seq<usize>, x: int)
    requires
        s.no_duplicates(),
    ensures
        0 <= count_in(s, x) <= 1,
    decreases s.len(),
{
    if s.len() > 0 {
        let d = s.drop_last();
        assert(d.no_duplicates());
        lemma_count_in_nodup(d, x);
        if s.last() == x && count_in(d, x) > 0 {
            lemma_count_in_pos(d, x);
            let k = choose|k: int| 0 <= k < d.len() && d[k] == x;
            assert(s[k] == s[s.len() - 1]);
        }
    }
}

/// A positive count exhibits a position.
pub proof fn lemma_count_in_pos(s: Seq<usize>, x: int)
    requires
        count_in(s, x) > 0,
    ensures
        exists|k: int| 0 <= k < s.len() && s[k] == x,
    decreases s.len(),
{
    if s.len() > 0 {
        if s.last() == x {
            assert(s[s.len() - 1] == x);
        } else {
            lemma_count_in_pos(s.drop_last(), x);
            let k = choose|k: int| 0 <= k < s.drop_last().len() && s.drop_last()[k] == x;
            assert(s[k] == x);
        }
    }
}

/// Two walks whose steps contribute the same amounts sum alike.
pub proof fn lemma_gc_of_termwise(
    subs1: Seq<usize>,
    below1: Seq<Seq<usize>>,
    x1: int,
    subs2: Seq<usize>,
    below2: Seq<Seq<usize>>,
    x2: int,
    k: int,
)
    requires
        forall|t: int|
            0 <= t < k ==> #[trigger] count_in(below1[subs1[t] as int], x1) == count_in(
                below2[subs2[t] as int],
                x2,
            ),
    ensures
        gc_of(subs1, below1, x1, k) == gc_of(subs2, below2, x2, k),
    decreases k,
{
    if k > 0 {
        lemma_gc_of_termwise(subs1, below1, x1, subs2, below2, x2, k - 1);
    }
}

/// A walk whose steps all contribute nothing sums to nothing.
pub proof fn lemma_gc_of_zero_terms(subs: Seq<usize>, below: Seq<Seq<usize>>, x: int, k: int)
    requires
        forall|t: int| 0 <= t < k ==> #[trigger] count_in(below[subs[t] as int], x) == 0,
    ensures
        gc_of(subs, below, x, k) == 0,
    decreases k,
{
    if k > 0 {
        lemma_gc_of_zero_terms(subs, below, x, k - 1);
    }
}

/// A walk whose steps contribute `c` exactly when the step index is
/// `v` sums to the multiplicity of `v` times `c`.
pub proof fn lemma_gc_of_indicator(
    subs: Seq<usize>,
    below: Seq<Seq<usize>>,
    x: int,
    k: int,
    v: usize,
    c: int,
)
    requires
        0 <= k <= subs.len(),
        forall|t: int|
            0 <= t < k ==> #[trigger] count_in(below[subs[t] as int], x) == (if subs[t] == v {
                c
            } else {
                0int
            }),
    ensures
        gc_of(subs, below, x, k) == count_in(subs.take(k), v as int) * c,
    decreases k,
{
    if k == 0 {
        assert(subs.take(0) =~= Seq::<usize>::empty());
        assert(count_in(Seq::<usize>::empty(), v as int) == 0);
        assert(0int * c == 0) by (nonlinear_arith);
    } else {
        lemma_gc_of_indicator(subs, below, x, k - 1, v, c);
        lemma_count_in_take_step(subs, v as int, k - 1);
        if subs[k - 1] == v {
            assert((count_in(subs.take(k - 1), v as int) + 1) * c == count_in(
                subs.take(k - 1),
                v as int,
            ) * c + c) by (nonlinear_arith);
        }
    }
}

/// Splitting a walk over a concatenated step list splits its sum.
pub proof fn lemma_gc_of_concat(a: Seq<usize>, b: Seq<usize>, below: Seq<Seq<usize>>, x: int)
    ensures
        gc_of(a + b, below, x, (a + b).len() as int) == gc_of(a, below, x, a.len() as int) + gc_of(
            b,
            below,
            x,
            b.len() as int,
        ),
    decreases b.len(),
{
    if b.len() == 0 {
        assert(a + b =~= a);
    } else {
        let d = b.drop_last();
        lemma_gc_of_concat(a, d, below, x);
        assert(gc_of(a + b, below, x, (a + b).len() as int) == gc_of(
            a + b,
            below,
            x,
            (a + b).len() - 1,
        ) + count_in(below[(a + b)[(a + b).len() - 1] as int], x));
        assert((a + b)[(a + b).len() - 1] == b.last());
        assert forall|t: int|
            0 <= t < (a + d).len() implies #[trigger] count_in(below[(a + b)[t] as int], x)
            == count_in(below[(a + d)[t] as int], x) by {
            assert((a + b)[t] == (a + d)[t]);
        }
        lemma_gc_of_termwise(a + b, below, x, a + d, below, x, (a + d).len() as int);
        assert forall|t: int|
            0 <= t < d.len() implies #[trigger] count_in(below[b[t] as int], x) == count_in(
            below[d[t] as int],
            x,
        ) by {
            assert(b[t] == d[t]);
        }
        lemma_gc_of_termwise(b, below, x, d, below, x, d.len() as int);
        assert(gc_of(b, below, x, b.len() as int) == gc_of(b, below, x, b.len() - 1) + count_in(
            below[b[b.len() - 1] as int],
            x,
        ));
    }
}

/// The multiplicity of a target in a pointwise image of a step list,
/// when the map is one to one and the target is the image of `s0`.
pub proof fn lemma_count_in_image_hit(
    vals: Seq<usize>,
    subs: Seq<usize>,
    f: spec_fn(int) -> int,
    x: int,
    s0: int,
    n: int,
)
    requires
        vals.len() == subs.len(),
        forall|k: int| 0 <= k < subs.len() ==> (#[trigger] vals[k] as int) == f(subs[k] as int),
        forall|k: int| 0 <= k < subs.len() ==> (#[trigger] subs[k] as int) < n,
        0 <= s0 < n,
        f(s0) == x,
        forall|s1: int, s2: int|
            0 <= s1 < n && 0 <= s2 < n && #[trigger] f(s1) == #[trigger] f(s2) ==> s1 == s2,
    ensures
        count_in(vals, x) == count_in(subs, s0),
    decreases vals.len(),
{
    if vals.len() > 0 {
        lemma_count_in_image_hit(vals.drop_last(), subs.drop_last(), f, x, s0, n);
        assert(vals.last() as int == f(subs.last() as int));
        if vals.last() == x {
            assert(f(subs.last() as int) == f(s0));
            assert(subs.last() as int == s0);
        } else {
            assert(subs.last() as int != s0);
        }
    }
}

/// The multiplicity of a target that the map never produces.
pub proof fn lemma_count_in_image_miss(
    vals: Seq<usize>,
    subs: Seq<usize>,
    f: spec_fn(int) -> int,
    x: int,
    n: int,
)
    requires
        vals.len() == subs.len(),
        forall|k: int| 0 <= k < subs.len() ==> (#[trigger] vals[k] as int) == f(subs[k] as int),
        forall|k: int| 0 <= k < subs.len() ==> (#[trigger] subs[k] as int) < n,
        forall|s: int| 0 <= s < n ==> #[trigger] f(s) != x,
    ensures
        count_in(vals, x) == 0,
    decreases vals.len(),
{
    if vals.len() > 0 {
        lemma_count_in_image_miss(vals.drop_last(), subs.drop_last(), f, x, n);
        assert(vals.last() as int == f(subs.last() as int));
    }
}

/// Appending one entry to a sequence inserts it into the set of
/// entries.
pub proof fn lemma_push_to_set(s: Seq<usize>, v: usize)
    ensures
        s.push(v).to_set() == s.to_set().insert(v),
{
    assert forall|x: usize| s.push(v).to_set().contains(x) implies s.to_set().insert(v).contains(
        x,
    ) by {
        let i = choose|i: int| 0 <= i < s.push(v).len() && s.push(v)[i] == x;
        if i < s.len() {
            assert(s[i] == x);
        }
    }
    assert forall|x: usize| s.to_set().insert(v).contains(x) implies s.push(v).to_set().contains(
        x,
    ) by {
        if x == v {
            assert(s.push(v)[s.len() as int] == x);
        } else {
            let i = choose|i: int| 0 <= i < s.len() && s[i] == x;
            assert(s.push(v)[i] == x);
        }
    }
    assert(s.push(v).to_set() =~= s.to_set().insert(v));
}

/// The empty sequence has no entries.
pub proof fn lemma_empty_to_set()
    ensures
        Seq::<usize>::empty().to_set() == Set::<usize>::empty(),
{
    assert(Seq::<usize>::empty().to_set() =~= Set::<usize>::empty());
}

} // verus!
