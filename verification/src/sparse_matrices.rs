//! Arithmetic on relation stores: sums, differences, multiples and the
//! relational product.

use crate::object::Object;
use crate::relation::{
    lemma_relation_ext, lemma_sum_support, lemma_sum_zero, minus, plus, product, product_weight,
    scaled, sum_seq, weight, Relation,
};
use crate::storage::{
    bounded, entry_pairs, lists_entries, lists_row, row_targets, Digraph, TrackingDigraph,
    PRODUCT_MAX, WEIGHT_MAX,
};
use vstd::prelude::*;

verus! {

/// Adds `k` times the weights of `matrix` to the weights of `acc`.
pub fn add_scaled(acc: &mut Digraph, matrix: &Digraph, k: i128)
    requires
        old(acc).wf(),
        matrix.wf(),
        forall|s: Object, t: Object|
            i128::MIN <= k * #[trigger] weight(matrix@, s, t) <= i128::MAX,
        forall|s: Object, t: Object|
            i128::MIN <= weight(old(acc)@, s, t) + k * #[trigger] weight(matrix@, s, t)
                <= i128::MAX,
    ensures
        final(acc).wf(),
        forall|s: Object, t: Object|
            #[trigger] weight(final(acc)@, s, t) == weight(old(acc)@, s, t) + k * weight(
                matrix@,
                s,
                t,
            ),
{
    let entries = matrix.entries();
    let mut i: usize = 0;
    while i < entries.len()
        invariant
            i <= entries@.len(),
            acc.wf(),
            lists_entries(entries@, matrix@),
            forall|s: Object, t: Object|
                i128::MIN <= k * #[trigger] weight(matrix@, s, t) <= i128::MAX,
            forall|s: Object, t: Object|
                i128::MIN <= weight(old(acc)@, s, t) + k * #[trigger] weight(matrix@, s, t)
                    <= i128::MAX,
            forall|s: Object, t: Object|
                #[trigger] weight(acc@, s, t) == weight(old(acc)@, s, t) + (if entry_pairs(
                    entries@,
                ).take(i as int).contains((s, t)) {
                    k * weight(matrix@, s, t)
                } else {
                    0
                }),
        decreases entries@.len() - i,
    {
        let (s, t, w) = entries[i];
        let ghost pairs = entry_pairs(entries@);
        let ghost done = pairs.take(i as int);
        let ghost next = pairs.take(i + 1);
        let ghost before = acc@;
        proof {
            assert(pairs[i as int] == (s, t));
            assert(next == done.push((s, t)));
            assert forall|p: (Object, Object)| next.contains(p) <==> done.contains(p) || p == (
                s,
                t,
            ) by {
                if done.contains(p) {
                    let j = choose|j: int| 0 <= j < done.len() && done[j] == p;
                    assert(next[j] == p);
                }
                if next.contains(p) {
                    let j = choose|j: int| 0 <= j < next.len() && next[j] == p;
                    if j < i {
                        assert(done[j] == p);
                    }
                }
                assert(next[i as int] == (s, t));
            }
            if done.contains((s, t)) {
                let j = choose|j: int| 0 <= j < done.len() && done[j] == (s, t);
                assert(pairs[j] == pairs[i as int]);
            }
            assert(weight(matrix@, s, t) == w);
            assert(weight(before, s, t) == weight(old(acc)@, s, t));
        }
        acc.add_weight(s, t, k * w);
        proof {
            assert forall|s2: Object, t2: Object|
                #[trigger] weight(acc@, s2, t2) == weight(old(acc)@, s2, t2) + (if next.contains(
                    (s2, t2),
                ) {
                    k * weight(matrix@, s2, t2)
                } else {
                    0
                }) by {
                assert(weight(before, s2, t2) == weight(old(acc)@, s2, t2) + (if done.contains(
                    (s2, t2),
                ) {
                    k * weight(matrix@, s2, t2)
                } else {
                    0
                }));
                assert(next.contains((s2, t2)) <==> done.contains((s2, t2)) || (s2, t2) == (s, t));
            }
        }
        i = i + 1;
    }
    proof {
        let pairs = entry_pairs(entries@);
        assert(pairs.take(entries@.len() as int) == pairs);
        assert forall|s: Object, t: Object|
            #[trigger] weight(acc@, s, t) == weight(old(acc)@, s, t) + k * weight(matrix@, s, t) by {
            if !pairs.contains((s, t)) {
                assert(!matrix@.contains_key((s, t)));
            }
        }
    }
}

/// The pointwise sum of two stores.
pub fn add(left: &Digraph, right: &Digraph) -> (out: Digraph)
    requires
        left.wf(),
        right.wf(),
        forall|s: Object, t: Object|
            i128::MIN <= #[trigger] weight(left@, s, t) + weight(right@, s, t) <= i128::MAX,
    ensures
        out.wf(),
        out@ == plus(left@, right@),
{
    let mut out = Digraph::new();
    proof {
        left.lemma_canonical();
        right.lemma_canonical();
        assert forall|s: Object, t: Object|
            i128::MIN <= 1 * #[trigger] weight(left@, s, t) <= i128::MAX by {
        }
    }
    add_scaled(&mut out, left, 1);
    proof {
        assert forall|s: Object, t: Object|
            i128::MIN <= 1 * #[trigger] weight(right@, s, t) <= i128::MAX by {
        }
        assert forall|s: Object, t: Object|
            i128::MIN <= weight(out@, s, t) + 1 * #[trigger] weight(right@, s, t) <= i128::MAX by {
            assert(weight(out@, s, t) == weight(left@, s, t));
            assert(i128::MIN <= weight(left@, s, t) + weight(right@, s, t) <= i128::MAX);
        }
    }
    add_scaled(&mut out, right, 1);
    proof {
        out.lemma_canonical();
        lemma_relation_ext(out@, plus(left@, right@));
    }
    out
}

/// The pointwise difference of two stores.
pub fn sub(left: &Digraph, right: &Digraph) -> (out: Digraph)
    requires
        left.wf(),
        right.wf(),
        forall|s: Object, t: Object|
            i128::MIN < #[trigger] weight(right@, s, t) && i128::MIN <= weight(left@, s, t)
                - weight(right@, s, t) <= i128::MAX,
    ensures
        out.wf(),
        out@ == minus(left@, right@),
{
    let mut out = Digraph::new();
    proof {
        left.lemma_canonical();
        right.lemma_canonical();
        assert forall|s: Object, t: Object|
            i128::MIN <= 1 * #[trigger] weight(left@, s, t) <= i128::MAX by {
        }
    }
    add_scaled(&mut out, left, 1);
    proof {
        assert forall|s: Object, t: Object|
            i128::MIN <= (-1) * #[trigger] weight(right@, s, t) <= i128::MAX by {
        }
        assert forall|s: Object, t: Object|
            i128::MIN <= weight(out@, s, t) + (-1) * #[trigger] weight(right@, s, t)
                <= i128::MAX by {
            assert(weight(out@, s, t) == weight(left@, s, t));
            assert(i128::MIN <= weight(left@, s, t) - weight(right@, s, t) <= i128::MAX);
        }
    }
    add_scaled(&mut out, right, -1);
    proof {
        out.lemma_canonical();
        lemma_relation_ext(out@, minus(left@, right@));
    }
    out
}

/// A store with every weight multiplied by `scalar`.
pub fn mul(scalar: i128, matrix: &Digraph) -> (out: Digraph)
    requires
        matrix.wf(),
        forall|s: Object, t: Object|
            i128::MIN <= scalar * #[trigger] weight(matrix@, s, t) <= i128::MAX,
    ensures
        out.wf(),
        out@ == scaled(scalar as int, matrix@),
{
    let mut out = Digraph::new();
    add_scaled(&mut out, matrix, scalar);
    proof {
        out.lemma_canonical();
        lemma_relation_ext(out@, scaled(scalar as int, matrix@));
    }
    out
}

/// The sum, over the objects `m` of a list, of the weight of `(s, m)` in
/// `l` times the weight of `(m, t)` in `r`.
pub open spec fn partial_product(l: Relation, r: Relation, s: Object, t: Object, ms: Seq<Object>) -> int {
    sum_seq(ms, |m: Object| weight(l, s, m) * weight(r, m, t))
}

proof fn lemma_partial_product_push(l: Relation, r: Relation, s: Object, t: Object, ms: Seq<Object>, m: Object)
    ensures
        partial_product(l, r, s, t, ms.push(m)) == partial_product(l, r, s, t, ms) + weight(
            l,
            s,
            m,
        ) * weight(r, m, t),
{
    assert(ms.push(m).drop_last() == ms);
}

proof fn lemma_small_product(a: int, b: int)
    requires
        -WEIGHT_MAX <= a <= WEIGHT_MAX,
        -WEIGHT_MAX <= b <= WEIGHT_MAX,
    ensures
        -0x1000_0000_0000_0000 <= a * b <= 0x1000_0000_0000_0000,
{
    assert(-0x1000_0000_0000_0000 <= a * b <= 0x1000_0000_0000_0000) by (nonlinear_arith)
        requires
            -0x4000_0000 <= a <= 0x4000_0000,
            -0x4000_0000 <= b <= 0x4000_0000,
    ;
}

/// The size of a weight.
pub open spec fn size(x: int) -> int {
    if x < 0 {
        -x
    } else {
        x
    }
}

/// The weight of `(s, t)` in the product of `l` and `r` with every weight
/// taken by its size: the most that a sum on the way to the weight of
/// `(s, t)` in the product can reach.
pub open spec fn abs_product_weight(l: Relation, r: Relation, s: Object, t: Object) -> int {
    crate::relation::sum_objects(|m: Object| size(weight(l, s, m)) * size(weight(r, m, t)))
}

/// The sum of [`abs_product_weight`] over the objects of a list only.
pub open spec fn partial_abs_product(l: Relation, r: Relation, s: Object, t: Object, ms: Seq<Object>) -> int {
    sum_seq(ms, |m: Object| size(weight(l, s, m)) * size(weight(r, m, t)))
}

proof fn lemma_partial_abs(l: Relation, r: Relation, s: Object, t: Object, ms: Seq<Object>)
    ensures
        size(partial_product(l, r, s, t, ms)) <= partial_abs_product(l, r, s, t, ms),
    decreases ms.len(),
{
    if ms.len() > 0 {
        lemma_partial_abs(l, r, s, t, ms.drop_last());
        let a = weight(l, s, ms.last());
        let b = weight(r, ms.last(), t);
        assert(size(a * b) == size(a) * size(b)) by (nonlinear_arith);
    }
}

proof fn lemma_partial_abs_prefix(l: Relation, r: Relation, s: Object, t: Object, ms: Seq<Object>, k: int)
    requires
        0 <= k <= ms.len(),
    ensures
        0 <= partial_abs_product(l, r, s, t, ms.take(k)) <= partial_abs_product(l, r, s, t, ms),
    decreases ms.len() - k,
{
    if k < ms.len() {
        lemma_partial_abs_prefix(l, r, s, t, ms, k + 1);
        assert(ms.take(k + 1).drop_last() =~= ms.take(k));
        let a = weight(l, s, ms.take(k + 1).last());
        let b = weight(r, ms.take(k + 1).last(), t);
        assert(0 <= size(a) * size(b)) by (nonlinear_arith);
    } else {
        assert(ms.take(k) =~= ms);
    }
    lemma_partial_abs(l, r, s, t, ms.take(k));
}

/// A sum on the way to a weight of the product that is more than a store
/// can hold shows that the product, with every weight taken by its size, is
/// more than a store can hold.
proof fn lemma_overflow_witness(l: Relation, r: Relation, s: Object, t: Object, ms: Seq<Object>, j: int, reached: int)
    requires
        ms.no_duplicates(),
        forall|m: Object| !ms.contains(m) ==> !l.contains_key((s, m)),
        0 <= j < ms.len(),
        size(reached) > i128::MAX,
        reached == weight(l, s, ms[j]) * weight(r, ms[j], t) || reached == partial_product(
            l,
            r,
            s,
            t,
            ms.take(j),
        ) + weight(l, s, ms[j]) * weight(r, ms[j], t),
    ensures
        abs_product_weight(l, r, s, t) > i128::MAX,
{
    let f = |m: Object| size(weight(l, s, m)) * size(weight(r, m, t));
    assert forall|m: Object| !ms.contains(m) implies #[trigger] f(m) == 0 by {
        assert(!l.contains_key((s, m)));
        assert(size(weight(l, s, m)) == 0);
        assert(size(weight(l, s, m)) * size(weight(r, m, t)) == 0) by (nonlinear_arith)
            requires
                size(weight(l, s, m)) == 0,
        ;
    }
    lemma_sum_support(ms, f);
    lemma_partial_abs_prefix(l, r, s, t, ms, j + 1);
    lemma_partial_abs_prefix(l, r, s, t, ms, j);
    lemma_partial_abs(l, r, s, t, ms.take(j));
    assert(ms.take(j + 1).drop_last() =~= ms.take(j));
    assert(ms.take(j + 1).last() == ms[j]);
    let a = weight(l, s, ms[j]);
    let b = weight(r, ms[j], t);
    assert(size(a * b) == size(a) * size(b)) by (nonlinear_arith);
}

/// The relational product of two stores. There is no result if a term or
/// a sum on the way to a weight of the product is more than a store can
/// hold. That cannot happen while the product with every weight taken by its
/// size fits in a store, and so not with weights of at most [`WEIGHT_MAX`]
/// in size.
pub fn mat_mul(left: &Digraph, right: &Digraph) -> (out: Option<Digraph>)
    requires
        left.wf(),
        right.wf(),
    ensures
        out matches Some(g) ==> g.wf() && g@ == product(left@, right@),
        out is None ==> exists|s: Object, t: Object|
            #[trigger] abs_product_weight(left@, right@, s, t) > i128::MAX,
        bounded(left@, WEIGHT_MAX as int) && bounded(right@, WEIGHT_MAX as int) ==> out is Some
            && bounded(out->0@, PRODUCT_MAX as int),
{
    let ghost l = left@;
    let ghost r = right@;
    let ghost small = bounded(l, WEIGHT_MAX as int) && bounded(r, WEIGHT_MAX as int);
    let mut acc = Digraph::new();
    let sources = left.sources();
    let mut i: usize = 0;
    while i < sources.len()
        invariant
            i <= sources@.len(),
            acc.wf(),
            left.wf(),
            right.wf(),
            l == left@,
            r == right@,
            small == (bounded(l, WEIGHT_MAX as int) && bounded(r, WEIGHT_MAX as int)),
            sources@.no_duplicates(),
            forall|s: Object, t: Object| l.contains_key((s, t)) ==> sources@.contains(s),
            forall|s: Object, t: Object|
                #[trigger] weight(acc@, s, t) == (if sources@.take(i as int).contains(s) {
                    product_weight(l, r, s, t)
                } else {
                    0
                }),
            small ==> bounded(acc@, PRODUCT_MAX as int),
        decreases sources@.len() - i,
    {
        let s = sources[i];
        let row = left.row(s);
        let ghost done = sources@.take(i as int);
        let ghost next = sources@.take(i + 1);
        let ghost start = acc@;
        let ghost ms = row_targets(row@);
        proof {
            assert(next == done.push(s));
            assert forall|o: Object| next.contains(o) <==> done.contains(o) || o == s by {
                if done.contains(o) {
                    let j = choose|j: int| 0 <= j < done.len() && done[j] == o;
                    assert(next[j] == o);
                }
                if next.contains(o) {
                    let j = choose|j: int| 0 <= j < next.len() && next[j] == o;
                    if j < i {
                        assert(done[j] == o);
                    }
                }
                assert(next[i as int] == s);
            }
            if done.contains(s) {
                let j = choose|j: int| 0 <= j < done.len() && done[j] == s;
                assert(sources@[j] == sources@[i as int]);
            }
            assert(ms.take(0) =~= Seq::<Object>::empty());
        }
        let mut j: usize = 0;
        while j < row.len()
            invariant
                j <= row@.len(),
                acc.wf(),
                right.wf(),
                r == right@,
                l == left@,
                small == (bounded(l, WEIGHT_MAX as int) && bounded(r, WEIGHT_MAX as int)),
                lists_row(row@, l, s),
                ms == row_targets(row@),
                forall|s2: Object, t: Object|
                    s2 != s ==> #[trigger] weight(acc@, s2, t) == weight(start, s2, t),
                forall|t: Object|
                    #[trigger] weight(acc@, s, t) == partial_product(l, r, s, t, ms.take(j as int)),
                small ==> forall|t: Object|
                    -j * 0x1000_0000_0000_0000 <= #[trigger] weight(acc@, s, t) <= j
                        * 0x1000_0000_0000_0000,
            decreases row@.len() - j,
        {
            let (m, w1) = row[j];
            let cells = right.row(m);
            let ghost ts = row_targets(cells@);
            let ghost mid = acc@;
            proof {
                assert(weight(l, s, m) == w1);
            }
            let mut k: usize = 0;
            while k < cells.len()
                invariant
                    k <= cells@.len(),
                    acc.wf(),
                    lists_row(cells@, r, m),
                    ts == row_targets(cells@),
                    l == left@,
                    r == right@,
                    small == (bounded(l, WEIGHT_MAX as int) && bounded(r, WEIGHT_MAX as int)),
                    lists_row(row@, l, s),
                    ms == row_targets(row@),
                    j < row@.len(),
                    m == ms[j as int],
                    w1 == weight(l, s, m),
                    forall|t: Object|
                        #[trigger] weight(mid, s, t) == partial_product(l, r, s, t, ms.take(j as int)),
                    small ==> -WEIGHT_MAX <= w1 <= WEIGHT_MAX,
                    j < usize::MAX,
                    small ==> forall|t: Object|
                        -j * 0x1000_0000_0000_0000 <= #[trigger] weight(mid, s, t) <= j
                            * 0x1000_0000_0000_0000,
                    forall|s2: Object, t: Object|
                        s2 != s ==> #[trigger] weight(acc@, s2, t) == weight(mid, s2, t),
                    forall|t: Object|
                        #[trigger] weight(acc@, s, t) == weight(mid, s, t) + (if ts.take(
                            k as int,
                        ).contains(t) {
                            w1 * weight(r, m, t)
                        } else {
                            0
                        }),
                decreases cells@.len() - k,
            {
                let (t, w2) = cells[k];
                let ghost seen = ts.take(k as int);
                let ghost seen_next = ts.take(k + 1);
                let ghost before = acc@;
                proof {
                    assert(ts[k as int] == t);
                    assert(seen_next == seen.push(t));
                    assert forall|o: Object| seen_next.contains(o) <==> seen.contains(o) || o
                        == t by {
                        if seen.contains(o) {
                            let a = choose|a: int| 0 <= a < seen.len() && seen[a] == o;
                            assert(seen_next[a] == o);
                        }
                        if seen_next.contains(o) {
                            let a = choose|a: int| 0 <= a < seen_next.len() && seen_next[a] == o;
                            if a < k {
                                assert(seen[a] == o);
                            }
                        }
                        assert(seen_next[k as int] == t);
                    }
                    if seen.contains(t) {
                        let a = choose|a: int| 0 <= a < seen.len() && seen[a] == t;
                        assert(ts[a] == ts[k as int]);
                    }
                    assert(weight(r, m, t) == w2);
                    assert(weight(before, s, t) == weight(mid, s, t));
                    if small {
                        lemma_small_product(w1 as int, w2 as int);
                    }
                }
                proof {
                    assert forall|m2: Object| !ms.contains(m2) implies !l.contains_key((s, m2)) by {}
                }
                let term = match w1.checked_mul(w2) {
                    Some(p) => p,
                    None => {
                        proof {
                            lemma_overflow_witness(l, r, s, t, ms, j as int, w1 * w2);
                        }
                        return None;
                    },
                };
                let total = match acc.get(s, t).checked_add(term) {
                    Some(v) => v,
                    None => {
                        proof {
                            lemma_overflow_witness(
                                l,
                                r,
                                s,
                                t,
                                ms,
                                j as int,
                                weight(mid, s, t) + w1 * w2,
                            );
                        }
                        return None;
                    },
                };
                acc.set(s, t, total);
                proof {
                    assert forall|t2: Object|
                        #[trigger] weight(acc@, s, t2) == weight(mid, s, t2) + (
                        if seen_next.contains(t2) {
                            w1 * weight(r, m, t2)
                        } else {
                            0
                        }) by {
                        assert(weight(before, s, t2) == weight(mid, s, t2) + (if seen.contains(t2) {
                            w1 * weight(r, m, t2)
                        } else {
                            0
                        }));
                        assert(seen_next.contains(t2) <==> seen.contains(t2) || t2 == t);
                    }
                    assert forall|s2: Object, t2: Object| s2 != s implies #[trigger] weight(
                        acc@,
                        s2,
                        t2,
                    ) == weight(mid, s2, t2) by {
                        assert(weight(before, s2, t2) == weight(mid, s2, t2));
                    }
                }
                k = k + 1;
            }
            proof {
                assert(ts.take(cells@.len() as int) == ts);
                assert(ms[j as int] == m);
                assert(ms.take(j + 1) == ms.take(j as int).push(m));
                assert forall|t: Object|
                    #[trigger] weight(acc@, s, t) == partial_product(
                        l,
                        r,
                        s,
                        t,
                        ms.take(j + 1),
                    ) && (small ==> -(j + 1) * 0x1000_0000_0000_0000 <= weight(acc@, s, t) <= (j
                    + 1) * 0x1000_0000_0000_0000) by {
                    lemma_partial_product_push(l, r, s, t, ms.take(j as int), m);
                    assert(weight(mid, s, t) == partial_product(l, r, s, t, ms.take(j as int)));
                    if !ts.contains(t) {
                        assert(!r.contains_key((m, t)));
                        assert(weight(r, m, t) == 0);
                        assert(w1 * weight(r, m, t) == 0) by (nonlinear_arith)
                            requires
                                weight(r, m, t) == 0,
                        ;
                    }
                    if small {
                        lemma_small_product(w1 as int, weight(r, m, t));
                    }
                }
                assert forall|s2: Object, t: Object| s2 != s implies #[trigger] weight(
                    acc@,
                    s2,
                    t,
                ) == weight(start, s2, t) by {
                    assert(weight(mid, s2, t) == weight(start, s2, t));
                }
            }
            j = j + 1;
        }
        proof {
            assert(ms.take(row@.len() as int) == ms);
            assert forall|s2: Object, t: Object|
                #[trigger] weight(acc@, s2, t) == (if next.contains(s2) {
                    product_weight(l, r, s2, t)
                } else {
                    0
                }) by {
                if s2 == s {
                    let f = |m: Object| weight(l, s, m) * weight(r, m, t);
                    assert forall|m: Object| !ms.contains(m) implies #[trigger] f(m) == 0 by {
                        assert(!l.contains_key((s, m)));
                    }
                    lemma_sum_support(ms, f);
                } else {
                    assert(weight(start, s2, t) == (if done.contains(s2) {
                        product_weight(l, r, s2, t)
                    } else {
                        0
                    }));
                }
            }
            if small {
                assert forall|s2: Object, t: Object| -PRODUCT_MAX <= #[trigger] weight(acc@, s2, t)
                    <= PRODUCT_MAX by {
                    if s2 != s {
                        assert(weight(acc@, s2, t) == weight(start, s2, t));
                    } else {
                        assert(row@.len() <= usize::MAX);
                    }
                }
            }
        }
        i = i + 1;
    }
    proof {
        assert(sources@.take(sources@.len() as int) == sources@);
        acc.lemma_canonical();
        assert forall|s: Object, t: Object| weight(acc@, s, t) == weight(product(l, r), s, t) by {
            if !sources@.contains(s) {
                let f = |m: Object| weight(l, s, m) * weight(r, m, t);
                assert forall|m: Object| #[trigger] f(m) == 0 by {
                    assert(!l.contains_key((s, m)));
                }
                lemma_sum_zero(crate::object::object_key_count(), f);
            }
        }
        lemma_relation_ext(acc@, product(l, r));
    }
    Some(acc)
}

/// Composing three stores either way gives the same relation: if `left` is
/// the product of the product of `a` and `b` with `c`, and `right` the
/// product of `a` with the product of `b` and `c`, then `left` and `right`
/// hold the same pairs with the same weights.
pub proof fn lemma_mat_mul_associative(a: Digraph, b: Digraph, c: Digraph, ab: Digraph, bc: Digraph, left: Digraph, right: Digraph)
    requires
        ab@ == product(a@, b@),
        bc@ == product(b@, c@),
        left@ == product(ab@, c@),
        right@ == product(a@, bc@),
    ensures
        left@ == right@,
        forall|s: Object, t: Object| weight(left@, s, t) == weight(right@, s, t),
{
    crate::relation::lemma_product_associative(a@, b@, c@);
}

/// The changes of a tracking store: its current relation less the relation
/// that it held when its changes were last cleared.
pub fn diff(matrix: &TrackingDigraph) -> (out: Digraph)
    requires
        matrix.wf(),
    ensures
        out.wf(),
        out@ == minus(matrix@, matrix.before()),
{
    proof {
        matrix.lemma_ranges();
        matrix.lemma_delta();
        assert forall|s: Object, t: Object|
            weight(scaled(1, matrix.delta()), s, t) == weight(matrix.delta(), s, t) by {}
        lemma_relation_ext(scaled(1, matrix.delta()), matrix.delta());
    }
    self::mul(1, matrix.changes())
}

} // verus!
