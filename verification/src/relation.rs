//! Weighted relations over world objects, and their algebra.
//!
//! A relation assigns an integer weight to every ordered pair of objects;
//! a pair that is absent weighs zero. Composition is the relational
//! product: the weight of `(s, t)` in the product of `a` and `b` is the sum,
//! over every object `m`, of the weight of `(s, m)` in `a` times the weight
//! of `(m, t)` in `b`.

use crate::object::{
    lemma_object_key, lemma_object_of_key, object_key, object_key_count, object_of_key, Object,
};
use vstd::prelude::*;

verus! {

/// A weighted relation. No pair is mapped to zero in a canonical relation.
pub type Relation = Map<(Object, Object), int>;

/// The weight of a pair; zero where the pair is absent.
pub open spec fn weight(r: Relation, s: Object, t: Object) -> int {
    if r.contains_key((s, t)) {
        r[(s, t)]
    } else {
        0
    }
}

/// Absence is represented by omission: no stored weight is zero.
pub open spec fn canonical(r: Relation) -> bool {
    forall|k: (Object, Object)| r.contains_key(k) ==> #[trigger] r[k] != 0
}

/// The canonical relation with the given weights.
pub open spec fn relation_of(f: spec_fn(Object, Object) -> int) -> Relation {
    Map::new(|k: (Object, Object)| f(k.0, k.1) != 0, |k: (Object, Object)| f(k.0, k.1))
}

/// The sum of `f` over the objects whose key is below `n`.
pub open spec fn sum_below(n: nat, f: spec_fn(Object) -> int) -> int
    decreases n,
{
    if n == 0 {
        0
    } else {
        sum_below((n - 1) as nat, f) + f(object_of_key(n - 1))
    }
}

/// The sum of `f` over every object.
pub open spec fn sum_objects(f: spec_fn(Object) -> int) -> int {
    sum_below(object_key_count(), f)
}

/// The sum of `f` over the items of a sequence.
pub open spec fn sum_seq(items: Seq<Object>, f: spec_fn(Object) -> int) -> int
    decreases items.len(),
{
    if items.len() == 0 {
        0
    } else {
        sum_seq(items.drop_last(), f) + f(items.last())
    }
}

/// The weight of `(s, t)` in the product of `a` and `b`.
pub open spec fn product_weight(a: Relation, b: Relation, s: Object, t: Object) -> int {
    sum_objects(|m: Object| weight(a, s, m) * weight(b, m, t))
}

/// The relational product of `a` and `b`.
pub open spec fn product(a: Relation, b: Relation) -> Relation {
    relation_of(|s: Object, t: Object| product_weight(a, b, s, t))
}

/// The pointwise sum of two relations.
pub open spec fn plus(a: Relation, b: Relation) -> Relation {
    relation_of(|s: Object, t: Object| weight(a, s, t) + weight(b, s, t))
}

/// The pointwise difference of two relations.
pub open spec fn minus(a: Relation, b: Relation) -> Relation {
    relation_of(|s: Object, t: Object| weight(a, s, t) - weight(b, s, t))
}

/// The relation with every weight multiplied by `k`.
pub open spec fn scaled(k: int, a: Relation) -> Relation {
    relation_of(|s: Object, t: Object| k * weight(a, s, t))
}

/// Two canonical relations with the same weights are the same relation.
pub proof fn lemma_relation_ext(a: Relation, b: Relation)
    requires
        canonical(a),
        canonical(b),
        forall|s: Object, t: Object| weight(a, s, t) == weight(b, s, t),
    ensures
        a == b,
{
    assert forall|k: (Object, Object)| a.contains_key(k) == b.contains_key(k) by {
        assert(weight(a, k.0, k.1) == weight(b, k.0, k.1));
        if a.contains_key(k) {
            assert(a[k] != 0);
        }
        if b.contains_key(k) {
            assert(b[k] != 0);
        }
    }
    assert forall|k: (Object, Object)| a.contains_key(k) implies a[k] == b[k] by {
        assert(weight(a, k.0, k.1) == weight(b, k.0, k.1));
    }
    assert(a =~= b);
}

/// Sums of pointwise equal functions are equal.
pub proof fn lemma_sum_ext(n: nat, f: spec_fn(Object) -> int, g: spec_fn(Object) -> int)
    requires
        forall|m: Object| #[trigger] f(m) == g(m),
    ensures
        sum_below(n, f) == sum_below(n, g),
    decreases n,
{
    if n > 0 {
        lemma_sum_ext((n - 1) as nat, f, g);
    }
}

/// The sum of a combination of functions is the combination of their sums.
pub proof fn lemma_sum_linear(
    n: nat,
    f: spec_fn(Object) -> int,
    g: spec_fn(Object) -> int,
    c: int,
    d: int,
    h: spec_fn(Object) -> int,
)
    requires
        forall|m: Object| #[trigger] h(m) == c * f(m) + d * g(m),
    ensures
        sum_below(n, h) == c * sum_below(n, f) + d * sum_below(n, g),
    decreases n,
{
    if n > 0 {
        lemma_sum_linear((n - 1) as nat, f, g, c, d, h);
        let m = object_of_key(n - 1);
        let sf = sum_below((n - 1) as nat, f);
        let sg = sum_below((n - 1) as nat, g);
        assert(c * (sf + f(m)) + d * (sg + g(m)) == c * sf + d * sg + (c * f(m) + d * g(m)))
            by (nonlinear_arith);
    }
}

/// The sum of the zero function is zero.
pub proof fn lemma_sum_zero(n: nat, f: spec_fn(Object) -> int)
    requires
        forall|m: Object| #[trigger] f(m) == 0,
    ensures
        sum_below(n, f) == 0,
    decreases n,
{
    if n > 0 {
        lemma_sum_zero((n - 1) as nat, f);
    }
}

/// Two nested sums can be taken in either order.
pub proof fn lemma_sum_exchange(n1: nat, n2: nat, g: spec_fn(Object, Object) -> int)
    ensures
        sum_below(n1, |x: Object| sum_below(n2, |y: Object| g(x, y))) == sum_below(
            n2,
            |y: Object| sum_below(n1, |x: Object| g(x, y)),
        ),
    decreases n1,
{
    let rows = |x: Object| sum_below(n2, |y: Object| g(x, y));
    let cols = |y: Object| sum_below(n1, |x: Object| g(x, y));
    if n1 == 0 {
        lemma_sum_zero(n2, cols);
    } else {
        let k = (n1 - 1) as nat;
        let x0 = object_of_key(n1 - 1);
        let cols_before = |y: Object| sum_below(k, |x: Object| g(x, y));
        let last = |y: Object| g(x0, y);
        lemma_sum_exchange(k, n2, g);
        assert forall|y: Object| #[trigger] cols(y) == 1 * cols_before(y) + 1 * last(y) by {
            let col = |x: Object| g(x, y);
            assert(sum_below(n1, col) == sum_below(k, col) + col(x0));
        }
        lemma_sum_linear(n2, cols_before, last, 1, 1, cols);
        assert(rows(x0) == sum_below(n2, last));
    }
}

/// Moving the value of `f` at one object out of the sum.
pub proof fn lemma_sum_point(n: nat, f: spec_fn(Object) -> int, g: spec_fn(Object) -> int, at: Object)
    requires
        n <= object_key_count(),
        forall|m: Object| m != at ==> #[trigger] g(m) == f(m),
        g(at) == 0,
    ensures
        sum_below(n, f) == sum_below(n, g) + (if object_key(at) < n {
            f(at)
        } else {
            0
        }),
    decreases n,
{
    if n > 0 {
        lemma_sum_point((n - 1) as nat, f, g, at);
        lemma_object_key(at);
        lemma_object_of_key(n - 1);
    }
}

/// The sum of `f` over a sequence only depends on `f` at its items.
pub proof fn lemma_sum_seq_ext(items: Seq<Object>, f: spec_fn(Object) -> int, g: spec_fn(Object) -> int)
    requires
        forall|i: int| 0 <= i < items.len() ==> f(#[trigger] items[i]) == g(items[i]),
    ensures
        sum_seq(items, f) == sum_seq(items, g),
    decreases items.len(),
{
    if items.len() > 0 {
        let rest = items.drop_last();
        assert forall|i: int| 0 <= i < rest.len() implies f(#[trigger] rest[i]) == g(rest[i]) by {
            assert(rest[i] == items[i]);
        }
        lemma_sum_seq_ext(rest, f, g);
    }
}

/// A function that is zero outside a list of distinct objects sums, over
/// every object, to its sum over the list.
pub proof fn lemma_sum_support(items: Seq<Object>, f: spec_fn(Object) -> int)
    requires
        items.no_duplicates(),
        forall|m: Object| !items.contains(m) ==> #[trigger] f(m) == 0,
    ensures
        sum_objects(f) == sum_seq(items, f),
    decreases items.len(),
{
    if items.len() == 0 {
        assert forall|m: Object| #[trigger] f(m) == 0 by {
            assert(!items.contains(m));
        }
        lemma_sum_zero(object_key_count(), f);
    } else {
        let at = items.last();
        let rest = items.drop_last();
        let g = |m: Object|
            if m == at {
                0
            } else {
                f(m)
            };
        assert forall|m: Object| !rest.contains(m) implies #[trigger] g(m) == 0 by {
            if m != at && items.contains(m) {
                let i = choose|i: int| 0 <= i < items.len() && items[i] == m;
                assert(rest[i] == m);
            }
        }
        lemma_sum_support(rest, g);
        assert forall|i: int| 0 <= i < rest.len() implies g(#[trigger] rest[i]) == f(rest[i]) by {
            assert(rest[i] == items[i]);
        }
        lemma_sum_seq_ext(rest, g, f);
        lemma_sum_point(object_key_count(), f, g, at);
        lemma_object_key(at);
    }
}

/// The weights of a product are the sums that define it.
pub proof fn lemma_product_weight(a: Relation, b: Relation, s: Object, t: Object)
    ensures
        weight(product(a, b), s, t) == product_weight(a, b, s, t),
        canonical(product(a, b)),
{
}

/// Composition is associative: composing `a` with `b` and the result with
/// `c` gives the same relation as composing `a` with the product of `b` and
/// `c`.
pub proof fn lemma_product_associative(a: Relation, b: Relation, c: Relation)
    ensures
        product(product(a, b), c) == product(a, product(b, c)),
{
    let left = product(product(a, b), c);
    let right = product(a, product(b, c));
    let n = object_key_count();
    assert forall|s: Object, t: Object| weight(left, s, t) == weight(right, s, t) by {
        let g = |x: Object, y: Object| weight(a, s, x) * weight(b, x, y) * weight(c, y, t);
        // left: sum over y of (sum over x of a(s,x) b(x,y)) * c(y,t)
        let left_terms = |y: Object| weight(product(a, b), s, y) * weight(c, y, t);
        let left_nested = |y: Object| sum_below(n, |x: Object| g(x, y));
        assert forall|y: Object| #[trigger] left_terms(y) == left_nested(y) by {
            let inner = |x: Object| weight(a, s, x) * weight(b, x, y);
            let zero = |x: Object| 0int;
            let col = |x: Object| g(x, y);
            let k = weight(c, y, t);
            assert forall|x: Object| #[trigger] col(x) == k * inner(x) + 0 * zero(x) by {
                assert(weight(a, s, x) * weight(b, x, y) * k == k * (weight(a, s, x) * weight(
                    b,
                    x,
                    y,
                ))) by (nonlinear_arith);
            }
            lemma_sum_linear(n, inner, zero, k, 0, col);
            assert(sum_below(n, inner) * k == k * sum_below(n, inner)) by (nonlinear_arith);
            assert(weight(product(a, b), s, y) == sum_below(n, inner));
        }
        lemma_sum_ext(n, left_terms, left_nested);
        // right: sum over x of a(s,x) * (sum over y of b(x,y) c(y,t))
        let right_terms = |x: Object| weight(a, s, x) * weight(product(b, c), x, t);
        let right_nested = |x: Object| sum_below(n, |y: Object| g(x, y));
        assert forall|x: Object| #[trigger] right_terms(x) == right_nested(x) by {
            let inner = |y: Object| weight(b, x, y) * weight(c, y, t);
            let zero = |y: Object| 0int;
            let row = |y: Object| g(x, y);
            let k = weight(a, s, x);
            assert forall|y: Object| #[trigger] row(y) == k * inner(y) + 0 * zero(y) by {
                assert(k * weight(b, x, y) * weight(c, y, t) == k * (weight(b, x, y) * weight(
                    c,
                    y,
                    t,
                ))) by (nonlinear_arith);
            }
            lemma_sum_linear(n, inner, zero, k, 0, row);
            assert(weight(product(b, c), x, t) == sum_below(n, inner));
        }
        lemma_sum_ext(n, right_terms, right_nested);
        lemma_sum_exchange(n, n, g);
        assert(weight(left, s, t) == sum_below(n, left_terms));
        assert(weight(right, s, t) == sum_below(n, right_terms));
    }
    lemma_relation_ext(left, right);
}

/// The weight by which a product changes when its factors change from
/// `l - dl` and `r - dr` to `l` and `r`: the sum of the products of the left
/// change with the new right factor and of the new left factor with the
/// right change, less the product of the two changes.
pub open spec fn product_change(l: Relation, dl: Relation, r: Relation, dr: Relation, s: Object, t: Object) -> int {
    product_weight(dl, r, s, t) + product_weight(l, dr, s, t) - product_weight(dl, dr, s, t)
}

/// Incremental maintenance agrees with recomputation: adding
/// [`product_change`] to the product of the old factors gives the product
/// of the new factors.
pub proof fn lemma_incremental_equals_batch(
    l: Relation,
    dl: Relation,
    r: Relation,
    dr: Relation,
    s: Object,
    t: Object,
)
    ensures
        product_weight(minus(l, dl), minus(r, dr), s, t) + product_change(l, dl, r, dr, s, t)
            == product_weight(l, r, s, t),
{
    let n = object_key_count();
    let old_terms = |m: Object| weight(minus(l, dl), s, m) * weight(minus(r, dr), m, t);
    let new_terms = |m: Object| weight(l, s, m) * weight(r, m, t);
    let left_terms = |m: Object| weight(dl, s, m) * weight(r, m, t);
    let right_terms = |m: Object| weight(l, s, m) * weight(dr, m, t);
    let both_terms = |m: Object| weight(dl, s, m) * weight(dr, m, t);
    let gained = |m: Object| left_terms(m) + right_terms(m);
    let net = |m: Object| gained(m) - both_terms(m);
    assert forall|m: Object| #[trigger] gained(m) == 1 * left_terms(m) + 1 * right_terms(m) by {}
    lemma_sum_linear(n, left_terms, right_terms, 1, 1, gained);
    assert forall|m: Object| #[trigger] net(m) == 1 * gained(m) + (-1) * both_terms(m) by {}
    lemma_sum_linear(n, gained, both_terms, 1, -1, net);
    assert forall|m: Object| #[trigger] new_terms(m) == 1 * old_terms(m) + 1 * net(m) by {
        let a = weight(l, s, m);
        let da = weight(dl, s, m);
        let b = weight(r, m, t);
        let db = weight(dr, m, t);
        assert(weight(minus(l, dl), s, m) == a - da);
        assert(weight(minus(r, dr), m, t) == b - db);
        assert(a * b == (a - da) * (b - db) + (da * b + a * db - da * db)) by (nonlinear_arith);
    }
    lemma_sum_linear(n, old_terms, net, 1, 1, new_terms);
}

/// A sum of terms that are not negative is not negative.
pub proof fn lemma_sum_nonnegative(n: nat, f: spec_fn(Object) -> int)
    requires
        forall|m: Object| 0 <= #[trigger] f(m),
    ensures
        0 <= sum_below(n, f),
    decreases n,
{
    if n > 0 {
        lemma_sum_nonnegative((n - 1) as nat, f);
    }
}

/// Taking from a relation its difference to another leaves the other.
pub proof fn lemma_minus_minus(a: Relation, b: Relation)
    requires
        canonical(b),
    ensures
        minus(a, minus(a, b)) == b,
{
    assert forall|s: Object, t: Object| weight(minus(a, minus(a, b)), s, t) == weight(b, s, t) by {
        assert(weight(minus(a, b), s, t) == weight(a, s, t) - weight(b, s, t));
    }
    lemma_relation_ext(minus(a, minus(a, b)), b);
}

} // verus!
