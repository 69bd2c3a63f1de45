//! Dot products as integers: how they behave under congruence, scaling and
//! sums of their arguments.

use crate::congruence::{congruent, lemma_congruent_add, lemma_congruent_mul};
use crate::model::dot_prefix;
use crate::sums::sum;
use vstd::prelude::*;

verus! {

/// A dot product is the sum of its terms.
pub proof fn lemma_dot_is_sum(a: Seq<int>, b: Seq<int>, g: spec_fn(int) -> int, n: int)
    requires
        forall|k: int| 0 <= k < n ==> #[trigger] g(k) == a[k] * b[k],
    ensures
        dot_prefix(a, b, n) == sum(g, n),
    decreases n,
{
    if n > 0 {
        lemma_dot_is_sum(a, b, g, n - 1);
    }
}

/// Dot products of congruent vectors are congruent.
pub proof fn lemma_dot_congruent(
    p: int,
    a: Seq<int>,
    b: Seq<int>,
    c: Seq<int>,
    d: Seq<int>,
    n: int,
)
    requires
        p > 0,
        forall|k: int| 0 <= k < n ==> congruent(p, #[trigger] a[k], c[k]),
        forall|k: int| 0 <= k < n ==> congruent(p, #[trigger] b[k], d[k]),
    ensures
        congruent(p, dot_prefix(a, b, n), dot_prefix(c, d, n)),
    decreases n,
{
    if n > 0 {
        lemma_dot_congruent(p, a, b, c, d, n - 1);
        assert(congruent(p, a[n - 1], c[n - 1]));
        assert(congruent(p, b[n - 1], d[n - 1]));
        lemma_congruent_mul(p, a[n - 1], c[n - 1], b[n - 1], d[n - 1]);
        lemma_congruent_add(
            p,
            dot_prefix(a, b, n - 1),
            dot_prefix(c, d, n - 1),
            a[n - 1] * b[n - 1],
            c[n - 1] * d[n - 1],
        );
    }
}

/// A dot product does not depend on the order of its arguments.
pub proof fn lemma_dot_commutes(a: Seq<int>, b: Seq<int>, n: int)
    ensures
        dot_prefix(a, b, n) == dot_prefix(b, a, n),
    decreases n,
{
    if n > 0 {
        lemma_dot_commutes(a, b, n - 1);
        let x = a[n - 1];
        let y = b[n - 1];
        assert(x * y == y * x) by (nonlinear_arith);
    }
}

/// A factor common to the second argument leaves the dot product.
pub proof fn lemma_dot_scale(s: int, a: Seq<int>, b: Seq<int>, c: Seq<int>, n: int)
    requires
        forall|k: int| 0 <= k < n ==> #[trigger] c[k] == s * b[k],
    ensures
        dot_prefix(a, c, n) == s * dot_prefix(a, b, n),
    decreases n,
{
    if n > 0 {
        lemma_dot_scale(s, a, b, c, n - 1);
        let t = dot_prefix(a, b, n - 1);
        let x = a[n - 1];
        let y = b[n - 1];
        assert(c[n - 1] == s * y);
        assert(s * t + x * (s * y) == s * (t + x * y)) by (nonlinear_arith);
    } else {
        assert(s * 0 == 0) by (nonlinear_arith);
    }
}

/// The dot product with `b - f * c` is that with `b` minus `f` times that with
/// `c`.
pub proof fn lemma_dot_combination(
    f: int,
    a: Seq<int>,
    b: Seq<int>,
    c: Seq<int>,
    d: Seq<int>,
    n: int,
)
    requires
        forall|k: int| 0 <= k < n ==> #[trigger] d[k] == b[k] - f * c[k],
    ensures
        dot_prefix(a, d, n) == dot_prefix(a, b, n) - f * dot_prefix(a, c, n),
    decreases n,
{
    if n > 0 {
        lemma_dot_combination(f, a, b, c, d, n - 1);
        let tb = dot_prefix(a, b, n - 1);
        let tc = dot_prefix(a, c, n - 1);
        let x = a[n - 1];
        let y = b[n - 1];
        let z = c[n - 1];
        assert(d[n - 1] == y - f * z);
        assert((tb - f * tc) + x * (y - f * z) == (tb + x * y) - f * (tc + x * z))
            by (nonlinear_arith);
    } else {
        assert(f * 0 == 0) by (nonlinear_arith);
    }
}

/// The dot product with `b + c` is the sum of those with `b` and with `c`.
pub proof fn lemma_dot_sum(a: Seq<int>, b: Seq<int>, c: Seq<int>, d: Seq<int>, n: int)
    requires
        forall|k: int| 0 <= k < n ==> #[trigger] d[k] == b[k] + c[k],
    ensures
        dot_prefix(a, d, n) == dot_prefix(a, b, n) + dot_prefix(a, c, n),
    decreases n,
{
    if n > 0 {
        lemma_dot_sum(a, b, c, d, n - 1);
        let x = a[n - 1];
        let y = b[n - 1];
        let z = c[n - 1];
        assert(d[n - 1] == y + z);
        assert(x * (y + z) == x * y + x * z) by (nonlinear_arith);
    }
}

/// The dot product with a vector of zeros is zero.
pub proof fn lemma_dot_zero(a: Seq<int>, e: Seq<int>, n: int)
    requires
        forall|t: int| 0 <= t < n ==> #[trigger] e[t] == 0,
    ensures
        dot_prefix(a, e, n) == 0,
    decreases n,
{
    if n > 0 {
        lemma_dot_zero(a, e, n - 1);
        let x = a[n - 1];
        assert(e[n - 1] == 0);
        assert(x * 0 == 0) by (nonlinear_arith);
    }
}

/// The dot product with a unit vector picks one element.
pub proof fn lemma_dot_unit(a: Seq<int>, e: Seq<int>, n: int, k: int)
    requires
        0 <= k < n,
        forall|t: int| 0 <= t < n ==> #[trigger] e[t] == if t == k { 1int } else { 0int },
    ensures
        dot_prefix(a, e, n) == a[k],
    decreases n,
{
    let x = a[n - 1];
    if k == n - 1 {
        lemma_dot_zero(a, e, n - 1);
        assert(e[n - 1] == 1);
        assert(x * 1 == x) by (nonlinear_arith);
    } else {
        lemma_dot_unit(a, e, n - 1, k);
        assert(e[n - 1] == 0);
        assert(x * 0 == 0) by (nonlinear_arith);
    }
}

} // verus!
