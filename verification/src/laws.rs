//! What holds of the operations taken together.

use crate::congruence::{congruent, lemma_congruent_add};
use crate::dots::{lemma_dot_commutes, lemma_dot_congruent, lemma_dot_sum, lemma_dot_unit};
use crate::elimination::{eliminated_inverse, pivots_invertible, triangular_rows};
use crate::gauss::{
    is_reduced, lemma_elimination_inverts, lemma_initial_invariant, lemma_pivot_nonzero,
    lemma_pivots_invertible, lemma_triangular_form, lemma_triangular_invariant,
    lemma_triple_product,
};
use crate::laplace::lemma_inverse_matrix_right;
use crate::transposition::{lemma_det_transposed, lemma_inverse_matrix_left};
use crate::model::{
    applied, column, common_len, det, dot, dot_prefix, has_inverse, identity, inverse_matrix,
    is_field_order, is_identity_matrix, is_inverse_of, is_square_matrix, leading_minors_nonzero,
    pointwise_sum, product, transposed,
};
use vstd::arithmetic::div_mod::{lemma_mod_twice, lemma_small_mod};
use vstd::prelude::*;

verus! {

/// Transposing a square matrix twice gives the matrix back.
pub proof fn lemma_transpose_involution<T>(m: Seq<Seq<T>>)
    requires
        is_square_matrix(m),
    ensures
        transposed(transposed(m)) == m,
{
    let t = transposed(m);
    let tt = transposed(t);
    let n = m.len();
    if n > 0 {
        assert(m[0].len() == n);
        assert(t[0].len() == n);
        assert forall|i: int| 0 <= i < n implies #[trigger] tt[i] =~= m[i] by {
            assert(m[i].len() == n);
        }
    }
    assert(tt =~= m);
}

/// The identity matrix of any size is an identity matrix.
pub proof fn lemma_identity_is_identity(n: nat)
    ensures
        is_identity_matrix(identity(n)),
{
}

/// Zero has no inverse: a matrix whose determinant is zero in the field is
/// not inverted by its adjugate.
pub proof fn lemma_zero_determinant(p: int, m: Seq<Seq<int>>)
    requires
        p > 1,
        det(m) % p == 0,
    ensures
        !has_inverse(p, det(m) % p),
{
    assert forall|x: int| !#[trigger] is_inverse_of(p, det(m) % p, x) by {
        assert(0 * x == 0) by (nonlinear_arith);
        lemma_small_mod(0, p as nat);
    }
}

/// In a field, the product of a square matrix whose determinant is not zero
/// and its adjugate over its determinant, in either order, is the identity.
pub proof fn lemma_adjugate_inverts(p: int, m: Seq<Seq<int>>)
    requires
        is_field_order(p),
        is_square_matrix(m),
        m.len() >= 1,
        det(m) % p != 0,
    ensures
        product(p, m, inverse_matrix(p, m)) == identity(m.len()),
        product(p, inverse_matrix(p, m), m) == identity(m.len()),
        is_square_matrix(inverse_matrix(p, m)),
        inverse_matrix(p, m).len() == m.len(),
{
    lemma_mod_twice(det(m), p);
    assert(has_inverse(p, det(m) % p));
    lemma_inverse_matrix_right(p, m);
    lemma_inverse_matrix_left(p, m);
    let a = inverse_matrix(p, m);
    assert forall|r: int| 0 <= r < a.len() implies (#[trigger] a[r]).len() == m.len() by {}
    assert(a[0].len() == m.len());
}

/// A square matrix and its transpose have one determinant.
pub proof fn lemma_transpose_keeps_determinant(m: Seq<Seq<int>>)
    requires
        is_square_matrix(m),
    ensures
        det(transposed(m)) == det(m),
{
    lemma_det_transposed(m);
}

/// In a field, elimination without row exchanges inverts every square matrix
/// whose leading blocks all have determinants other than zero: what it makes
/// of the identity is the adjugate over the determinant, and the product of
/// the matrix and that, in either order, is the identity.
pub proof fn lemma_elimination_inverse(p: int, m: Seq<Seq<int>>)
    requires
        is_field_order(p),
        is_square_matrix(m),
        m.len() >= 1,
        leading_minors_nonzero(p, m),
    ensures
        eliminated_inverse(p, m) == inverse_matrix(p, m),
        product(p, m, eliminated_inverse(p, m)) == identity(m.len()),
        product(p, eliminated_inverse(p, m), m) == identity(m.len()),
{
    lemma_initial_invariant(p, m);
    lemma_pivots_invertible(p, m, m, 0);
    assert(m.skip(0) =~= m);
    lemma_triangular_form(p, m);
    let u = triangular_rows(p, m, 0);
    assert forall|i: int| 0 <= i < u.len() implies has_inverse(p, #[trigger] u[i][i]) by {
        let e = u[i][i];
        lemma_small_mod(0, p as nat);
        if e % p == 0 {
            lemma_diagonal_residue(p, m, i);
        }
        assert(has_inverse(p, e));
    }
    lemma_elimination_inverts(p, m);
}

/// No diagonal entry of the triangular form is zero in the field.
proof fn lemma_diagonal_residue(p: int, m: Seq<Seq<int>>, i: int)
    requires
        p > 1,
        is_square_matrix(m),
        m.len() >= 1,
        leading_minors_nonzero(p, m),
        pivots_invertible(p, m, 0),
        0 <= i < m.len(),
    ensures
        triangular_rows(p, m, 0)[i][i] % p != 0,
{
    let u = triangular_rows(p, m, 0);
    lemma_initial_invariant(p, m);
    assert(m.skip(0) =~= m);
    lemma_triangular_invariant(p, m, m, 0);
    assert(m.take(0) + triangular_rows(p, m.skip(0), 0) =~= u);
    lemma_pivot_nonzero(p, m, u, i);
}

/// A vector that goes through a square matrix and then through an inverse
/// of it comes back: `(v * m) * inv == v` where `m * inv` is the identity.
pub proof fn lemma_inverse_round_trip(p: int, m: Seq<Seq<int>>, inv: Seq<Seq<int>>, v: Seq<int>)
    requires
        p > 1,
        is_square_matrix(m),
        is_square_matrix(inv),
        inv.len() == m.len(),
        v.len() == m.len(),
        is_reduced(p, v),
        product(p, m, inv) == identity(m.len()),
    ensures
        applied(p, inv, applied(p, m, v)) == v,
{
    let n = m.len() as int;
    let w = applied(p, m, v);
    let res = applied(p, inv, w);
    lemma_small_mod(0, p as nat);
    lemma_small_mod(1, p as nat);
    assert forall|k: int| 0 <= k < n implies #[trigger] res[k] == v[k] by {
        let col = column(inv, k);
        let right = Seq::new(m.len(), |i: int| dot_prefix(m[i], col, n));
        let left = Seq::new(m.len(), |j: int| dot_prefix(v, column(m, j), n));
        let unit = Seq::new(m.len(), |i: int| if i == k { 1int } else { 0int });
        assert(common_len(col, w) == n);
        assert(res[k] == dot_prefix(col, w, n) % p);
        lemma_dot_commutes(col, w, n);
        assert forall|j: int| 0 <= j < n implies congruent(p, #[trigger] w[j], left[j]) by {
            assert(common_len(column(m, j), v) == n);
            lemma_dot_commutes(column(m, j), v, n);
            lemma_mod_twice(dot_prefix(column(m, j), v, n), p);
        }
        lemma_dot_congruent(p, w, col, left, col, n);
        lemma_triple_product(v, m, col);
        assert forall|i: int| 0 <= i < n implies congruent(p, #[trigger] right[i], unit[i]) by {
            assert(m[i].len() == n);
            assert(common_len(m[i], col) == n);
            assert(product(p, m, inv)[i][k] == dot(m[i], col) % p);
            assert(identity(m.len())[i][k] == unit[i]);
        }
        lemma_dot_congruent(p, v, right, v, unit, n);
        lemma_dot_unit(v, unit, n, k);
        lemma_small_mod(v[k] as nat, p as nat);
    }
    assert(res =~= v);
}

/// Adding after applying is applying after adding, with the other summand
/// taken through an inverse first:
/// `s + b * m == (b + s * inv) * m` where `inv * m` is the identity.
pub proof fn lemma_inverse_linearity(
    p: int,
    m: Seq<Seq<int>>,
    inv: Seq<Seq<int>>,
    s: Seq<int>,
    b: Seq<int>,
)
    requires
        p > 1,
        is_square_matrix(m),
        is_square_matrix(inv),
        inv.len() == m.len(),
        s.len() == m.len(),
        b.len() == m.len(),
        product(p, inv, m) == identity(m.len()),
    ensures
        pointwise_sum(p, s, applied(p, m, b)) == applied(
            p,
            m,
            pointwise_sum(p, b, applied(p, inv, s)),
        ),
{
    let n = m.len() as int;
    let q = applied(p, inv, s);
    let c = pointwise_sum(p, b, q);
    let lhs = pointwise_sum(p, s, applied(p, m, b));
    let rhs = applied(p, m, c);
    lemma_small_mod(0, p as nat);
    lemma_small_mod(1, p as nat);
    assert forall|k: int| 0 <= k < n implies #[trigger] lhs[k] == rhs[k] by {
        let col = column(m, k);
        let exact_q = Seq::new(m.len(), |j: int| dot_prefix(s, column(inv, j), n));
        let exact_c = Seq::new(m.len(), |j: int| b[j] + exact_q[j]);
        let right = Seq::new(m.len(), |i: int| dot_prefix(inv[i], col, n));
        let unit = Seq::new(m.len(), |i: int| if i == k { 1int } else { 0int });
        assert(common_len(col, b) == n);
        assert(common_len(col, c) == n);
        assert(rhs[k] == dot_prefix(col, c, n) % p);
        assert(lhs[k] == (s[k] + dot_prefix(col, b, n) % p) % p);
        assert forall|j: int| 0 <= j < n implies congruent(p, #[trigger] c[j], exact_c[j]) by {
            assert(common_len(column(inv, j), s) == n);
            lemma_dot_commutes(column(inv, j), s, n);
            let d = dot_prefix(s, column(inv, j), n);
            assert(q[j] == d % p);
            assert(c[j] == (b[j] + d % p) % p);
            lemma_mod_twice(d, p);
            lemma_congruent_add(p, b[j], b[j], d % p, d);
            lemma_mod_twice(b[j] + d % p, p);
        }
        lemma_dot_congruent(p, col, c, col, exact_c, n);
        lemma_dot_sum(col, b, exact_q, exact_c, n);
        lemma_dot_commutes(col, exact_q, n);
        lemma_triple_product(s, inv, col);
        assert forall|i: int| 0 <= i < n implies congruent(p, #[trigger] right[i], unit[i]) by {
            assert(inv[i].len() == n);
            assert(common_len(inv[i], col) == n);
            assert(product(p, inv, m)[i][k] == dot(inv[i], col) % p);
            assert(identity(m.len())[i][k] == unit[i]);
        }
        lemma_dot_congruent(p, s, right, s, unit, n);
        lemma_dot_unit(s, unit, n, k);
        let db = dot_prefix(col, b, n);
        let dq = dot_prefix(col, exact_q, n);
        assert(congruent(p, dq, s[k]));
        lemma_congruent_add(p, db, db, dq, s[k]);
        lemma_mod_twice(db, p);
        lemma_congruent_add(p, s[k], s[k], db % p, db);
    }
    assert(lhs =~= rhs);
}

/// In a field, a vector that goes through a square matrix whose determinant
/// is not zero, and then through its inverse, comes back.
pub proof fn lemma_round_trip(p: int, m: Seq<Seq<int>>, v: Seq<int>)
    requires
        is_field_order(p),
        is_square_matrix(m),
        m.len() >= 1,
        det(m) % p != 0,
        v.len() == m.len(),
        is_reduced(p, v),
    ensures
        applied(p, inverse_matrix(p, m), applied(p, m, v)) == v,
{
    lemma_adjugate_inverts(p, m);
    lemma_inverse_round_trip(p, m, inverse_matrix(p, m), v);
}

/// In a field, for a square matrix `m` whose determinant is not zero:
/// `s + b * m == (b + s * inverse) * m`.
pub proof fn lemma_linearity(p: int, m: Seq<Seq<int>>, s: Seq<int>, b: Seq<int>)
    requires
        is_field_order(p),
        is_square_matrix(m),
        m.len() >= 1,
        det(m) % p != 0,
        s.len() == m.len(),
        b.len() == m.len(),
    ensures
        pointwise_sum(p, s, applied(p, m, b)) == applied(
            p,
            m,
            pointwise_sum(p, b, applied(p, inverse_matrix(p, m), s)),
        ),
{
    lemma_adjugate_inverts(p, m);
    lemma_inverse_linearity(p, m, inverse_matrix(p, m), s, b);
}

} // verus!
