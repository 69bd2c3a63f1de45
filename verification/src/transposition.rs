//! Transposition keeps the determinant, so what holds of rows and their
//! cofactors holds of columns too.

use crate::congruence::congruent;
use crate::dots::{lemma_dot_commutes, lemma_dot_congruent, lemma_dot_scale};
use crate::laplace::{
    lemma_laplace_is_sum, lemma_minor_square, lemma_rearrange, lemma_row_times_cofactors,
    lemma_sign_product,
};
use crate::model::{
    cofactor_column, cofactor_of, cofactor_row, column, common_len, det, dot, dot_prefix,
    has_inverse, identity, inverse_matrix, inverse_of, is_inverse_of, is_square_matrix, laplace,
    minor_determinant, minor_of, product, sign, skip_index, transposed,
};
use crate::sums::{
    lemma_sum_by_columns_equal, lemma_sum_by_columns_is_sum, lemma_sum_by_rows_is_sum,
    lemma_sum_column_is_sum, lemma_sum_exchange, lemma_sum_row_is_sum, lemma_sum_scale,
    lemma_sum_single, lemma_sum_skip, sum, sum_column, sum_row,
};
use vstd::arithmetic::div_mod::{
    lemma_mod_twice, lemma_mul_mod_noop_left, lemma_mul_mod_noop_right, lemma_small_mod,
};
use vstd::prelude::*;

verus! {

/// The sum of `m[i][j] * cofactor_of(m, i, j)` over `i < k`: the expansion
/// along column `j`.
pub open spec fn laplace_column(m: Seq<Seq<int>>, j: int, k: int) -> int
    decreases k,
{
    if k <= 0 {
        0
    } else {
        laplace_column(m, j, k - 1) + m[k - 1][j] * cofactor_of(m, k - 1, j)
    }
}

/// An expansion along a column is the sum of its terms.
pub proof fn lemma_laplace_column_is_sum(
    m: Seq<Seq<int>>,
    j: int,
    g: spec_fn(int) -> int,
    k: int,
)
    requires
        forall|i: int| 0 <= i < k ==> #[trigger] g(i) == m[i][j] * cofactor_of(m, i, j),
    ensures
        laplace_column(m, j, k) == sum(g, k),
    decreases k,
{
    if k > 0 {
        lemma_laplace_column_is_sum(m, j, g, k - 1);
    }
}

/// The term that row `i` and column `k` contribute when the expansion along
/// the first row is expanded once more along the first column.
pub open spec fn corner_term(m: Seq<Seq<int>>, i: int, k: int) -> int {
    if i == 0 && k == 0 {
        m[0][0] * cofactor_of(m, 0, 0)
    } else if i == 0 || k == 0 {
        0
    } else {
        (m[0][k] * sign(k)) * (m[i][0] * (sign(i - 1) * minor_determinant(
            minor_of(m, 0, k),
            i - 1,
            0,
        )))
    }
}

/// The same term, met when the expansion along the first column is expanded
/// once more along the first row.
pub open spec fn corner_term_swapped(m: Seq<Seq<int>>, i: int, k: int) -> int {
    if i == 0 && k == 0 {
        m[0][0] * cofactor_of(m, 0, 0)
    } else if i == 0 || k == 0 {
        0
    } else {
        (m[i][0] * sign(i)) * (m[0][k] * (sign(k - 1) * minor_determinant(
            minor_of(m, i, 0),
            0,
            k - 1,
        )))
    }
}

/// The two ways to meet a row and a column give one term.
proof fn lemma_corner_terms_agree(m: Seq<Seq<int>>, i: int, k: int)
    requires
        is_square_matrix(m),
        m.len() >= 2,
        0 <= i < m.len(),
        0 <= k < m.len(),
    ensures
        corner_term(m, i, k) == corner_term_swapped(m, i, k),
{
    if i != 0 && k != 0 {
        let x = minor_of(m, 0, k);
        let y = minor_of(m, i, 0);
        if m.len() > 2 {
            let xx = minor_of(x, i - 1, 0);
            let yy = minor_of(y, 0, k - 1);
            assert(xx =~~= yy) by {
                assert(xx.len() == yy.len());
                assert forall|r: int| 0 <= r < xx.len() implies #[trigger] xx[r] =~= yy[r] by {
                    assert forall|c: int| 0 <= c < xx[r].len() implies xx[r][c] == yy[r][c] by {
                        let r1 = skip_index(r, i - 1);
                        let c1 = skip_index(c, 0);
                        let r2 = skip_index(r, 0);
                        let c2 = skip_index(c, k - 1);
                        assert(xx[r][c] == x[r1][c1]);
                        assert(yy[r][c] == y[r2][c2]);
                        assert(x[r1][c1] == m[skip_index(r1, 0)][skip_index(c1, k)]);
                        assert(y[r2][c2] == m[skip_index(r2, i)][skip_index(c2, 0)]);
                    }
                }
            }
        }
        lemma_sign_product(k, i - 1);
        lemma_sign_product(i, k - 1);
        lemma_rearrange(
            m[0][k],
            sign(k),
            m[i][0],
            sign(i - 1),
            minor_determinant(x, i - 1, 0),
            sign(i),
            sign(k - 1),
            minor_determinant(y, 0, k - 1),
        );
    }
}

/// The term of column `k` in the expansion along the first row, expanded
/// once more along the first column.
proof fn lemma_first_row_term(m: Seq<Seq<int>>, k: int)
    requires
        is_square_matrix(m),
        m.len() >= 2,
        0 <= k < m.len(),
    ensures
        m[0][k] * cofactor_of(m, 0, k) == sum_column(
            |a: int, b: int| corner_term(m, a, b),
            k,
            m.len() as int,
        ),
    decreases m.len(), 0int,
{
    let n = m.len() as int;
    let f2 = |a: int, b: int| corner_term(m, a, b);
    let fk = |i: int| corner_term(m, i, k);
    assert forall|i: int| 0 <= i < n implies #[trigger] fk(i) == f2(i, k) by {}
    lemma_sum_column_is_sum(f2, fk, k, n);
    if k == 0 {
        lemma_sum_single(fk, n, 0);
    } else {
        let x = minor_of(m, 0, k);
        lemma_minor_square(m, 0, k);
        lemma_first_column(x);
        let h = |r: int| x[r][0] * cofactor_of(x, r, 0);
        lemma_laplace_column_is_sum(x, 0, h, n - 1);
        let g = |i: int|
            if i == 0 {
                0
            } else {
                m[i][0] * (sign(i - 1) * minor_determinant(x, i - 1, 0))
            };
        assert forall|r: int| 0 <= r < n - 1 implies #[trigger] h(r) == g(skip_index(r, 0)) by {
            assert(x[r][0] == m[skip_index(r, 0)][skip_index(0, k)]);
        }
        lemma_sum_skip(g, h, n, 0);
        assert(det(x) == sum(g, n));
        let c = m[0][k] * sign(k);
        assert forall|i: int| 0 <= i < n implies #[trigger] fk(i) == c * g(i) by {
            if i == 0 {
                assert(c * 0 == 0) by (nonlinear_arith);
            }
        }
        lemma_sum_scale(c, g, fk, n);
        let a = m[0][k];
        let s = sign(k);
        let d = det(x);
        assert(a * (s * d) == (a * s) * d) by (nonlinear_arith);
    }
}

/// The term of row `i` in the expansion along the first column, expanded
/// once more along the first row.
proof fn lemma_first_column_term(m: Seq<Seq<int>>, i: int)
    requires
        is_square_matrix(m),
        m.len() >= 2,
        0 <= i < m.len(),
    ensures
        m[i][0] * cofactor_of(m, i, 0) == sum_row(
            |a: int, b: int| corner_term_swapped(m, a, b),
            i,
            m.len() as int,
        ),
{
    let n = m.len() as int;
    let f2 = |a: int, b: int| corner_term_swapped(m, a, b);
    let fi = |k: int| corner_term_swapped(m, i, k);
    assert forall|k: int| 0 <= k < n implies #[trigger] fi(k) == f2(i, k) by {}
    lemma_sum_row_is_sum(f2, fi, i, n);
    if i == 0 {
        lemma_sum_single(fi, n, 0);
    } else {
        let y = minor_of(m, i, 0);
        lemma_minor_square(m, i, 0);
        let h = |c: int| y[0][c] * cofactor_of(y, 0, c);
        lemma_laplace_is_sum(y, 0, h, n - 1);
        let g = |k: int|
            if k == 0 {
                0
            } else {
                m[0][k] * (sign(k - 1) * minor_determinant(y, 0, k - 1))
            };
        assert forall|c: int| 0 <= c < n - 1 implies #[trigger] h(c) == g(skip_index(c, 0)) by {
            assert(y[0][c] == m[skip_index(0, i)][skip_index(c, 0)]);
        }
        lemma_sum_skip(g, h, n, 0);
        assert(det(y) == sum(g, n));
        let c = m[i][0] * sign(i);
        assert forall|k: int| 0 <= k < n implies #[trigger] fi(k) == c * g(k) by {
            if k == 0 {
                assert(c * 0 == 0) by (nonlinear_arith);
            }
        }
        lemma_sum_scale(c, g, fi, n);
        let a = m[i][0];
        let s = sign(i);
        let d = det(y);
        assert(a * (s * d) == (a * s) * d) by (nonlinear_arith);
    }
}

/// The determinant of a square matrix is its expansion along the first
/// column.
pub proof fn lemma_first_column(m: Seq<Seq<int>>)
    requires
        is_square_matrix(m),
        m.len() >= 1,
    ensures
        laplace_column(m, 0, m.len() as int) == det(m),
    decreases m.len(), 1int,
{
    let n = m.len() as int;
    if n == 1 {
        assert(laplace_column(m, 0, 0) == 0);
        assert(laplace(m, 0, 0) == 0);
        assert(laplace_column(m, 0, 1) == laplace_column(m, 0, 0) + m[0][0] * cofactor_of(
            m,
            0,
            0,
        ));
        assert(laplace(m, 0, 1) == laplace(m, 0, 0) + m[0][0] * cofactor_of(m, 0, 0));
    } else {
        let f = |a: int, b: int| corner_term(m, a, b);
        let g = |a: int, b: int| corner_term_swapped(m, a, b);
        let upper = |k: int| m[0][k] * cofactor_of(m, 0, k);
        let lower = |i: int| m[i][0] * cofactor_of(m, i, 0);
        lemma_laplace_is_sum(m, 0, upper, n);
        lemma_laplace_column_is_sum(m, 0, lower, n);
        assert forall|k: int| 0 <= k < n implies #[trigger] upper(k) == sum_column(f, k, n) by {
            lemma_first_row_term(m, k);
        }
        lemma_sum_by_columns_is_sum(f, upper, n, n);
        assert forall|i: int| 0 <= i < n implies #[trigger] lower(i) == sum_row(g, i, n) by {
            lemma_first_column_term(m, i);
        }
        lemma_sum_by_rows_is_sum(g, lower, n, n);
        assert forall|a: int, b: int| 0 <= a < n && 0 <= b < n implies #[trigger] f(a, b) == g(
            a,
            b,
        ) by {
            lemma_corner_terms_agree(m, a, b);
        }
        lemma_sum_by_columns_equal(f, g, n, n);
        lemma_sum_exchange(g, n, n);
    }
}

/// The transpose of a square matrix is square.
pub proof fn lemma_transposed_square(m: Seq<Seq<int>>)
    requires
        is_square_matrix(m),
    ensures
        is_square_matrix(transposed(m)),
        transposed(m).len() == m.len(),
{
    let t = transposed(m);
    assert forall|r: int| 0 <= r < t.len() implies (#[trigger] t[r]).len() == m.len() by {}
    if m.len() > 0 {
        assert(t[0].len() == m.len());
    }
}

/// A minor of the transpose is the transpose of a minor.
pub proof fn lemma_transposed_minor(m: Seq<Seq<int>>, i: int, j: int)
    requires
        is_square_matrix(m),
        m.len() >= 2,
    ensures
        minor_of(transposed(m), i, j) == transposed(minor_of(m, j, i)),
{
    let a = minor_of(transposed(m), i, j);
    let x = minor_of(m, j, i);
    let b = transposed(x);
    lemma_transposed_square(m);
    assert(x[0].len() == m.len() - 1);
    assert(a.len() == b.len());
    assert forall|r: int| 0 <= r < a.len() implies #[trigger] a[r] =~= b[r] by {
        assert forall|c: int| 0 <= c < a[r].len() implies a[r][c] == b[r][c] by {
            assert(a[r][c] == transposed(m)[skip_index(r, i)][skip_index(c, j)]);
            assert(b[r][c] == x[c][r]);
        }
    }
    assert(a =~= b);
}

/// A cofactor of the transpose is the cofactor across the diagonal.
pub proof fn lemma_cofactor_transposed(m: Seq<Seq<int>>, i: int, j: int)
    requires
        is_square_matrix(m),
        0 <= i < m.len(),
        0 <= j < m.len(),
    ensures
        cofactor_of(transposed(m), i, j) == cofactor_of(m, j, i),
    decreases m.len(), 0int,
{
    lemma_transposed_square(m);
    if m.len() > 1 {
        lemma_transposed_minor(m, i, j);
        lemma_minor_square(m, j, i);
        lemma_det_transposed(minor_of(m, j, i));
    }
}

/// The expansion of the transpose along its first row is the expansion of
/// the matrix along its first column.
proof fn lemma_transposed_expansion(m: Seq<Seq<int>>, k: int)
    requires
        is_square_matrix(m),
        0 <= k <= m.len(),
    ensures
        laplace(transposed(m), 0, k) == laplace_column(m, 0, k),
    decreases m.len(), 1int, k,
{
    if k > 0 {
        lemma_transposed_expansion(m, k - 1);
        lemma_cofactor_transposed(m, 0, k - 1);
        assert(transposed(m)[0][k - 1] == m[k - 1][0]);
    }
}

/// A square matrix and its transpose have one determinant.
pub proof fn lemma_det_transposed(m: Seq<Seq<int>>)
    requires
        is_square_matrix(m),
    ensures
        det(transposed(m)) == det(m),
    decreases m.len(), 2int, 0int,
{
    lemma_transposed_square(m);
    if m.len() > 0 {
        lemma_first_column(m);
        lemma_transposed_expansion(m, m.len() as int);
    }
}

/// A column times the cofactors of a column gives the determinant for the
/// column's own cofactors and zero for another column's.
pub proof fn lemma_column_times_cofactors(m: Seq<Seq<int>>, k: int, i: int)
    requires
        is_square_matrix(m),
        0 <= i < m.len(),
        0 <= k < m.len(),
    ensures
        dot_prefix(column(m, k), cofactor_column(m, i), m.len() as int) == if k == i {
            det(m)
        } else {
            0
        },
{
    let t = transposed(m);
    lemma_transposed_square(m);
    lemma_det_transposed(m);
    lemma_row_times_cofactors(t, k, i);
    assert(m[0].len() == m.len());
    assert(t[k] == column(m, k));
    assert forall|j: int| 0 <= j < m.len() implies cofactor_of(t, i, j) == cofactor_of(
        m,
        j,
        i,
    ) by {
        lemma_cofactor_transposed(m, i, j);
    }
    assert(cofactor_row(t, i) =~= cofactor_column(m, i));
}

/// The adjugate of a square matrix over its determinant, times the matrix,
/// is the identity, where the determinant has an inverse.
pub proof fn lemma_inverse_matrix_left(p: int, m: Seq<Seq<int>>)
    requires
        p > 1,
        is_square_matrix(m),
        m.len() >= 1,
        has_inverse(p, det(m) % p),
    ensures
        product(p, inverse_matrix(p, m), m) == identity(m.len()),
{
    let n = m.len() as int;
    let inv = inverse_matrix(p, m);
    let d = det(m);
    let dinv = inverse_of(p, d % p);
    assert(is_inverse_of(p, d % p, dinv));
    assert(m[0].len() == n);
    assert forall|i: int, k: int| 0 <= i < n && 0 <= k < n implies dot(inv[i], column(m, k)) % p
        == identity(m.len())[i][k] by {
        let col = column(m, k);
        let cof = cofactor_column(m, i);
        let exact = Seq::new(m.len(), |j: int| dinv * cofactor_of(m, j, i));
        assert(inv[i].len() == n);
        assert(common_len(inv[i], col) == n);
        assert forall|j: int| 0 <= j < n implies congruent(p, #[trigger] inv[i][j], exact[j]) by {
            let c = cofactor_of(m, j, i);
            assert(inv[i][j] == (dinv * (c % p)) % p);
            lemma_mul_mod_noop_right(dinv, c, p);
            lemma_mod_twice(dinv * (c % p), p);
        }
        lemma_dot_congruent(p, inv[i], col, exact, col, n);
        lemma_dot_commutes(exact, col, n);
        lemma_dot_scale(dinv, col, cof, exact, n);
        lemma_column_times_cofactors(m, k, i);
        if k == i {
            lemma_mul_mod_noop_left(d, dinv, p);
            assert(dinv * d == d * dinv) by (nonlinear_arith);
            lemma_small_mod(1, p as nat);
        } else {
            assert(dinv * 0 == 0) by (nonlinear_arith);
            lemma_small_mod(0, p as nat);
        }
    }
    assert(product(p, inv, m) =~~= identity(m.len()));
}

} // verus!
