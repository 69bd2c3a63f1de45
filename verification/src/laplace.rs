//! Cofactor expansion: the determinant can be expanded along any row, and a
//! row expanded with the cofactors of another gives zero.

use crate::congruence::congruent;
use crate::dots::{lemma_dot_combination, lemma_dot_commutes, lemma_dot_congruent, lemma_dot_scale};
use crate::model::{
    cofactor_of, cofactor_row, column, common_len, det, dot, dot_prefix, has_inverse, identity,
    inverse_matrix, inverse_of, is_inverse_of, is_square_matrix, laplace, minor_determinant,
    minor_of, product, sign, skip_index, unskip_index,
};
use crate::sums::{
    lemma_sum_by_columns_equal, lemma_sum_by_columns_is_sum, lemma_sum_by_rows_is_sum,
    lemma_sum_column_is_sum, lemma_sum_exchange, lemma_sum_row_is_sum, lemma_sum_scale,
    lemma_sum_skip, sum, sum_column, sum_row,
};
use vstd::arithmetic::div_mod::{
    lemma_mod_twice, lemma_mul_mod_noop_left, lemma_mul_mod_noop_right, lemma_small_mod,
};
use vstd::prelude::*;

verus! {

/// A minor of a square matrix is square, one smaller.
pub proof fn lemma_minor_square(m: Seq<Seq<int>>, i: int, j: int)
    requires
        is_square_matrix(m),
        m.len() >= 1,
    ensures
        is_square_matrix(minor_of(m, i, j)),
        minor_of(m, i, j).len() == m.len() - 1,
{
    let x = minor_of(m, i, j);
    assert forall|r: int| 0 <= r < x.len() implies (#[trigger] x[r]).len() == x.len() by {}
    if x.len() > 0 {
        assert(x[0].len() == x.len());
    }
}

/// An expansion is the sum of its terms.
pub proof fn lemma_laplace_is_sum(m: Seq<Seq<int>>, i: int, g: spec_fn(int) -> int, k: int)
    requires
        forall|j: int| 0 <= j < k ==> #[trigger] g(j) == m[i][j] * cofactor_of(m, i, j),
    ensures
        laplace(m, i, k) == sum(g, k),
    decreases k,
{
    if k > 0 {
        lemma_laplace_is_sum(m, i, g, k - 1);
    }
}

/// An expansion along row `i` is the dot product of the row and its cofactors.
pub proof fn lemma_laplace_is_dot(m: Seq<Seq<int>>, i: int, k: int)
    requires
        0 <= k <= m.len(),
    ensures
        laplace(m, i, k) == dot_prefix(m[i], cofactor_row(m, i), k),
    decreases k,
{
    if k > 0 {
        lemma_laplace_is_dot(m, i, k - 1);
    }
}

/// The product of two signs is the sign of the sum.
pub proof fn lemma_sign_product(a: int, b: int)
    ensures
        sign(a) * sign(b) == sign(a + b),
{
    let x = sign(a);
    let y = sign(b);
    assert(x * y == sign(a + b)) by (nonlinear_arith)
        requires
            (x == 1 || x == -1) && (y == 1 || y == -1),
            (x == y) ==> sign(a + b) == 1,
            (x != y) ==> sign(a + b) == -1,
    ;
}

/// The term that columns `j` of row `i` and `k` of row `i + 1` contribute
/// when the expansion along row `i` is expanded once more.
pub open spec fn pair_term(m: Seq<Seq<int>>, i: int, j: int, k: int) -> int {
    if j == k {
        0
    } else {
        (m[i][j] * sign(i + j)) * (m[i + 1][k] * (sign(i + unskip_index(k, j)) * minor_determinant(
            minor_of(m, i, j),
            i,
            unskip_index(k, j),
        )))
    }
}

/// The same term, met when the expansion along row `i + 1` is expanded once
/// more.
pub open spec fn pair_term_swapped(m: Seq<Seq<int>>, i: int, j: int, k: int) -> int {
    if j == k {
        0
    } else {
        (m[i + 1][k] * sign(i + 1 + k)) * (m[i][j] * (sign(i + unskip_index(j, k))
            * minor_determinant(minor_of(m, i + 1, k), i, unskip_index(j, k))))
    }
}

/// Two products of the same factors, grouped in two ways.
pub proof fn lemma_rearrange(a: int, s1: int, b: int, s2: int, d: int, s3: int, s4: int, e: int)
    requires
        s1 * s2 == s3 * s4,
        d == e,
    ensures
        (a * s1) * (b * (s2 * d)) == (b * s3) * (a * (s4 * e)),
{
    assert((a * s1) * (b * (s2 * d)) == (a * b * d) * (s1 * s2)) by (nonlinear_arith);
    assert((b * s3) * (a * (s4 * e)) == (a * b * e) * (s3 * s4)) by (nonlinear_arith);
}

/// Removing rows `i` and `i + 1` and two columns gives one matrix, whichever
/// row goes first.
proof fn lemma_minor_of_minor(m: Seq<Seq<int>>, i: int, j: int, k: int)
    requires
        is_square_matrix(m),
        m.len() >= 2,
        0 <= i,
        i + 1 < m.len(),
        0 <= j < m.len(),
        0 <= k < m.len(),
        j != k,
    ensures
        minor_determinant(minor_of(m, i, j), i, unskip_index(k, j)) == minor_determinant(
            minor_of(m, i + 1, k),
            i,
            unskip_index(j, k),
        ),
{
    let x = minor_of(m, i, j);
    let y = minor_of(m, i + 1, k);
    if m.len() > 2 {
        let xx = minor_of(x, i, unskip_index(k, j));
        let yy = minor_of(y, i, unskip_index(j, k));
        assert(xx =~~= yy) by {
            assert(xx.len() == yy.len());
            assert forall|r: int| 0 <= r < xx.len() implies #[trigger] xx[r] =~= yy[r] by {
                assert forall|c: int| 0 <= c < xx[r].len() implies xx[r][c] == yy[r][c] by {
                    let r1 = skip_index(r, i);
                    let c1 = skip_index(c, unskip_index(k, j));
                    let c2 = skip_index(c, unskip_index(j, k));
                    assert(xx[r][c] == x[r1][c1]);
                    assert(yy[r][c] == y[r1][c2]);
                    assert(x[r1][c1] == m[skip_index(r1, i)][skip_index(c1, j)]);
                    assert(y[r1][c2] == m[skip_index(r1, i + 1)][skip_index(c2, k)]);
                }
            }
        }
    }
}

/// The two ways to meet a pair of columns give one term.
proof fn lemma_pair_terms_agree(m: Seq<Seq<int>>, i: int, j: int, k: int)
    requires
        is_square_matrix(m),
        m.len() >= 2,
        0 <= i,
        i + 1 < m.len(),
        0 <= j < m.len(),
        0 <= k < m.len(),
    ensures
        pair_term(m, i, j, k) == pair_term_swapped(m, i, j, k),
{
    if j != k {
        lemma_minor_of_minor(m, i, j, k);
        lemma_sign_product(i + j, i + unskip_index(k, j));
        lemma_sign_product(i + 1 + k, i + unskip_index(j, k));
        lemma_rearrange(
            m[i][j],
            sign(i + j),
            m[i + 1][k],
            sign(i + unskip_index(k, j)),
            minor_determinant(minor_of(m, i, j), i, unskip_index(k, j)),
            sign(i + 1 + k),
            sign(i + unskip_index(j, k)),
            minor_determinant(minor_of(m, i + 1, k), i, unskip_index(j, k)),
        );
    }
}

/// The term of column `j` in the expansion along row `i`, expanded once more
/// along the row below.
proof fn lemma_upper_row_term(m: Seq<Seq<int>>, i: int, j: int)
    requires
        is_square_matrix(m),
        m.len() >= 2,
        0 <= i,
        i + 1 < m.len(),
        0 <= j < m.len(),
    ensures
        m[i][j] * cofactor_of(m, i, j) == sum_row(
            |a: int, b: int| pair_term(m, i, a, b),
            j,
            m.len() as int,
        ),
    decreases m.len(), 0int, 0int,
{
    let n = m.len() as int;
    let x = minor_of(m, i, j);
    lemma_minor_square(m, i, j);
    lemma_expansion_along_row(x, i);
    let h = |k1: int| x[i][k1] * cofactor_of(x, i, k1);
    lemma_laplace_is_sum(x, i, h, n - 1);
    let g = |k: int|
        if k == j {
            0
        } else {
            m[i + 1][k] * (sign(i + unskip_index(k, j)) * minor_determinant(
                x,
                i,
                unskip_index(k, j),
            ))
        };
    assert forall|k1: int| 0 <= k1 < n - 1 implies #[trigger] h(k1) == g(skip_index(k1, j)) by {
        assert(x[i][k1] == m[skip_index(i, i)][skip_index(k1, j)]);
        assert(unskip_index(skip_index(k1, j), j) == k1);
    }
    lemma_sum_skip(g, h, n, j);
    assert(det(x) == sum(g, n));
    let c = m[i][j] * sign(i + j);
    let f2 = |a: int, b: int| pair_term(m, i, a, b);
    let fk = |k: int| pair_term(m, i, j, k);
    assert forall|k: int| 0 <= k < n implies #[trigger] fk(k) == c * g(k) by {
        if k == j {
            assert(c * 0 == 0) by (nonlinear_arith);
        }
    }
    lemma_sum_scale(c, g, fk, n);
    assert forall|k: int| 0 <= k < n implies #[trigger] fk(k) == f2(j, k) by {}
    lemma_sum_row_is_sum(f2, fk, j, n);
    let a = m[i][j];
    let s = sign(i + j);
    let d = det(x);
    assert(a * (s * d) == (a * s) * d) by (nonlinear_arith);
}

/// The term of column `k` in the expansion along row `i + 1`, expanded once
/// more along the row above.
proof fn lemma_lower_row_term(m: Seq<Seq<int>>, i: int, k: int)
    requires
        is_square_matrix(m),
        m.len() >= 2,
        0 <= i,
        i + 1 < m.len(),
        0 <= k < m.len(),
    ensures
        m[i + 1][k] * cofactor_of(m, i + 1, k) == sum_column(
            |a: int, b: int| pair_term_swapped(m, i, a, b),
            k,
            m.len() as int,
        ),
    decreases m.len(), 0int, 0int,
{
    let n = m.len() as int;
    let y = minor_of(m, i + 1, k);
    lemma_minor_square(m, i + 1, k);
    lemma_expansion_along_row(y, i);
    let h = |j1: int| y[i][j1] * cofactor_of(y, i, j1);
    lemma_laplace_is_sum(y, i, h, n - 1);
    let g = |j: int|
        if j == k {
            0
        } else {
            m[i][j] * (sign(i + unskip_index(j, k)) * minor_determinant(y, i, unskip_index(j, k)))
        };
    assert forall|j1: int| 0 <= j1 < n - 1 implies #[trigger] h(j1) == g(skip_index(j1, k)) by {
        assert(y[i][j1] == m[skip_index(i, i + 1)][skip_index(j1, k)]);
        assert(unskip_index(skip_index(j1, k), k) == j1);
    }
    lemma_sum_skip(g, h, n, k);
    assert(det(y) == sum(g, n));
    let c = m[i + 1][k] * sign(i + 1 + k);
    let f2 = |a: int, b: int| pair_term_swapped(m, i, a, b);
    let fj = |j: int| pair_term_swapped(m, i, j, k);
    assert forall|j: int| 0 <= j < n implies #[trigger] fj(j) == c * g(j) by {
        if j == k {
            assert(c * 0 == 0) by (nonlinear_arith);
        }
    }
    lemma_sum_scale(c, g, fj, n);
    assert forall|j: int| 0 <= j < n implies #[trigger] fj(j) == f2(j, k) by {}
    lemma_sum_column_is_sum(f2, fj, k, n);
    let a = m[i + 1][k];
    let s = sign(i + 1 + k);
    let d = det(y);
    assert(a * (s * d) == (a * s) * d) by (nonlinear_arith);
}

/// The expansions along two rows next to each other agree.
proof fn lemma_adjacent_rows(m: Seq<Seq<int>>, i: int)
    requires
        is_square_matrix(m),
        0 <= i,
        i + 1 < m.len(),
    ensures
        laplace(m, i + 1, m.len() as int) == laplace(m, i, m.len() as int),
    decreases m.len(), 1int, 0int,
{
    let n = m.len() as int;
    let f = |a: int, b: int| pair_term(m, i, a, b);
    let g = |a: int, b: int| pair_term_swapped(m, i, a, b);
    let upper = |j: int| m[i][j] * cofactor_of(m, i, j);
    let lower = |k: int| m[i + 1][k] * cofactor_of(m, i + 1, k);
    lemma_laplace_is_sum(m, i, upper, n);
    lemma_laplace_is_sum(m, i + 1, lower, n);
    assert forall|j: int| 0 <= j < n implies #[trigger] upper(j) == sum_row(f, j, n) by {
        lemma_upper_row_term(m, i, j);
    }
    lemma_sum_by_rows_is_sum(f, upper, n, n);
    assert forall|k: int| 0 <= k < n implies #[trigger] lower(k) == sum_column(g, k, n) by {
        lemma_lower_row_term(m, i, k);
    }
    lemma_sum_by_columns_is_sum(g, lower, n, n);
    assert forall|a: int, b: int| 0 <= a < n && 0 <= b < n implies #[trigger] g(a, b) == f(
        a,
        b,
    ) by {
        lemma_pair_terms_agree(m, i, a, b);
    }
    lemma_sum_by_columns_equal(g, f, n, n);
    lemma_sum_exchange(f, n, n);
}

/// The determinant of a square matrix is its expansion along any row.
pub proof fn lemma_expansion_along_row(m: Seq<Seq<int>>, i: int)
    requires
        is_square_matrix(m),
        0 <= i < m.len(),
    ensures
        laplace(m, i, m.len() as int) == det(m),
    decreases m.len(), 2int, i,
{
    if i > 0 {
        lemma_expansion_along_row(m, i - 1);
        lemma_adjacent_rows(m, i - 1);
    }
}

/// An expansion whose terms are all zero is zero.
proof fn lemma_laplace_zero(m: Seq<Seq<int>>, i: int, k: int)
    requires
        forall|j: int| 0 <= j < k ==> #[trigger] cofactor_of(m, i, j) == 0,
    ensures
        laplace(m, i, k) == 0,
    decreases k,
{
    if k > 0 {
        lemma_laplace_zero(m, i, k - 1);
        let x = m[i][k - 1];
        assert(cofactor_of(m, i, k - 1) == 0);
        assert(x * 0 == 0) by (nonlinear_arith);
    }
}

/// The determinant of a matrix of one entry is that entry.
pub proof fn lemma_det_single(m: Seq<Seq<int>>)
    requires
        m.len() == 1,
    ensures
        det(m) == m[0][0],
{
    let x = m[0][0];
    assert(laplace(m, 0, 0) == 0);
    assert(cofactor_of(m, 0, 0) == 1) by {
        assert(sign(0) * minor_determinant(m, 0, 0) == 1) by (nonlinear_arith)
            requires
                sign(0) == 1,
                minor_determinant(m, 0, 0) == 1,
        ;
    }
    assert(x * 1 == x) by (nonlinear_arith);
    assert(laplace(m, 0, 1) == laplace(m, 0, 0) + m[0][0] * cofactor_of(m, 0, 0));
}

/// The determinant of a two by two matrix.
pub proof fn lemma_det_pair(m: Seq<Seq<int>>)
    requires
        is_square_matrix(m),
        m.len() == 2,
    ensures
        det(m) == m[0][0] * m[1][1] - m[0][1] * m[1][0],
{
    let a = m[0][0];
    let b = m[0][1];
    let c = m[1][0];
    let d = m[1][1];
    lemma_det_single(minor_of(m, 0, 0));
    lemma_det_single(minor_of(m, 0, 1));
    assert(minor_of(m, 0, 0)[0][0] == d);
    assert(minor_of(m, 0, 1)[0][0] == c);
    assert(minor_determinant(m, 0, 0) == d);
    assert(minor_determinant(m, 0, 1) == c);
    assert(cofactor_of(m, 0, 0) == d) by {
        assert(sign(0) * d == d) by (nonlinear_arith)
            requires
                sign(0) == 1,
        ;
    }
    assert(cofactor_of(m, 0, 1) == -c) by {
        assert(sign(1) * c == -c) by (nonlinear_arith)
            requires
                sign(1) == -1,
        ;
    }
    assert(laplace(m, 0, 0) == 0);
    assert(laplace(m, 0, 1) == laplace(m, 0, 0) + a * cofactor_of(m, 0, 0));
    assert(laplace(m, 0, 2) == laplace(m, 0, 1) + b * cofactor_of(m, 0, 1));
    assert(b * (-c) == -(b * c)) by (nonlinear_arith);
}

/// A square matrix with two equal rows has determinant zero.
pub proof fn lemma_equal_rows(m: Seq<Seq<int>>, r1: int, r2: int)
    requires
        is_square_matrix(m),
        0 <= r1 < r2 < m.len(),
        m[r1] == m[r2],
    ensures
        det(m) == 0,
    decreases m.len(),
{
    let n = m.len() as int;
    if n == 2 {
        lemma_det_pair(m);
        let a = m[0][0];
        let b = m[0][1];
        assert(a * b - b * a == 0) by (nonlinear_arith);
    } else {
        let r = if r1 > 0 {
            0int
        } else if r2 > 1 {
            1int
        } else {
            2int
        };
        lemma_expansion_along_row(m, r);
        assert forall|j: int| 0 <= j < n implies #[trigger] cofactor_of(m, r, j) == 0 by {
            let x = minor_of(m, r, j);
            lemma_minor_square(m, r, j);
            let q1 = unskip_index(r1, r);
            let q2 = unskip_index(r2, r);
            assert(skip_index(q1, r) == r1);
            assert(skip_index(q2, r) == r2);
            assert(x[q1] =~= x[q2]);
            lemma_equal_rows(x, q1, q2);
            let s = sign(r + j);
            assert(s * 0 == 0) by (nonlinear_arith);
        }
        lemma_laplace_zero(m, r, n);
    }
}

/// The cofactors of a row do not depend on that row.
pub proof fn lemma_cofactors_without_row(m: Seq<Seq<int>>, i: int, v: Seq<int>)
    requires
        0 <= i < m.len(),
    ensures
        cofactor_row(m.update(i, v), i) == cofactor_row(m, i),
{
    let m2 = m.update(i, v);
    assert forall|j: int| 0 <= j < m.len() implies cofactor_of(m2, i, j) == cofactor_of(
        m,
        i,
        j,
    ) by {
        if m.len() > 1 {
            assert(minor_of(m2, i, j) =~~= minor_of(m, i, j));
        }
    }
    assert(cofactor_row(m2, i) =~= cofactor_row(m, i));
}

/// The determinant of a square matrix with row `i` replaced by `v` is the dot
/// product of `v` and the cofactors of row `i`.
pub proof fn lemma_replaced_row(m: Seq<Seq<int>>, i: int, v: Seq<int>)
    requires
        is_square_matrix(m),
        0 <= i < m.len(),
        v.len() == m.len(),
    ensures
        det(m.update(i, v)) == dot_prefix(v, cofactor_row(m, i), m.len() as int),
{
    let m2 = m.update(i, v);
    assert(is_square_matrix(m2)) by {
        assert forall|r: int| 0 <= r < m2.len() implies (#[trigger] m2[r]).len() == m.len() by {
            if r != i {
                assert(m[r].len() == m.len());
            }
        }
    }
    lemma_expansion_along_row(m2, i);
    lemma_laplace_is_dot(m2, i, m.len() as int);
    lemma_cofactors_without_row(m, i, v);
}

/// A row times the cofactors of a row gives the determinant for the row's own
/// cofactors and zero for another row's.
pub proof fn lemma_row_times_cofactors(m: Seq<Seq<int>>, k: int, i: int)
    requires
        is_square_matrix(m),
        0 <= i < m.len(),
        0 <= k < m.len(),
    ensures
        dot_prefix(m[k], cofactor_row(m, i), m.len() as int) == if k == i {
            det(m)
        } else {
            0
        },
{
    assert(m[k].len() == m.len());
    lemma_replaced_row(m, i, m[k]);
    let m2 = m.update(i, m[k]);
    if k == i {
        assert(m2 =~= m);
    } else {
        assert(is_square_matrix(m2)) by {
            assert forall|r: int| 0 <= r < m2.len() implies (#[trigger] m2[r]).len()
                == m.len() by {
                assert(m[r].len() == m.len());
            }
        }
        if k < i {
            lemma_equal_rows(m2, k, i);
        } else {
            lemma_equal_rows(m2, i, k);
        }
    }
}

/// An expansion along a row of zeros is zero.
proof fn lemma_laplace_zero_entries(m: Seq<Seq<int>>, i: int, k: int)
    requires
        forall|j: int| 0 <= j < k ==> #[trigger] m[i][j] == 0,
    ensures
        laplace(m, i, k) == 0,
    decreases k,
{
    if k > 0 {
        lemma_laplace_zero_entries(m, i, k - 1);
        let c = cofactor_of(m, i, k - 1);
        assert(m[i][k - 1] == 0);
        assert(0 * c == 0) by (nonlinear_arith);
    }
}

/// Where the last row is zero before its last entry, the determinant is that
/// entry times the determinant of what is left without the last row and
/// column.
pub proof fn lemma_last_row(y: Seq<Seq<int>>)
    requires
        is_square_matrix(y),
        y.len() >= 1,
        forall|j: int| 0 <= j < y.len() - 1 ==> #[trigger] y[y.len() - 1][j] == 0,
    ensures
        det(y) == y[y.len() - 1][y.len() - 1] * minor_determinant(
            y,
            y.len() - 1,
            y.len() - 1,
        ),
{
    let n = y.len() as int;
    lemma_expansion_along_row(y, n - 1);
    lemma_laplace_zero_entries(y, n - 1, n - 1);
    let d = minor_determinant(y, n - 1, n - 1);
    assert(sign((n - 1) + (n - 1)) * d == d) by (nonlinear_arith)
        requires
            sign((n - 1) + (n - 1)) == 1,
    ;
    assert(cofactor_of(y, n - 1, n - 1) == d);
    assert(laplace(y, n - 1, n) == laplace(y, n - 1, n - 1) + y[n - 1][n - 1] * cofactor_of(
        y,
        n - 1,
        n - 1,
    ));
}

/// Subtracting a multiple of one row from another leaves the determinant as
/// it is, up to congruence in the entries of the new row.
pub proof fn lemma_row_operation(p: int, y: Seq<Seq<int>>, t: int, c: int, f: int, w: Seq<int>)
    requires
        p > 0,
        is_square_matrix(y),
        0 <= t < y.len(),
        0 <= c < y.len(),
        t != c,
        w.len() == y.len(),
        forall|j: int| 0 <= j < y.len() ==> congruent(p, #[trigger] w[j], y[t][j] - f * y[c][j]),
    ensures
        congruent(p, det(y.update(t, w)), det(y)),
{
    let n = y.len() as int;
    let cof = cofactor_row(y, t);
    let exact = Seq::new(y.len(), |j: int| y[t][j] - f * y[c][j]);
    lemma_replaced_row(y, t, w);
    lemma_dot_congruent(p, w, cof, exact, cof, n);
    lemma_dot_commutes(exact, cof, n);
    lemma_dot_combination(f, cof, y[t], y[c], exact, n);
    lemma_dot_commutes(cof, y[t], n);
    lemma_dot_commutes(cof, y[c], n);
    lemma_row_times_cofactors(y, t, t);
    lemma_row_times_cofactors(y, c, t);
    assert(f * 0 == 0) by (nonlinear_arith);
}

/// A square matrix times its adjugate over its determinant is the identity,
/// where the determinant has an inverse.
pub proof fn lemma_inverse_matrix_right(p: int, m: Seq<Seq<int>>)
    requires
        p > 1,
        is_square_matrix(m),
        m.len() >= 1,
        has_inverse(p, det(m) % p),
    ensures
        product(p, m, inverse_matrix(p, m)) == identity(m.len()),
{
    let n = m.len() as int;
    let inv = inverse_matrix(p, m);
    let d = det(m);
    let dinv = inverse_of(p, d % p);
    assert(is_inverse_of(p, d % p, dinv));
    assert(inv[0].len() == n);
    assert forall|k: int, i: int| 0 <= k < n && 0 <= i < n implies dot(m[k], column(inv, i)) % p
        == identity(m.len())[k][i] by {
        let col = column(inv, i);
        let exact = Seq::new(m.len(), |j: int| dinv * cofactor_of(m, i, j));
        assert(m[k].len() == n);
        assert(common_len(m[k], col) == n);
        assert forall|j: int| 0 <= j < n implies congruent(p, #[trigger] col[j], exact[j]) by {
            let c = cofactor_of(m, i, j);
            assert(col[j] == (dinv * (c % p)) % p);
            lemma_mul_mod_noop_right(dinv, c, p);
            lemma_mod_twice(dinv * (c % p), p);
        }
        lemma_dot_congruent(p, m[k], col, m[k], exact, n);
        lemma_dot_scale(dinv, m[k], cofactor_row(m, i), exact, n);
        lemma_row_times_cofactors(m, k, i);
        if k == i {
            lemma_mul_mod_noop_left(d, dinv, p);
            assert(dinv * d == d * dinv) by (nonlinear_arith);
            lemma_small_mod(1, p as nat);
        } else {
            assert(dinv * 0 == 0) by (nonlinear_arith);
            lemma_small_mod(0, p as nat);
        }
    }
    assert(product(p, m, inv) =~~= identity(m.len()));
}

} // verus!
